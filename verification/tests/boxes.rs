use mp4::bytes::{Decode, Encode};
use mp4::data::{DataEntry, DataEntryUrlBox, DataEntryUrnBox, DataInformationBox, DataReferenceBox};
use mp4::error::{Error, IoError};
use mp4::file::{File, FileTypeBox, MediaDataBox};
use mp4::fixed_point::{U16F16, U8F8};
use mp4::fourcc::{FourCC, Language};
use mp4::framing::{encode_box_header, update_box_header};
use mp4::matrix::Matrix;
use mp4::media::{
    HandlerBox, MediaBox, MediaHeaderBox, MediaInformationBox, MediaInformationHeader,
    SoundMediaHeaderBox, VideoMediaHeaderBox,
};
use mp4::movie::{MovieBox, MovieHeaderBox};
use mp4::sample_entry::{
    AACSampleEntry, AudioSampleEntry, AV1SampleEntry, AVCSampleEntry, SampleDescriptionBox,
    VisualSampleEntry,
};
use mp4::sample_table::{
    ChunkOffsetBox, SampleSizeBox, SampleTableBox, SampleToChunkBox, SampleToChunkEntry,
    SampleToGroupBox, SampleToGroupEntry, SyncSampleBox, TimeToSampleBox, TimeToSampleEntry,
};
use mp4::track::{EditBox, EditListBox, EditListEntry, TrackBox, TrackHeaderBox};

fn encoded<T: Encode>(value: &T) -> Vec<u8> {
    let mut out = Vec::new();
    value.encode(&mut out).unwrap();
    out
}

/// Encodes a box, checks its header and its size, and decodes its body.
fn round_trip<T: Encode + Decode + PartialEq + std::fmt::Debug>(value: &T, tag: &[u8; 4]) -> Vec<u8> {
    let bytes = encoded(value);
    assert_eq!(u32::from_be_bytes(bytes[0..4].try_into().unwrap()) as usize, bytes.len());
    assert_eq!(&bytes[4..8], tag);
    assert_eq!(value.size(), bytes.len() as u64);
    let mut body: &[u8] = &bytes[8..];
    let decoded = T::decode(&mut body).unwrap();
    assert_eq!(&decoded, value);
    assert!(body.is_empty());
    assert_eq!(encoded(&decoded), bytes);
    bytes
}

fn visual() -> VisualSampleEntry {
    let mut compressorname = [0u8; 32];
    compressorname[0] = 4;
    compressorname[1..5].copy_from_slice(b"test");
    VisualSampleEntry {
        data_reference_index: 1,
        width: 1920,
        height: 1080,
        horizresolution: U16F16::from_bits(0x0048_0000),
        vertresolution: U16F16::from_bits(0x0048_0000),
        frame_count: 1,
        compressorname,
        depth: 24,
        config: vec![0, 0, 0, 12, b'a', b'v', b'1', b'C', 0x81, 0x0c, 0x0c, 0x00],
    }
}

fn audio() -> AudioSampleEntry {
    AudioSampleEntry {
        data_reference_index: 1,
        channelcount: 2,
        samplesize: 16,
        samplerate: U16F16::from_bits(48000 << 16),
        config: vec![1, 2, 3],
    }
}

fn sample_table() -> SampleTableBox {
    SampleTableBox {
        description: SampleDescriptionBox::AV1(AV1SampleEntry { base: visual() }),
        time_to_sample: TimeToSampleBox(vec![
            TimeToSampleEntry { sample_count: 3, sample_delta: 33 },
            TimeToSampleEntry { sample_count: 2, sample_delta: 50 },
        ]),
        sync_sample: Some(SyncSampleBox(vec![1, 4])),
        sample_size: SampleSizeBox::PerSample(vec![10, 20, 30, 40, 50]),
        sample_to_chunk: SampleToChunkBox(vec![SampleToChunkEntry {
            first_chunk: 1,
            samples_per_chunk: 5,
            sample_description_index: 1,
        }]),
        chunk_offset: ChunkOffsetBox(vec![48]),
        sample_to_group: Some(SampleToGroupBox(
            FourCC::from_bytes(*b"roll"),
            vec![SampleToGroupEntry { sample_count: 5, group_description_index: 1 }],
        )),
    }
}

fn media() -> MediaBox {
    MediaBox {
        header: MediaHeaderBox {
            creation_time: 1,
            modification_time: 2,
            timescale: 1000,
            duration: 199,
            language: Language::from_code(*b"eng").unwrap(),
        },
        handler: HandlerBox {
            handler_type: FourCC::from_bytes(*b"vide"),
            name: "VideoHandler".to_string(),
        },
        information: MediaInformationBox {
            header: MediaInformationHeader::Video(VideoMediaHeaderBox::default()),
            data_information: DataInformationBox::default(),
            sample_table: sample_table(),
        },
    }
}

fn track() -> TrackBox {
    TrackBox {
        header: TrackHeaderBox {
            duration: 199,
            width: U16F16::from_int(1920).unwrap(),
            height: U16F16::from_int(1080).unwrap(),
            ..TrackHeaderBox::default()
        },
        media: media(),
        edit: Some(EditBox {
            edit_list: Some(EditListBox(vec![EditListEntry {
                segment_duration: 199,
                media_time: 0,
                media_rate: U16F16::from_int(1).unwrap(),
            }])),
        }),
    }
}

fn movie() -> MovieBox {
    MovieBox {
        header: MovieHeaderBox {
            timescale: 1000,
            duration: 199,
            next_track_id: 2,
            ..MovieHeaderBox::default()
        },
        tracks: vec![track()],
    }
}

#[test]
fn box_header_is_patched_with_the_size() {
    let mut out = vec![0xaa, 0xbb];
    let begin = encode_box_header(&mut out, *b"test").unwrap();
    assert_eq!(begin, 2);
    assert_eq!(out, vec![0xaa, 0xbb, 0, 0, 0, 0, b't', b'e', b's', b't']);
    out.extend_from_slice(&[1, 2, 3]);
    update_box_header(&mut out, begin).unwrap();
    assert_eq!(out, vec![0xaa, 0xbb, 0, 0, 0, 11, b't', b'e', b's', b't', 1, 2, 3]);
}

#[test]
fn an_empty_box_has_size_eight() {
    let mut out = Vec::new();
    let begin = encode_box_header(&mut out, *b"free").unwrap();
    update_box_header(&mut out, begin).unwrap();
    assert_eq!(out, vec![0, 0, 0, 8, b'f', b'r', b'e', b'e']);
}

#[test]
fn file_type_round_trip() {
    let value = FileTypeBox {
        major_brand: FourCC::from_bytes(*b"isom"),
        minor_version: 512,
        compatible_brands: vec![FourCC::from_bytes(*b"isom"), FourCC::from_bytes(*b"av01")],
    };
    let bytes = round_trip(&value, b"ftyp");
    assert_eq!(
        bytes,
        [
            &[0u8, 0, 0, 24][..],
            b"ftyp",
            b"isom",
            &[0, 0, 2, 0],
            b"isom",
            b"av01"
        ]
        .concat()
    );
}

#[test]
fn file_type_without_brands() {
    let value = FileTypeBox {
        major_brand: FourCC::from_bytes(*b"mp42"),
        minor_version: 0,
        compatible_brands: vec![],
    };
    assert_eq!(round_trip(&value, b"ftyp").len(), 16);
}

#[test]
fn file_type_with_a_broken_brand_is_malformed() {
    let mut input: &[u8] = b"isom\0\0\0\0iso";
    assert_eq!(FileTypeBox::decode(&mut input), Err(Error::Io(IoError::InvalidData)));
    let mut input: &[u8] = b"isom\0\0";
    assert_eq!(FileTypeBox::decode(&mut input), Err(Error::Io(IoError::UnexpectedEof)));
}

#[test]
fn media_data_round_trip() {
    let bytes = round_trip(&MediaDataBox(vec![1, 2, 3, 4, 5]), b"mdat");
    assert_eq!(bytes, vec![0, 0, 0, 13, b'm', b'd', b'a', b't', 1, 2, 3, 4, 5]);
    round_trip(&MediaDataBox(vec![]), b"mdat");
}

#[test]
fn movie_header_round_trip() {
    let value = MovieHeaderBox {
        creation_time: 10,
        modification_time: 20,
        timescale: 1000,
        duration: 5000,
        rate: U16F16::from_bits(0x0001_8000),
        volume: U8F8::from_bits(0x0080),
        matrix: Matrix::identity(),
        next_track_id: 3,
    };
    let bytes = round_trip(&value, b"mvhd");
    assert_eq!(bytes.len(), 108);
    assert_eq!(&bytes[8..12], &[0, 0, 0, 0]);
    assert_eq!(&bytes[12..16], &[0, 0, 0, 10]);
    assert_eq!(&bytes[20..24], &[0, 0, 3, 0xe8]);
    assert_eq!(&bytes[24..28], &[0, 0, 0x13, 0x88]);
    assert_eq!(&bytes[28..32], &[0, 1, 0x80, 0]);
    assert_eq!(&bytes[32..34], &[0, 0x80]);
    assert_eq!(&bytes[104..108], &[0, 0, 0, 3]);
}

#[test]
fn movie_header_default() {
    let value = MovieHeaderBox::default();
    assert_eq!(value.rate.to_bits(), 0x0001_0000);
    assert_eq!(value.volume.to_bits(), 0x0100);
    assert_eq!(value.matrix, Matrix::identity());
    assert_eq!(value.timescale, 0);
    assert_eq!(value.next_track_id, 0);
    round_trip(&value, b"mvhd");
}

fn movie_header_v1() -> Vec<u8> {
    let mut body = vec![1u8, 0, 0, 0];
    body.extend_from_slice(&0x1_0000_0001u64.to_be_bytes());
    body.extend_from_slice(&0x2_0000_0002u64.to_be_bytes());
    body.extend_from_slice(&600u32.to_be_bytes());
    body.extend_from_slice(&0x3_0000_0003u64.to_be_bytes());
    body.extend_from_slice(&0x0001_0000u32.to_be_bytes());
    body.extend_from_slice(&0x0100u16.to_be_bytes());
    body.extend_from_slice(&[0; 10]);
    body.extend_from_slice(&encoded(&Matrix::identity()));
    body.extend_from_slice(&[0; 24]);
    body.extend_from_slice(&7u32.to_be_bytes());
    body
}

#[test]
fn movie_header_version_one_has_times_of_64_bits() {
    let body = movie_header_v1();
    assert_eq!(body.len(), 112);
    let mut input: &[u8] = &body;
    let value = MovieHeaderBox::decode(&mut input).unwrap();
    assert!(input.is_empty());
    assert_eq!(value.creation_time, 0x1_0000_0001);
    assert_eq!(value.modification_time, 0x2_0000_0002);
    assert_eq!(value.timescale, 600);
    assert_eq!(value.duration, 0x3_0000_0003);
    assert_eq!(value.rate.to_bits(), 0x0001_0000);
    assert_eq!(value.volume.to_bits(), 0x0100);
    assert_eq!(value.matrix, Matrix::identity());
    assert_eq!(value.next_track_id, 7);
}

#[test]
fn times_beyond_32_bits_are_written_in_version_one() {
    let body = movie_header_v1();
    let mut input: &[u8] = &body;
    let value = MovieHeaderBox::decode(&mut input).unwrap();
    let bytes = round_trip(&value, b"mvhd");
    assert_eq!(bytes.len(), 120);
    assert_eq!(&bytes[8..], &body[..]);
    for (creation_time, modification_time, duration) in
        [(1u64 << 32, 0u64, 0u64), (0, 1 << 32, 0), (0, 0, 1 << 32), (u64::MAX, u64::MAX, u64::MAX)]
    {
        let value = MovieHeaderBox {
            creation_time,
            modification_time,
            duration,
            ..MovieHeaderBox::default()
        };
        let bytes = round_trip(&value, b"mvhd");
        assert_eq!(bytes.len(), 120);
        assert_eq!(bytes[8], 1);
    }
    let value = MovieHeaderBox {
        creation_time: u32::MAX as u64,
        modification_time: u32::MAX as u64,
        duration: u32::MAX as u64,
        ..MovieHeaderBox::default()
    };
    let bytes = round_trip(&value, b"mvhd");
    assert_eq!(bytes.len(), 108);
    assert_eq!(bytes[8], 0);
}

#[test]
fn track_and_media_headers_with_long_times_round_trip() {
    let track = TrackHeaderBox {
        enabled: true,
        in_movie: false,
        in_preview: true,
        creation_time: 0x1_0000_0000,
        modification_time: 2,
        track_id: 3,
        duration: 0xffff_ffff_ffff,
        ..TrackHeaderBox::default()
    };
    let bytes = round_trip(&track, b"tkhd");
    assert_eq!(bytes.len(), 104);
    assert_eq!(&bytes[8..12], &[1, 0, 0, 5]);
    assert_eq!(&bytes[12..20], &0x1_0000_0000u64.to_be_bytes());
    assert_eq!(&bytes[28..32], &[0, 0, 0, 3]);
    let short = TrackHeaderBox { creation_time: 0xffff_ffff, ..TrackHeaderBox::default() };
    assert_eq!(round_trip(&short, b"tkhd").len(), 92);

    let media = MediaHeaderBox {
        creation_time: 1,
        modification_time: 0x2_0000_0000,
        timescale: 90000,
        duration: 3,
        language: Language::from_code(*b"eng").unwrap(),
    };
    let bytes = round_trip(&media, b"mdhd");
    assert_eq!(bytes.len(), 44);
    assert_eq!(bytes[8], 1);
    assert_eq!(&bytes[28..32], &90000u32.to_be_bytes());
}

#[test]
fn an_edit_list_with_long_times_round_trips() {
    let value = EditListBox(vec![
        EditListEntry { segment_duration: 1, media_time: 2, media_rate: U16F16::from_int(1).unwrap() },
        EditListEntry {
            segment_duration: 0x1_0000_0000,
            media_time: u64::MAX,
            media_rate: U16F16::from_bits(0x8000),
        },
    ]);
    let bytes = round_trip(&value, b"elst");
    assert_eq!(bytes.len(), 16 + 40);
    assert_eq!(&bytes[8..16], &[1, 0, 0, 0, 0, 0, 0, 2]);
    assert_eq!(&bytes[16..24], &1u64.to_be_bytes());
    assert_eq!(&bytes[44..52], &u64::MAX.to_be_bytes());
    round_trip(&EditBox { edit_list: Some(value) }, b"edts");
}

#[test]
fn movie_header_of_an_unknown_version_is_malformed() {
    let mut body = movie_header_v1();
    body[0] = 2;
    let mut input: &[u8] = &body;
    assert_eq!(MovieHeaderBox::decode(&mut input), Err(Error::Io(IoError::InvalidData)));
    assert_eq!(input.len(), 112);
}

#[test]
fn movie_header_with_a_reserved_field_set_is_malformed() {
    let bytes = encoded(&MovieHeaderBox::default());
    for at in [26usize, 28, 35, 72, 91] {
        let mut body = bytes[8..].to_vec();
        body[at] = 1;
        let mut input: &[u8] = &body;
        assert_eq!(MovieHeaderBox::decode(&mut input), Err(Error::Io(IoError::InvalidData)));
    }
}

#[test]
fn movie_header_cut_short_is_an_io_error() {
    let bytes = encoded(&MovieHeaderBox::default());
    for len in [0usize, 3, 4, 50, 99] {
        let mut input: &[u8] = &bytes[8..8 + len];
        assert_eq!(MovieHeaderBox::decode(&mut input), Err(Error::Io(IoError::UnexpectedEof)));
    }
    let body = movie_header_v1();
    let mut input: &[u8] = &body[..111];
    assert_eq!(MovieHeaderBox::decode(&mut input), Err(Error::Io(IoError::UnexpectedEof)));
}

#[test]
fn bytes_behind_a_fixed_layout_are_left() {
    let mut body = encoded(&MovieHeaderBox::default())[8..].to_vec();
    body.extend_from_slice(&[9, 9, 9]);
    let mut input: &[u8] = &body;
    assert_eq!(MovieHeaderBox::decode(&mut input).unwrap(), MovieHeaderBox::default());
    assert_eq!(input, &[9u8, 9, 9][..]);
}

#[test]
fn track_header_round_trip() {
    let value = TrackHeaderBox {
        enabled: true,
        in_movie: false,
        in_preview: true,
        creation_time: 1,
        modification_time: 2,
        track_id: 3,
        duration: 4,
        layer: 5,
        alternate_group: 6,
        volume: U8F8::from_bits(0x0100),
        matrix: Matrix::identity(),
        width: U16F16::from_int(640).unwrap(),
        height: U16F16::from_int(480).unwrap(),
    };
    let bytes = round_trip(&value, b"tkhd");
    assert_eq!(bytes.len(), 92);
    assert_eq!(&bytes[8..12], &[0, 0, 0, 5]);
    assert_eq!(&bytes[20..24], &[0, 0, 0, 3]);
    assert_eq!(&bytes[28..32], &[0, 0, 0, 4]);
    assert_eq!(&bytes[84..88], &[2, 0x80, 0, 0]);
    assert_eq!(&bytes[88..92], &[1, 0xe0, 0, 0]);
}

#[test]
fn track_header_flags() {
    for flags in 0u8..8 {
        let value = TrackHeaderBox {
            enabled: flags & 1 != 0,
            in_movie: flags & 2 != 0,
            in_preview: flags & 4 != 0,
            ..TrackHeaderBox::default()
        };
        let bytes = round_trip(&value, b"tkhd");
        assert_eq!(&bytes[8..12], &[0, 0, 0, flags]);
    }
}

#[test]
fn track_header_default() {
    let value = TrackHeaderBox::default();
    assert!(value.enabled && value.in_movie && value.in_preview);
    assert_eq!(value.track_id, 1);
    assert_eq!(value.volume.to_bits(), 0x0100);
    assert_eq!(value.matrix, Matrix::identity());
    assert_eq!(value.width.to_bits(), 0);
}

#[test]
fn track_header_version_one() {
    let mut body = vec![1u8, 0, 0, 3];
    body.extend_from_slice(&0x1_0000_0000u64.to_be_bytes());
    body.extend_from_slice(&5u64.to_be_bytes());
    body.extend_from_slice(&9u32.to_be_bytes());
    body.extend_from_slice(&[0; 4]);
    body.extend_from_slice(&0x7_0000_0000u64.to_be_bytes());
    body.extend_from_slice(&[0; 8]);
    body.extend_from_slice(&[0, 1, 0, 2, 1, 0, 0, 0]);
    body.extend_from_slice(&encoded(&Matrix::identity()));
    body.extend_from_slice(&[0, 100, 0, 0, 0, 50, 0, 0]);
    assert_eq!(body.len(), 96);
    let mut input: &[u8] = &body;
    let value = TrackHeaderBox::decode(&mut input).unwrap();
    assert!(value.enabled && value.in_movie && !value.in_preview);
    assert_eq!(value.creation_time, 0x1_0000_0000);
    assert_eq!(value.modification_time, 5);
    assert_eq!(value.track_id, 9);
    assert_eq!(value.duration, 0x7_0000_0000);
    assert_eq!(value.layer, 1);
    assert_eq!(value.alternate_group, 2);
    assert_eq!(value.width.int_part(), 100);
    assert_eq!(value.height.int_part(), 50);

    body[27] = 1;
    let mut input: &[u8] = &body;
    assert_eq!(TrackHeaderBox::decode(&mut input), Err(Error::Io(IoError::InvalidData)));
    body[27] = 0;
    body[0] = 9;
    let mut input: &[u8] = &body;
    assert_eq!(TrackHeaderBox::decode(&mut input), Err(Error::Io(IoError::InvalidData)));
    let mut input: &[u8] = &body[..95];
    assert_eq!(TrackHeaderBox::decode(&mut input), Err(Error::Io(IoError::InvalidData)));
}

#[test]
fn media_header_round_trip() {
    let value = MediaHeaderBox {
        creation_time: 1,
        modification_time: 2,
        timescale: 48000,
        duration: 96000,
        language: Language::from_code(*b"deu").unwrap(),
    };
    let bytes = round_trip(&value, b"mdhd");
    assert_eq!(bytes.len(), 32);
    assert_eq!(&bytes[28..30], &Language::from_code(*b"deu").unwrap().0.to_be_bytes());
    assert_eq!(&bytes[30..32], &[0, 0]);
    round_trip(&MediaHeaderBox::default(), b"mdhd");
}

#[test]
fn media_header_version_one() {
    let mut body = vec![1u8, 0, 0, 0];
    body.extend_from_slice(&0x1_0000_0000u64.to_be_bytes());
    body.extend_from_slice(&0x2_0000_0000u64.to_be_bytes());
    body.extend_from_slice(&90000u32.to_be_bytes());
    body.extend_from_slice(&0x3_0000_0000u64.to_be_bytes());
    body.extend_from_slice(&[0x15, 0xc7, 0, 0]);
    let mut input: &[u8] = &body;
    let value = MediaHeaderBox::decode(&mut input).unwrap();
    assert_eq!(value.creation_time, 0x1_0000_0000);
    assert_eq!(value.modification_time, 0x2_0000_0000);
    assert_eq!(value.timescale, 90000);
    assert_eq!(value.duration, 0x3_0000_0000);
    assert_eq!(&value.language.code(), b"eng");
    body[35] = 1;
    let mut input: &[u8] = &body;
    assert_eq!(MediaHeaderBox::decode(&mut input), Err(Error::Io(IoError::InvalidData)));
}

#[test]
fn handler_round_trip() {
    let value = HandlerBox {
        handler_type: FourCC::from_bytes(*b"vide"),
        name: "VideoHandler".to_string(),
    };
    let bytes = round_trip(&value, b"hdlr");
    assert_eq!(bytes.len(), 8 + 24 + 13);
    assert_eq!(&bytes[16..20], b"vide");
    assert_eq!(&bytes[32..], b"VideoHandler\0");
}

#[test]
fn handler_with_an_empty_name() {
    let value = HandlerBox { handler_type: FourCC::from_bytes(*b"soun"), name: String::new() };
    assert_eq!(round_trip(&value, b"hdlr").len(), 32);
}

#[test]
fn handler_faults() {
    let bytes = encoded(&HandlerBox {
        handler_type: FourCC::from_bytes(*b"vide"),
        name: "x".to_string(),
    });
    let body = &bytes[8..];
    let mut input: &[u8] = &body[..23];
    assert_eq!(HandlerBox::decode(&mut input), Err(Error::Io(IoError::UnexpectedEof)));
    for at in [0usize, 4, 12, 23] {
        let mut broken = body.to_vec();
        broken[at] = 1;
        let mut input: &[u8] = &broken;
        assert_eq!(HandlerBox::decode(&mut input), Err(Error::Io(IoError::InvalidData)));
    }
    let mut broken = body.to_vec();
    broken[24] = 0xff;
    let mut input: &[u8] = &broken;
    assert_eq!(HandlerBox::decode(&mut input), Err(Error::Io(IoError::InvalidData)));
}

#[test]
fn video_media_header_round_trip() {
    let value = VideoMediaHeaderBox { graphicsmode: 0x40, opcolor: [1, 2, 3] };
    let bytes = round_trip(&value, b"vmhd");
    assert_eq!(bytes, vec![0, 0, 0, 20, b'v', b'm', b'h', b'd', 0, 0, 0, 1, 0, 0x40, 0, 1, 0, 2, 0, 3]);
    assert_eq!(VideoMediaHeaderBox::default(), VideoMediaHeaderBox { graphicsmode: 0, opcolor: [0; 3] });
}

#[test]
fn sound_media_header_round_trip() {
    let value = SoundMediaHeaderBox { balance: U8F8::from_bits(0x0100) };
    let bytes = round_trip(&value, b"smhd");
    assert_eq!(bytes, vec![0, 0, 0, 16, b's', b'm', b'h', b'd', 0, 0, 0, 0, 1, 0, 0, 0]);
    let mut input: &[u8] = &[0, 0, 0, 0, 1, 0, 0, 1];
    assert_eq!(SoundMediaHeaderBox::decode(&mut input), Err(Error::Io(IoError::InvalidData)));
    let mut input: &[u8] = &[1, 0, 0, 0, 1, 0, 0, 0];
    assert_eq!(SoundMediaHeaderBox::decode(&mut input), Err(Error::Io(IoError::InvalidData)));
    let mut input: &[u8] = &[0, 0, 0, 0, 1, 0, 0];
    assert_eq!(SoundMediaHeaderBox::decode(&mut input), Err(Error::Io(IoError::UnexpectedEof)));
}

#[test]
fn url_entry_for_the_file_itself() {
    let value = DataEntryUrlBox::default();
    assert_eq!(value.location, None);
    let bytes = round_trip(&value, b"url ");
    assert_eq!(bytes, vec![0, 0, 0, 12, b'u', b'r', b'l', b' ', 0, 0, 0, 1]);
}

#[test]
fn url_entry_with_a_location() {
    let value = DataEntryUrlBox { location: Some("http://x/".to_string()) };
    let bytes = round_trip(&value, b"url ");
    assert_eq!(&bytes[8..12], &[0, 0, 0, 0]);
    assert_eq!(&bytes[12..], b"http://x/\0");
    round_trip(&DataEntryUrlBox { location: Some(String::new()) }, b"url ");
}

#[test]
fn urn_entry_round_trip() {
    let value = DataEntryUrnBox { name: "name".to_string(), location: "where".to_string() };
    let bytes = round_trip(&value, b"urn ");
    assert_eq!(&bytes[12..], b"name\0where\0");
    round_trip(&DataEntryUrnBox { name: "name".to_string(), location: String::new() }, b"urn ");
    round_trip(&DataEntryUrnBox { name: String::new(), location: String::new() }, b"urn ");
}

#[test]
fn urn_entry_with_a_location_behind_an_empty_name_does_not_round_trip() {
    let value = DataEntryUrnBox { name: String::new(), location: "where".to_string() };
    let bytes = encoded(&value);
    let mut body: &[u8] = &bytes[8..];
    let decoded = DataEntryUrnBox::decode(&mut body).unwrap();
    assert_eq!(decoded, DataEntryUrnBox { name: "where".to_string(), location: String::new() });
}

#[test]
fn data_reference_round_trip() {
    let value = DataReferenceBox(vec![
        DataEntry::Url(DataEntryUrlBox { location: None }),
        DataEntry::Urn(DataEntryUrnBox { name: "n".to_string(), location: "l".to_string() }),
        DataEntry::Url(DataEntryUrlBox { location: Some("u".to_string()) }),
    ]);
    let bytes = round_trip(&value, b"dref");
    assert_eq!(&bytes[8..16], &[0, 0, 0, 0, 0, 0, 0, 3]);
    assert_eq!(DataReferenceBox::default(), DataReferenceBox(vec![DataEntry::Url(DataEntryUrlBox::default())]));
    round_trip(&DataReferenceBox(vec![]), b"dref");
}

#[test]
fn data_reference_passes_over_entries_of_other_types() {
    let mut body = vec![0u8, 0, 0, 0, 0, 0, 0, 2];
    body.extend_from_slice(&[0, 0, 0, 10, b'x', b'y', b'z', b' ', 7, 7]);
    body.extend_from_slice(&[0, 0, 0, 12, b'u', b'r', b'l', b' ', 0, 0, 0, 1]);
    body.extend_from_slice(&[5, 5]);
    let mut input: &[u8] = &body;
    let value = DataReferenceBox::decode(&mut input).unwrap();
    assert_eq!(value, DataReferenceBox::default());
    assert_eq!(input, &[5u8, 5][..]);
}

#[test]
fn data_reference_faults() {
    let mut input: &[u8] = &[0, 0, 0, 0, 0, 0, 0, 1];
    assert_eq!(DataReferenceBox::decode(&mut input), Err(Error::Io(IoError::UnexpectedEof)));
    let mut input: &[u8] = &[0, 0, 0, 0, 0, 0, 0, 1, 0, 0, 0, 7, b'u', b'r', b'l', b' '];
    assert_eq!(DataReferenceBox::decode(&mut input), Err(Error::Io(IoError::InvalidData)));
    let mut input: &[u8] = &[0, 0, 0, 0, 0, 0, 0, 1, 0, 0, 0, 9, b'u', b'r', b'l', b' '];
    assert_eq!(DataReferenceBox::decode(&mut input), Err(Error::Io(IoError::UnexpectedEof)));
    let mut input: &[u8] = &[0, 0, 0, 0, 0, 0, 0, 1, 0, 0, 0, 8, b'u', b'r', b'l', b' '];
    assert_eq!(DataReferenceBox::decode(&mut input), Err(Error::Io(IoError::UnexpectedEof)));
    let mut input: &[u8] = &[2, 0, 0, 0, 0, 0, 0, 0];
    assert_eq!(DataReferenceBox::decode(&mut input), Err(Error::Io(IoError::InvalidData)));
}

#[test]
fn data_information_round_trip() {
    let value = DataInformationBox::default();
    let bytes = round_trip(&value, b"dinf");
    assert_eq!(bytes.len(), 8 + 16 + 12);
}

#[test]
fn time_to_sample_round_trip() {
    let value = TimeToSampleBox(vec![
        TimeToSampleEntry { sample_count: 3, sample_delta: 33 },
        TimeToSampleEntry { sample_count: 2, sample_delta: 50 },
    ]);
    let bytes = round_trip(&value, b"stts");
    assert_eq!(
        &bytes[8..],
        &[0, 0, 0, 0, 0, 0, 0, 2, 0, 0, 0, 3, 0, 0, 0, 33, 0, 0, 0, 2, 0, 0, 0, 50]
    );
    round_trip(&TimeToSampleBox(vec![]), b"stts");
}

#[test]
fn table_order_is_kept() {
    let entries: Vec<u32> = vec![9, 1, 8, 2, 7, 3];
    let bytes = round_trip(&ChunkOffsetBox(entries.clone()), b"stco");
    for (i, entry) in entries.iter().enumerate() {
        assert_eq!(&bytes[16 + 4 * i..20 + 4 * i], &entry.to_be_bytes());
    }
    round_trip(&SyncSampleBox(entries), b"stss");
}

#[test]
fn table_faults() {
    let mut input: &[u8] = &[0, 0, 0, 0, 0, 0, 0, 2, 0, 0, 0, 1];
    assert_eq!(SyncSampleBox::decode(&mut input), Err(Error::Io(IoError::UnexpectedEof)));
    let mut input: &[u8] = &[0, 0, 0, 0, 0xff, 0xff, 0xff, 0xff, 0, 0, 0, 1];
    assert_eq!(TimeToSampleBox::decode(&mut input), Err(Error::Io(IoError::UnexpectedEof)));
    let mut input: &[u8] = &[1, 0, 0, 0, 0, 0, 0, 0];
    assert_eq!(ChunkOffsetBox::decode(&mut input), Err(Error::Io(IoError::InvalidData)));
    let mut input: &[u8] = &[0, 0, 0, 0, 0, 0];
    assert_eq!(SampleToChunkBox::decode(&mut input), Err(Error::Io(IoError::UnexpectedEof)));
    let mut input: &[u8] = &[0, 0, 0, 0, 0, 0, 0, 1, 0, 0, 0, 5, 9];
    assert_eq!(SyncSampleBox::decode(&mut input).unwrap(), SyncSampleBox(vec![5]));
    assert_eq!(input, &[9u8][..]);
}

#[test]
fn sample_to_chunk_round_trip() {
    let value = SampleToChunkBox(vec![
        SampleToChunkEntry { first_chunk: 1, samples_per_chunk: 31, sample_description_index: 1 },
        SampleToChunkEntry { first_chunk: 2, samples_per_chunk: 9, sample_description_index: 1 },
    ]);
    let bytes = round_trip(&value, b"stsc");
    assert_eq!(bytes.len(), 16 + 24);
    assert_eq!(&bytes[16..28], &[0, 0, 0, 1, 0, 0, 0, 31, 0, 0, 0, 1]);
}

#[test]
fn sample_to_group_round_trip() {
    let value = SampleToGroupBox(
        FourCC::from_bytes(*b"roll"),
        vec![
            SampleToGroupEntry { sample_count: 4, group_description_index: 0 },
            SampleToGroupEntry { sample_count: 1, group_description_index: 1 },
        ],
    );
    let bytes = round_trip(&value, b"sbgp");
    assert_eq!(&bytes[12..16], b"roll");
    assert_eq!(&bytes[16..20], &[0, 0, 0, 2]);
    let mut input: &[u8] = &bytes[8..bytes.len() - 1];
    assert_eq!(SampleToGroupBox::decode(&mut input), Err(Error::Io(IoError::UnexpectedEof)));
}

#[test]
fn sample_size_with_one_size_for_all() {
    let value = SampleSizeBox::Value { sample_size: 512, sample_count: 40 };
    let bytes = round_trip(&value, b"stsz");
    assert_eq!(&bytes[8..], &[0, 0, 0, 0, 0, 0, 2, 0, 0, 0, 0, 40]);
}

#[test]
fn sample_size_of_each_sample() {
    let value = SampleSizeBox::PerSample(vec![1, 2, 3]);
    let bytes = round_trip(&value, b"stsz");
    assert_eq!(
        &bytes[8..],
        &[0, 0, 0, 0, 0, 0, 0, 0, 0, 0, 0, 3, 0, 0, 0, 1, 0, 0, 0, 2, 0, 0, 0, 3]
    );
    round_trip(&SampleSizeBox::PerSample(vec![]), b"stsz");
    round_trip(&SampleSizeBox::PerSample(vec![7, 7]), b"stsz");
}

#[test]
fn sample_size_variant_is_chosen_by_the_size_field() {
    let mut input: &[u8] = &[0, 0, 0, 0, 0, 0, 0, 9, 0, 0, 0, 2, 1, 1, 1, 1];
    assert_eq!(
        SampleSizeBox::decode(&mut input).unwrap(),
        SampleSizeBox::Value { sample_size: 9, sample_count: 2 }
    );
    assert_eq!(input.len(), 4);
    let mut input: &[u8] = &[0, 0, 0, 0, 0, 0, 0, 0, 0, 0, 0, 1, 0, 0, 0, 5];
    assert_eq!(SampleSizeBox::decode(&mut input).unwrap(), SampleSizeBox::PerSample(vec![5]));
    let mut input: &[u8] = &[0, 0, 0, 0, 0, 0, 0, 0, 0, 0, 0, 2, 0, 0, 0, 5];
    assert_eq!(SampleSizeBox::decode(&mut input), Err(Error::Io(IoError::UnexpectedEof)));
}

#[test]
fn one_size_of_zero_does_not_round_trip() {
    let bytes = encoded(&SampleSizeBox::Value { sample_size: 0, sample_count: 0 });
    let mut body: &[u8] = &bytes[8..];
    assert_eq!(SampleSizeBox::decode(&mut body).unwrap(), SampleSizeBox::PerSample(vec![]));
}

#[test]
fn sizes_in_their_shortest_form() {
    assert_eq!(
        SampleSizeBox::from_sizes(vec![7, 7, 7]),
        SampleSizeBox::Value { sample_size: 7, sample_count: 3 }
    );
    assert_eq!(
        SampleSizeBox::from_sizes(vec![7]),
        SampleSizeBox::Value { sample_size: 7, sample_count: 1 }
    );
    assert_eq!(SampleSizeBox::from_sizes(vec![7, 7, 8]), SampleSizeBox::PerSample(vec![7, 7, 8]));
    assert_eq!(SampleSizeBox::from_sizes(vec![8, 7, 7]), SampleSizeBox::PerSample(vec![8, 7, 7]));
    assert_eq!(SampleSizeBox::from_sizes(vec![0, 0]), SampleSizeBox::PerSample(vec![0, 0]));
    assert_eq!(SampleSizeBox::from_sizes(vec![]), SampleSizeBox::PerSample(vec![]));
}

#[test]
fn visual_sample_entry_round_trip() {
    let value = visual();
    let bytes = encoded(&value);
    assert_eq!(bytes.len(), 78 + 12);
    assert_eq!(value.size(), 90);
    assert_eq!(&bytes[0..8], &[0, 0, 0, 0, 0, 0, 0, 1]);
    assert_eq!(&bytes[24..28], &[7, 0x80, 4, 0x38]);
    assert_eq!(&bytes[42..47], b"\x04test");
    assert_eq!(&bytes[74..78], &[0, 24, 0xff, 0xff]);
    assert_eq!(&bytes[78..], &value.config[..]);
    let mut input: &[u8] = &bytes;
    assert_eq!(VisualSampleEntry::decode(&mut input).unwrap(), value);
    assert!(input.is_empty());
}

#[test]
fn visual_sample_entry_faults() {
    let bytes = encoded(&visual());
    let mut input: &[u8] = &bytes[..77];
    assert_eq!(VisualSampleEntry::decode(&mut input), Err(Error::Io(IoError::UnexpectedEof)));
    for at in [0usize, 5, 9, 11, 15, 19, 23, 39, 76] {
        let mut broken = bytes.clone();
        broken[at] = 1;
        let mut input: &[u8] = &broken;
        assert_eq!(VisualSampleEntry::decode(&mut input), Err(Error::Io(IoError::InvalidData)));
    }
}

#[test]
fn audio_sample_entry_round_trip() {
    let value = audio();
    let bytes = encoded(&value);
    assert_eq!(bytes.len(), 31);
    assert_eq!(&bytes[16..20], &[0, 2, 0, 16]);
    assert_eq!(&bytes[24..28], &[0xbb, 0x80, 0, 0]);
    let mut input: &[u8] = &bytes;
    assert_eq!(AudioSampleEntry::decode(&mut input).unwrap(), value);
    let mut broken = bytes.clone();
    broken[21] = 1;
    let mut input: &[u8] = &broken;
    assert_eq!(AudioSampleEntry::decode(&mut input), Err(Error::Io(IoError::InvalidData)));
    let mut input: &[u8] = &bytes[..27];
    assert_eq!(AudioSampleEntry::decode(&mut input), Err(Error::Io(IoError::UnexpectedEof)));
}

#[test]
fn sample_entries_round_trip() {
    round_trip(&AV1SampleEntry { base: visual() }, b"av01");
    round_trip(&AVCSampleEntry { base: visual() }, b"avc1");
    round_trip(&AACSampleEntry { base: audio() }, b"mp4a");
}

#[test]
fn sample_description_round_trip() {
    let bytes = round_trip(&SampleDescriptionBox::AV1(AV1SampleEntry { base: visual() }), b"stsd");
    assert_eq!(&bytes[8..16], &[0, 0, 0, 0, 0, 0, 0, 1]);
    assert_eq!(&bytes[16..24], &[0, 0, 0, 98, b'a', b'v', b'0', b'1']);
    let bytes = round_trip(&SampleDescriptionBox::AVC(AVCSampleEntry { base: visual() }), b"stsd");
    assert_eq!(&bytes[20..24], b"avc1");
    let bytes = round_trip(&SampleDescriptionBox::AAC(AACSampleEntry { base: audio() }), b"stsd");
    assert_eq!(&bytes[20..24], b"mp4a");
}

#[test]
fn sample_description_faults() {
    let bytes = encoded(&SampleDescriptionBox::AAC(AACSampleEntry { base: audio() }));
    let body = &bytes[8..];
    let decode = |body: &[u8]| {
        let mut input: &[u8] = body;
        SampleDescriptionBox::decode(&mut input)
    };
    assert_eq!(decode(&body[..3]), Err(Error::Io(IoError::UnexpectedEof)));
    assert_eq!(decode(&body[..15]), Err(Error::Io(IoError::UnexpectedEof)));
    assert_eq!(decode(&body[..body.len() - 1]), Err(Error::Io(IoError::UnexpectedEof)));
    let mut broken = body.to_vec();
    broken[7] = 2;
    assert_eq!(decode(&broken), Err(Error::Io(IoError::InvalidData)));
    let mut broken = body.to_vec();
    broken[7] = 0;
    assert_eq!(decode(&broken), Err(Error::Io(IoError::InvalidData)));
    let mut broken = body.to_vec();
    broken[12] = b'x';
    assert_eq!(decode(&broken), Err(Error::Io(IoError::InvalidData)));
    let mut broken = body.to_vec();
    broken[11] = 7;
    assert_eq!(decode(&broken), Err(Error::Io(IoError::InvalidData)));
    let mut broken = body.to_vec();
    broken[0] = 1;
    assert_eq!(decode(&broken), Err(Error::Io(IoError::InvalidData)));
}

#[test]
fn edit_list_round_trip() {
    let value = EditListBox(vec![
        EditListEntry { segment_duration: 100, media_time: 0, media_rate: U16F16::from_int(1).unwrap() },
        EditListEntry { segment_duration: 50, media_time: 0xffff_ffff, media_rate: U16F16::from_bits(0x8000) },
    ]);
    let bytes = round_trip(&value, b"elst");
    assert_eq!(bytes.len(), 16 + 24);
    assert_eq!(&bytes[16..28], &[0, 0, 0, 100, 0, 0, 0, 0, 0, 1, 0, 0]);
    round_trip(&EditBox { edit_list: Some(value) }, b"edts");
    assert_eq!(round_trip(&EditBox { edit_list: None }, b"edts").len(), 8);
}

#[test]
fn edit_list_version_one() {
    let mut body = vec![1u8, 0, 0, 0, 0, 0, 0, 1];
    body.extend_from_slice(&0x1_0000_0000u64.to_be_bytes());
    body.extend_from_slice(&0x2_0000_0000u64.to_be_bytes());
    body.extend_from_slice(&0x0001_0000u32.to_be_bytes());
    let mut input: &[u8] = &body;
    let value = EditListBox::decode(&mut input).unwrap();
    assert!(input.is_empty());
    assert_eq!(
        value,
        EditListBox(vec![EditListEntry {
            segment_duration: 0x1_0000_0000,
            media_time: 0x2_0000_0000,
            media_rate: U16F16::from_int(1).unwrap(),
        }])
    );
    let mut input: &[u8] = &body[..27];
    assert_eq!(EditListBox::decode(&mut input), Err(Error::Io(IoError::UnexpectedEof)));
    body[0] = 2;
    let mut input: &[u8] = &body;
    assert_eq!(EditListBox::decode(&mut input), Err(Error::Io(IoError::InvalidData)));
}

#[test]
fn sample_table_round_trip() {
    let value = sample_table();
    let bytes = round_trip(&value, b"stbl");
    let order: Vec<&[u8; 4]> = vec![b"stsd", b"stts", b"stss", b"stsz", b"stsc", b"stco", b"sbgp"];
    let mut at = 8;
    for tag in order {
        assert_eq!(&bytes[at + 4..at + 8], tag);
        at += u32::from_be_bytes(bytes[at..at + 4].try_into().unwrap()) as usize;
    }
    assert_eq!(at, bytes.len());
    let mut plain = value.clone();
    plain.sync_sample = None;
    plain.sample_to_group = None;
    round_trip(&plain, b"stbl");
}

#[test]
fn media_information_round_trip() {
    round_trip(&media().information, b"minf");
    let mut sound = media().information;
    sound.header = MediaInformationHeader::Sound(SoundMediaHeaderBox { balance: U8F8::from_bits(0) });
    sound.sample_table.description = SampleDescriptionBox::AAC(AACSampleEntry { base: audio() });
    round_trip(&sound, b"minf");
}

#[test]
fn media_round_trip() {
    round_trip(&media(), b"mdia");
}

#[test]
fn track_round_trip() {
    round_trip(&track(), b"trak");
    let mut plain = track();
    plain.edit = None;
    round_trip(&plain, b"trak");
}

#[test]
fn movie_round_trip() {
    round_trip(&movie(), b"moov");
    let mut two = movie();
    let mut second = track();
    second.header.track_id = 2;
    two.tracks.push(second);
    round_trip(&two, b"moov");
}

#[test]
fn file_round_trip() {
    let value = File {
        file_type: FileTypeBox {
            major_brand: FourCC::from_bytes(*b"isom"),
            minor_version: 512,
            compatible_brands: vec![FourCC::from_bytes(*b"isom")],
        },
        movie: movie(),
        media_data: vec![MediaDataBox(vec![1, 2, 3]), MediaDataBox(vec![4])],
    };
    let bytes = encoded(&value);
    assert_eq!(value.size(), bytes.len() as u64);
    assert_eq!(&bytes[4..8], b"ftyp");
    assert_eq!(&bytes[20..28], &[0, 0, 0, 8, b'f', b'r', b'e', b'e']);
    assert_eq!(&bytes[28..39], &[0, 0, 0, 11, b'm', b'd', b'a', b't', 1, 2, 3]);
    assert_eq!(&bytes[39..48], &[0, 0, 0, 9, b'm', b'd', b'a', b't', 4]);
    assert_eq!(&bytes[52..56], b"moov");
    let mut input: &[u8] = &bytes;
    let decoded = File::decode(&mut input).unwrap();
    assert!(input.is_empty());
    assert_eq!(decoded, value);
    assert_eq!(encoded(&decoded), bytes);
}

#[test]
fn encoding_appends_to_what_the_output_holds() {
    let mut out = vec![1u8, 2, 3];
    MediaDataBox(vec![9]).encode(&mut out).unwrap();
    assert_eq!(out, vec![1, 2, 3, 0, 0, 0, 9, b'm', b'd', b'a', b't', 9]);
}

#[test]
fn a_handler_name_without_terminator_goes_to_the_end_of_the_box() {
    let bytes = encoded(&HandlerBox {
        handler_type: FourCC::from_bytes(*b"vide"),
        name: "name".to_string(),
    });
    let mut input: &[u8] = &bytes[8..bytes.len() - 1];
    let decoded = HandlerBox::decode(&mut input).unwrap();
    assert_eq!(decoded.name, "name");
    assert!(input.is_empty());
}

#[test]
fn what_shares_its_bytes_with_another_value_is_written_again_as_it_was() {
    let urn = DataEntryUrnBox { name: String::new(), location: "where".to_string() };
    let bytes = encoded(&urn);
    let mut body: &[u8] = &bytes[8..];
    let decoded = DataEntryUrnBox::decode(&mut body).unwrap();
    assert_ne!(decoded, urn);
    assert_eq!(encoded(&decoded), bytes);

    let sizes = SampleSizeBox::Value { sample_size: 0, sample_count: 0 };
    let bytes = encoded(&sizes);
    let mut body: &[u8] = &bytes[8..];
    let decoded = SampleSizeBox::decode(&mut body).unwrap();
    assert_eq!(decoded, SampleSizeBox::PerSample(vec![]));
    assert_eq!(encoded(&decoded), bytes);

    let mut file = File {
        file_type: FileTypeBox {
            major_brand: FourCC::from_bytes(*b"isom"),
            minor_version: 0,
            compatible_brands: vec![],
        },
        movie: movie(),
        media_data: vec![],
    };
    let track = &mut file.movie.tracks[0];
    track.header.creation_time = 1 << 40;
    track.media.header.duration = 1 << 33;
    track.media.information.data_information.reference.0.push(DataEntry::Urn(urn));
    track.media.information.sample_table.sample_size = sizes;
    file.movie.header.duration = u64::MAX;
    let bytes = encoded(&file);
    let mut input: &[u8] = &bytes;
    let decoded = File::decode(&mut input).unwrap();
    assert!(input.is_empty());
    assert_ne!(decoded, file);
    assert_eq!(decoded.movie.header.duration, u64::MAX);
    assert_eq!(decoded.movie.tracks[0].header.creation_time, 1 << 40);
    assert_eq!(decoded.movie.tracks[0].media.header.duration, 1 << 33);
    assert_eq!(encoded(&decoded), bytes);
}
