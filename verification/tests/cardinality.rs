use mp4::bytes::{Decode, Encode};
use mp4::data::{DataInformationBox, DataReferenceBox};
use mp4::error::{Error, IoError};
use mp4::file::{File, FileTypeBox, MediaDataBox};
use mp4::fixed_point::U16F16;
use mp4::fourcc::{FourCC, Language};
use mp4::media::{
    HandlerBox, MediaBox, MediaHeaderBox, MediaInformationBox, MediaInformationHeader,
    SoundMediaHeaderBox, VideoMediaHeaderBox,
};
use mp4::movie::{MovieBox, MovieHeaderBox};
use mp4::sample_entry::{AACSampleEntry, AudioSampleEntry, SampleDescriptionBox};
use mp4::sample_table::{
    ChunkOffsetBox, SampleSizeBox, SampleTableBox, SampleToChunkBox, SyncSampleBox, TimeToSampleBox,
};
use mp4::track::{EditBox, TrackBox, TrackHeaderBox};

fn encoded<T: Encode>(value: &T) -> Vec<u8> {
    let mut out = Vec::new();
    value.encode(&mut out).unwrap();
    out
}

fn boxed(tag: &[u8; 4], body: &[u8]) -> Vec<u8> {
    let mut out = ((body.len() + 8) as u32).to_be_bytes().to_vec();
    out.extend_from_slice(tag);
    out.extend_from_slice(body);
    out
}

fn decode<T: Decode>(body: &[u8]) -> Result<T, Error> {
    let mut input: &[u8] = body;
    T::decode(&mut input)
}

fn quantity(tag: &[u8; 4], quantity: usize, expected: usize) -> Error {
    Error::InvalidBoxQuantity { box_type: FourCC::from_bytes(*tag), quantity, expected }
}

fn sample_table() -> SampleTableBox {
    SampleTableBox {
        description: SampleDescriptionBox::AAC(AACSampleEntry {
            base: AudioSampleEntry {
                data_reference_index: 1,
                channelcount: 2,
                samplesize: 16,
                samplerate: U16F16::from_bits(44100 << 16),
                config: vec![],
            },
        }),
        time_to_sample: TimeToSampleBox(vec![]),
        sync_sample: None,
        sample_size: SampleSizeBox::PerSample(vec![]),
        sample_to_chunk: SampleToChunkBox(vec![]),
        chunk_offset: ChunkOffsetBox(vec![]),
        sample_to_group: None,
    }
}

fn information() -> MediaInformationBox {
    MediaInformationBox {
        header: MediaInformationHeader::Sound(SoundMediaHeaderBox { balance: mp4::fixed_point::U8F8::from_bits(0) }),
        data_information: DataInformationBox::default(),
        sample_table: sample_table(),
    }
}

fn media() -> MediaBox {
    MediaBox {
        header: MediaHeaderBox { language: Language::from_code(*b"und").unwrap(), ..MediaHeaderBox::default() },
        handler: HandlerBox { handler_type: FourCC::from_bytes(*b"soun"), name: "SoundHandler".to_string() },
        information: information(),
    }
}

fn track() -> TrackBox {
    TrackBox { header: TrackHeaderBox::default(), media: media(), edit: None }
}

fn movie() -> MovieBox {
    MovieBox { header: MovieHeaderBox::default(), tracks: vec![track()] }
}

#[test]
fn a_movie_without_a_track_is_refused() {
    let body = encoded(&MovieHeaderBox::default());
    assert_eq!(decode::<MovieBox>(&body), Err(quantity(b"trak", 0, 1)));
}

#[test]
fn a_movie_with_two_headers_is_refused() {
    let header = encoded(&MovieHeaderBox::default());
    let body = [header.clone(), header, encoded(&track())].concat();
    assert_eq!(decode::<MovieBox>(&body), Err(quantity(b"mvhd", 2, 1)));
}

#[test]
fn a_movie_without_a_header_is_refused() {
    let body = encoded(&track());
    assert_eq!(decode::<MovieBox>(&body), Err(quantity(b"mvhd", 0, 1)));
    assert_eq!(decode::<MovieBox>(&[]), Err(quantity(b"mvhd", 0, 1)));
}

#[test]
fn a_child_of_an_unknown_type_is_passed_over() {
    let body = [
        boxed(b"udta", &[1, 2, 3]),
        encoded(&MovieHeaderBox::default()),
        boxed(b"zzzz", &[]),
        encoded(&track()),
        boxed(b"meta", &[0xff; 9]),
    ]
    .concat();
    assert_eq!(decode::<MovieBox>(&body), Ok(movie()));
}

#[test]
fn children_are_found_in_any_order() {
    let body = [encoded(&track()), encoded(&MovieHeaderBox::default())].concat();
    assert_eq!(decode::<MovieBox>(&body), Ok(movie()));
    let t = track();
    let body = [encoded(&t.media), encoded(&t.header)].concat();
    assert_eq!(decode::<TrackBox>(&body), Ok(t));
}

#[test]
fn tracks_keep_their_order() {
    let mut first = track();
    first.header.track_id = 7;
    let mut second = track();
    second.header.track_id = 3;
    let body = [encoded(&first), encoded(&MovieHeaderBox::default()), encoded(&second)].concat();
    let decoded = decode::<MovieBox>(&body).unwrap();
    assert_eq!(decoded.tracks, vec![first, second]);
}

#[test]
fn a_track_needs_header_and_media_once() {
    let t = track();
    let header = encoded(&t.header);
    let media = encoded(&t.media);
    let edit = encoded(&EditBox { edit_list: None });
    assert_eq!(decode::<TrackBox>(&media), Err(quantity(b"tkhd", 0, 1)));
    assert_eq!(decode::<TrackBox>(&header), Err(quantity(b"mdia", 0, 1)));
    assert_eq!(
        decode::<TrackBox>(&[header.clone(), header.clone(), media.clone()].concat()),
        Err(quantity(b"tkhd", 2, 1))
    );
    assert_eq!(
        decode::<TrackBox>(&[header.clone(), media.clone(), media.clone()].concat()),
        Err(quantity(b"mdia", 2, 1))
    );
    assert_eq!(
        decode::<TrackBox>(&[header.clone(), media.clone(), edit.clone(), edit.clone()].concat()),
        Err(quantity(b"edts", 2, 1))
    );
    let with_edit = decode::<TrackBox>(&[header, media, edit].concat()).unwrap();
    assert_eq!(with_edit.edit, Some(EditBox { edit_list: None }));
}

#[test]
fn media_information_needs_exactly_one_header() {
    let i = information();
    let video = encoded(&VideoMediaHeaderBox::default());
    let sound = encoded(&SoundMediaHeaderBox { balance: mp4::fixed_point::U8F8::from_bits(0) });
    let rest = [encoded(&i.data_information), encoded(&i.sample_table)].concat();
    assert_eq!(decode::<MediaInformationBox>(&rest), Err(quantity(b"vmhd", 0, 1)));
    assert_eq!(
        decode::<MediaInformationBox>(&[video.clone(), sound.clone(), rest.clone()].concat()),
        Err(quantity(b"smhd", 1, 0))
    );
    assert_eq!(
        decode::<MediaInformationBox>(&[video.clone(), video.clone(), rest.clone()].concat()),
        Err(quantity(b"vmhd", 2, 1))
    );
    assert_eq!(
        decode::<MediaInformationBox>(&[sound.clone(), sound.clone(), rest.clone()].concat()),
        Err(quantity(b"smhd", 2, 1))
    );
    assert_eq!(decode::<MediaInformationBox>(&[sound, rest.clone()].concat()), Ok(i));
    let decoded = decode::<MediaInformationBox>(&[rest, video].concat()).unwrap();
    assert_eq!(decoded.header, MediaInformationHeader::Video(VideoMediaHeaderBox::default()));
}

#[test]
fn media_needs_its_three_children() {
    let m = media();
    let parts = [encoded(&m.header), encoded(&m.handler), encoded(&m.information)];
    let tags: [&[u8; 4]; 3] = [b"mdhd", b"hdlr", b"minf"];
    for missing in 0..3 {
        let body: Vec<u8> =
            (0..3).filter(|i| *i != missing).flat_map(|i| parts[i].clone()).collect();
        assert_eq!(decode::<MediaBox>(&body), Err(quantity(tags[missing], 0, 1)));
    }
    for twice in 0..3 {
        let body = [parts.concat(), parts[twice].clone()].concat();
        assert_eq!(decode::<MediaBox>(&body), Err(quantity(tags[twice], 2, 1)));
    }
    assert_eq!(decode::<MediaBox>(&parts.concat()), Ok(m));
}

#[test]
fn sample_table_needs_its_five_tables() {
    let t = sample_table();
    let parts = [
        encoded(&t.description),
        encoded(&t.time_to_sample),
        encoded(&t.sample_size),
        encoded(&t.sample_to_chunk),
        encoded(&t.chunk_offset),
    ];
    let tags: [&[u8; 4]; 5] = [b"stsd", b"stts", b"stsz", b"stsc", b"stco"];
    for missing in 0..5 {
        let body: Vec<u8> =
            (0..5).filter(|i| *i != missing).flat_map(|i| parts[i].clone()).collect();
        assert_eq!(decode::<SampleTableBox>(&body), Err(quantity(tags[missing], 0, 1)));
    }
    for twice in 0..5 {
        let body = [parts.concat(), parts[twice].clone()].concat();
        assert_eq!(decode::<SampleTableBox>(&body), Err(quantity(tags[twice], 2, 1)));
    }
    let sync = encoded(&SyncSampleBox(vec![]));
    let body = [parts.concat(), sync.clone(), sync.clone()].concat();
    assert_eq!(decode::<SampleTableBox>(&body), Err(quantity(b"stss", 2, 1)));
    let decoded = decode::<SampleTableBox>(&[parts.concat(), sync].concat()).unwrap();
    assert_eq!(decoded.sync_sample, Some(SyncSampleBox(vec![])));
    assert_eq!(decode::<SampleTableBox>(&parts.concat()), Ok(t));
}

#[test]
fn of_several_faults_the_one_of_the_first_named_child_is_reported() {
    let t = sample_table();
    let body = [encoded(&t.sample_size), encoded(&t.sample_size)].concat();
    assert_eq!(decode::<SampleTableBox>(&body), Err(quantity(b"stsd", 0, 1)));
}

#[test]
fn data_information_needs_a_reference() {
    assert_eq!(decode::<DataInformationBox>(&[]), Err(quantity(b"dref", 0, 1)));
    let reference = encoded(&DataReferenceBox::default());
    assert_eq!(
        decode::<DataInformationBox>(&[reference.clone(), reference].concat()),
        Err(quantity(b"dref", 2, 1))
    );
}

#[test]
fn an_edit_box_may_be_empty() {
    assert_eq!(decode::<EditBox>(&[]), Ok(EditBox { edit_list: None }));
    assert_eq!(decode::<EditBox>(&boxed(b"free", &[])), Ok(EditBox { edit_list: None }));
}

#[test]
fn a_file_needs_type_and_movie() {
    let file_type = FileTypeBox {
        major_brand: FourCC::from_bytes(*b"isom"),
        minor_version: 0,
        compatible_brands: vec![],
    };
    let ftyp = encoded(&file_type);
    let moov = encoded(&movie());
    assert_eq!(decode::<File>(&moov), Err(quantity(b"ftyp", 0, 1)));
    assert_eq!(decode::<File>(&ftyp), Err(quantity(b"moov", 0, 1)));
    assert_eq!(
        decode::<File>(&[ftyp.clone(), moov.clone(), moov.clone()].concat()),
        Err(quantity(b"moov", 2, 1))
    );
    let body = [
        ftyp,
        boxed(b"mdat", &[1]),
        boxed(b"skip", &[0; 5]),
        moov,
        boxed(b"mdat", &[2, 3]),
        boxed(b"meta", &[]),
    ]
    .concat();
    let file = decode::<File>(&body).unwrap();
    assert_eq!(file.file_type, file_type);
    assert_eq!(file.movie, movie());
    assert_eq!(file.media_data, vec![MediaDataBox(vec![1]), MediaDataBox(vec![2, 3])]);
}

#[test]
fn a_box_that_runs_past_the_end_is_cut_short() {
    let mut body = encoded(&movie().header);
    body.extend_from_slice(&[0, 0, 0, 20, b't', b'r', b'a', b'k', 1, 2]);
    assert_eq!(decode::<MovieBox>(&body), Err(Error::Io(IoError::UnexpectedEof)));
    let mut body = encoded(&movie().header);
    body.extend_from_slice(&[0, 0, 0]);
    assert_eq!(decode::<MovieBox>(&body), Err(Error::Io(IoError::UnexpectedEof)));
}

#[test]
fn a_box_size_below_eight_is_malformed() {
    let mut body = encoded(&movie().header);
    body.extend_from_slice(&[0, 0, 0, 7, b't', b'r', b'a', b'k']);
    assert_eq!(decode::<MovieBox>(&body), Err(Error::Io(IoError::InvalidData)));
    assert_eq!(
        decode::<MovieBox>(&[0, 0, 0, 0, b'm', b'v', b'h', b'd']),
        Err(Error::Io(IoError::InvalidData))
    );
}

#[test]
fn a_fault_in_a_child_fails_the_parent() {
    let mut track = encoded(&track());
    let at = track.windows(4).position(|w| w == b"mdhd").unwrap() + 4;
    track[at] = 5;
    let body = [encoded(&MovieHeaderBox::default()), track].concat();
    assert_eq!(decode::<MovieBox>(&body), Err(Error::Io(IoError::InvalidData)));
    let file = [
        encoded(&FileTypeBox {
            major_brand: FourCC::from_bytes(*b"isom"),
            minor_version: 0,
            compatible_brands: vec![],
        }),
        boxed(b"moov", &body),
    ]
    .concat();
    assert_eq!(decode::<File>(&file), Err(Error::Io(IoError::InvalidData)));
}

#[test]
fn a_failed_decode_leaves_the_input_where_it_was() {
    let body = encoded(&MovieHeaderBox::default());
    let mut input: &[u8] = &body;
    assert!(MovieBox::decode(&mut input).is_err());
    assert_eq!(input.len(), body.len());
}
