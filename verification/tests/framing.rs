use mp4::bytes::{Decode, Encode, Framing};
use mp4::data::{DataEntry, DataEntryUrlBox, DataEntryUrnBox, DataInformationBox, DataReferenceBox};
use mp4::error::{Error, IoError};
use mp4::file::{File, FileTypeBox, MediaDataBox};
use mp4::fixed_point::{U16F16, U8F8};
use mp4::fourcc::{FourCC, Language};
use mp4::framing::{encode_sized_box_header, split, BoxRef};
use mp4::media::{
    HandlerBox, MediaBox, MediaHeaderBox, MediaInformationBox, MediaInformationHeader,
    VideoMediaHeaderBox,
};
use mp4::movie::{MovieBox, MovieHeaderBox};
use mp4::sample_entry::{AVCSampleEntry, SampleDescriptionBox, VisualSampleEntry};
use mp4::sample_table::{
    ChunkOffsetBox, SampleSizeBox, SampleTableBox, SampleToChunkBox, SampleToChunkEntry,
    SampleToGroupBox, SampleToGroupEntry, SyncSampleBox, TimeToSampleBox, TimeToSampleEntry,
};
use mp4::track::{EditBox, EditListBox, EditListEntry, TrackBox, TrackHeaderBox};

fn file() -> File {
    let table = SampleTableBox {
        description: SampleDescriptionBox::AVC(AVCSampleEntry {
            base: VisualSampleEntry {
                data_reference_index: 1,
                width: 320,
                height: 240,
                horizresolution: U16F16::from_int(72).unwrap(),
                vertresolution: U16F16::from_int(72).unwrap(),
                frame_count: 1,
                compressorname: [0; 32],
                depth: 24,
                config: vec![1, 2, 3, 4, 5],
            },
        }),
        time_to_sample: TimeToSampleBox(vec![TimeToSampleEntry { sample_count: 2, sample_delta: 40 }]),
        sync_sample: Some(SyncSampleBox(vec![1])),
        sample_size: SampleSizeBox::PerSample(vec![3, 4]),
        sample_to_chunk: SampleToChunkBox(vec![SampleToChunkEntry {
            first_chunk: 1,
            samples_per_chunk: 2,
            sample_description_index: 1,
        }]),
        chunk_offset: ChunkOffsetBox(vec![40]),
        sample_to_group: Some(SampleToGroupBox(
            FourCC::from_bytes(*b"rap "),
            vec![SampleToGroupEntry { sample_count: 2, group_description_index: 0 }],
        )),
    };
    let media = MediaBox {
        header: MediaHeaderBox {
            creation_time: 0,
            modification_time: 0,
            timescale: 1000,
            duration: 80,
            language: Language::from_code(*b"fra").unwrap(),
        },
        handler: HandlerBox { handler_type: FourCC::from_bytes(*b"vide"), name: "v".to_string() },
        information: MediaInformationBox {
            header: MediaInformationHeader::Video(VideoMediaHeaderBox::default()),
            data_information: DataInformationBox {
                reference: DataReferenceBox(vec![
                    DataEntry::Url(DataEntryUrlBox { location: Some("file".to_string()) }),
                    DataEntry::Urn(DataEntryUrnBox { name: "n".to_string(), location: String::new() }),
                ]),
            },
            sample_table: table,
        },
    };
    let track = TrackBox {
        header: TrackHeaderBox { duration: 80, volume: U8F8::from_bits(0), ..TrackHeaderBox::default() },
        media,
        edit: Some(EditBox {
            edit_list: Some(EditListBox(vec![EditListEntry {
                segment_duration: 80,
                media_time: 0,
                media_rate: U16F16::from_int(1).unwrap(),
            }])),
        }),
    };
    File {
        file_type: FileTypeBox {
            major_brand: FourCC::from_bytes(*b"isom"),
            minor_version: 1,
            compatible_brands: vec![FourCC::from_bytes(*b"avc1")],
        },
        movie: MovieBox {
            header: MovieHeaderBox { timescale: 1000, duration: 80, ..MovieHeaderBox::default() },
            tracks: vec![track.clone(), track],
        },
        media_data: vec![MediaDataBox(vec![1, 2, 3, 4, 5, 6, 7])],
    }
}

fn both<T: Encode>(value: &T) -> Vec<u8> {
    let mut patched = vec![0xee];
    value.encode(&mut patched).unwrap();
    let mut sized = vec![0xee];
    value.encode_sized(&mut sized).unwrap();
    assert_eq!(patched, sized);
    let mut with = vec![0xee];
    value.encode_with(&mut with, Framing::Precomputed).unwrap();
    assert_eq!(with, sized);
    let mut with = vec![0xee];
    value.encode_with(&mut with, Framing::Backpatch).unwrap();
    assert_eq!(with, sized);
    assert_eq!(value.size() as usize + 1, sized.len());
    sized[1..].to_vec()
}

#[test]
fn both_framings_write_the_same_bytes() {
    let f = file();
    let bytes = both(&f);
    let mut input: &[u8] = &bytes;
    assert_eq!(File::decode(&mut input).unwrap(), f);
    both(&f.movie);
    let track = &f.movie.tracks[0];
    both(track);
    both(&track.header);
    both(&track.edit.clone().unwrap());
    both(&track.media);
    both(&track.media.header);
    both(&track.media.handler);
    both(&track.media.information);
    both(&track.media.information.header);
    both(&track.media.information.data_information);
    both(&track.media.information.data_information.reference);
    both(&track.media.information.data_information.reference.0[0]);
    both(&track.media.information.data_information.reference.0[1]);
    let table = &track.media.information.sample_table;
    both(table);
    both(&table.description);
    both(&table.time_to_sample);
    both(&table.sync_sample.clone().unwrap());
    both(&table.sample_size);
    both(&SampleSizeBox::Value { sample_size: 3, sample_count: 9 });
    both(&table.sample_to_chunk);
    both(&table.chunk_offset);
    both(&table.sample_to_group.clone().unwrap());
    both(&f.file_type);
    both(&f.media_data[0]);
    both(&f.movie.header);
    both(&7u32);
    both(&"text".to_string());
}

#[test]
fn every_box_says_its_size() {
    fn walk(bytes: &[u8], depth: usize) -> usize {
        let mut count = 0;
        let mut at = 0;
        while at < bytes.len() {
            let size = u32::from_be_bytes(bytes[at..at + 4].try_into().unwrap()) as usize;
            assert!(size >= 8 && at + size <= bytes.len());
            let tag = &bytes[at + 4..at + 8];
            count += 1;
            let parents: [&[u8; 4]; 7] = [b"moov", b"trak", b"mdia", b"minf", b"stbl", b"dinf", b"edts"];
            if parents.iter().any(|p| &p[..] == tag) {
                count += walk(&bytes[at + 8..at + size], depth + 1);
            }
            at += size;
        }
        assert_eq!(at, bytes.len());
        count
    }
    let bytes = both(&file());
    assert_eq!(walk(&bytes, 0), 4 + 1 + 2 * (1 + 3 + 3 + 3 + 1 + 7 + 1));
}

#[test]
fn a_sized_header_holds_the_size() {
    let mut out = vec![1u8];
    let begin = encode_sized_box_header(&mut out, *b"abcd", 0x0102_0304).unwrap();
    assert_eq!(begin, 1);
    assert_eq!(out, vec![1, 1, 2, 3, 4, b'a', b'b', b'c', b'd']);
}

#[test]
fn boxes_are_told_apart() {
    let bytes = [
        &[0u8, 0, 0, 9][..],
        b"aaaa",
        &[1],
        &[0, 0, 0, 8],
        b"bbbb",
        &[0, 0, 0, 10],
        b"cccc",
        &[2, 3],
    ]
    .concat();
    let boxes: Vec<BoxRef> = split(&bytes).unwrap();
    assert_eq!(boxes.len(), 3);
    assert_eq!((boxes[0].box_type, boxes[0].start, boxes[0].end), (0x6161_6161, 8, 9));
    assert_eq!((boxes[1].box_type, boxes[1].start, boxes[1].end), (0x6262_6262, 17, 17));
    assert_eq!((boxes[2].box_type, boxes[2].start, boxes[2].end), (0x6363_6363, 25, 27));
    assert_eq!(split(&[]).unwrap().len(), 0);
    assert!(split(&bytes[..26]).is_err());
    assert!(split(&bytes[..20]).is_err());
}

#[test]
fn codes_and_texts() {
    assert_eq!("moov".parse::<FourCC>().unwrap(), FourCC::from_bytes(*b"moov"));
    assert_eq!("moo".parse::<FourCC>(), Err(Error::Io(IoError::InvalidInput)));
    assert_eq!("moovs".parse::<FourCC>(), Err(Error::Io(IoError::InvalidInput)));
    assert_eq!("é12".parse::<FourCC>(), Ok(FourCC(0xc3a9_3132)));
    assert_eq!(FourCC::from_text("url "), Some(FourCC::from_bytes(*b"url ")));
    assert_eq!(FourCC::from_text("é12"), Some(FourCC::from_bytes([0xc3, 0xa9, b'1', b'2'])));
    assert_eq!(FourCC::from_text(""), None);
    assert_eq!(FourCC::from_bytes(*b"stbl").to_text(), Some("stbl".to_string()));
    assert_eq!(FourCC(0xffff_ffff).to_text(), None);
    assert_eq!(Language::from_code(*b"eng").unwrap().to_text(), Some("eng".to_string()));
    assert_eq!(Language(0).to_text(), Some("```".to_string()));
}
