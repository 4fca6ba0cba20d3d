use mp4::bytes::{Decode, Encode};
use mp4::data::DataInformationBox;
use mp4::error::{Error, IoError};
use mp4::file::{File, MediaDataBox};
use mp4::fixed_point::U16F16;
use mp4::fourcc::FourCC;
use mp4::media::{HandlerBox, MediaInformationHeader, SoundMediaHeaderBox, VideoMediaHeaderBox};
use mp4::sample_entry::{
    AACSampleEntry, AudioSampleEntry, AV1SampleEntry, SampleDescriptionBox, VisualSampleEntry,
};
use mp4::sample_table::{
    ChunkOffsetBox, SampleSizeBox, SampleToChunkBox, SampleToChunkEntry, SyncSampleBox,
    TimeToSampleBox, TimeToSampleEntry,
};
use mp4::writer::{TrackConfig, Writer};

fn video() -> TrackConfig {
    TrackConfig {
        handler: HandlerBox {
            handler_type: FourCC::from_bytes(*b"vide"),
            name: "VideoHandler".to_string(),
        },
        header: MediaInformationHeader::Video(VideoMediaHeaderBox::default()),
        width: U16F16::from_int(1920).unwrap(),
        height: U16F16::from_int(1080).unwrap(),
        description: SampleDescriptionBox::AV1(AV1SampleEntry {
            base: VisualSampleEntry {
                data_reference_index: 1,
                width: 1920,
                height: 1080,
                horizresolution: U16F16::from_int(72).unwrap(),
                vertresolution: U16F16::from_int(72).unwrap(),
                frame_count: 1,
                compressorname: [0; 32],
                depth: 24,
                config: vec![0, 0, 0, 12, b'a', b'v', b'1', b'C', 0x81, 0x0c, 0x0c, 0x00],
            },
        }),
    }
}

fn sound() -> TrackConfig {
    TrackConfig {
        handler: HandlerBox {
            handler_type: FourCC::from_bytes(*b"soun"),
            name: "SoundHandler".to_string(),
        },
        header: MediaInformationHeader::Sound(SoundMediaHeaderBox {
            balance: mp4::fixed_point::U8F8::from_bits(0),
        }),
        width: U16F16::from_bits(0),
        height: U16F16::from_bits(0),
        description: SampleDescriptionBox::AAC(AACSampleEntry {
            base: AudioSampleEntry {
                data_reference_index: 1,
                channelcount: 2,
                samplesize: 16,
                samplerate: U16F16::from_bits(48000 << 16),
                config: vec![],
            },
        }),
    }
}

fn decode(bytes: &[u8]) -> File {
    let mut input: &[u8] = bytes;
    let file = File::decode(&mut input).unwrap();
    assert!(input.is_empty());
    file
}

/// Writes the samples of one video track and decodes the file.
fn write(samples: &[(u32, bool, Vec<u8>)]) -> (Vec<u8>, File) {
    let mut writer = Writer::new(Vec::new(), vec![video()]);
    for (duration, sync, data) in samples {
        writer.sample(0, *duration, *sync, data).unwrap();
    }
    let bytes = writer.finish().unwrap();
    let file = decode(&bytes);
    (bytes, file)
}

#[test]
fn the_file_begins_with_type_free_and_media_data() {
    let (bytes, file) = write(&[(10, true, vec![1, 2, 3])]);
    assert_eq!(
        &bytes[..32],
        &[
            &[0u8, 0, 0, 32][..],
            b"ftyp",
            b"isom",
            &[0, 0, 2, 0],
            b"isom",
            b"av01",
            b"iso2",
            b"mp41"
        ]
        .concat()[..]
    );
    assert_eq!(&bytes[32..40], &[0, 0, 0, 8, b'f', b'r', b'e', b'e']);
    assert_eq!(&bytes[40..51], &[0, 0, 0, 11, b'm', b'd', b'a', b't', 1, 2, 3]);
    assert_eq!(&bytes[55..59], b"moov");
    assert_eq!(file.file_type.major_brand, FourCC::from_bytes(*b"isom"));
    assert_eq!(file.file_type.minor_version, 512);
    assert_eq!(file.media_data, vec![MediaDataBox(vec![1, 2, 3])]);
}

#[test]
fn equal_durations_are_merged_into_runs() {
    let samples: Vec<(u32, bool, Vec<u8>)> =
        [33, 33, 33, 50, 50].iter().map(|d| (*d, false, vec![0u8; 4])).collect();
    let (_, file) = write(&samples);
    let table = &file.movie.tracks[0].media.information.sample_table;
    assert_eq!(
        table.time_to_sample,
        TimeToSampleBox(vec![
            TimeToSampleEntry { sample_count: 3, sample_delta: 33 },
            TimeToSampleEntry { sample_count: 2, sample_delta: 50 },
        ])
    );
    assert_eq!(file.movie.tracks[0].header.duration, 199);
    assert_eq!(file.movie.tracks[0].media.header.duration, 199);
    assert_eq!(file.movie.header.duration, 199);
}

#[test]
fn a_duration_that_comes_again_later_begins_a_run() {
    let samples: Vec<(u32, bool, Vec<u8>)> =
        [5, 6, 5, 5, 6].iter().map(|d| (*d, false, vec![])).collect();
    let (_, file) = write(&samples);
    let table = &file.movie.tracks[0].media.information.sample_table;
    assert_eq!(
        table.time_to_sample,
        TimeToSampleBox(vec![
            TimeToSampleEntry { sample_count: 1, sample_delta: 5 },
            TimeToSampleEntry { sample_count: 1, sample_delta: 6 },
            TimeToSampleEntry { sample_count: 2, sample_delta: 5 },
            TimeToSampleEntry { sample_count: 1, sample_delta: 6 },
        ])
    );
}

#[test]
fn a_chunk_is_written_when_its_duration_reaches_the_threshold() {
    let samples: Vec<(u32, bool, Vec<u8>)> =
        (0..40u8).map(|i| (33, i % 10 == 0, vec![i; 3])).collect();
    let (bytes, file) = write(&samples);
    let table = &file.movie.tracks[0].media.information.sample_table;
    assert_eq!(
        table.sample_to_chunk,
        SampleToChunkBox(vec![
            SampleToChunkEntry { first_chunk: 1, samples_per_chunk: 31, sample_description_index: 1 },
            SampleToChunkEntry { first_chunk: 2, samples_per_chunk: 9, sample_description_index: 1 },
        ])
    );
    assert_eq!(table.chunk_offset, ChunkOffsetBox(vec![48, 48 + 31 * 3]));
    assert_eq!(31 + 9, 40);
    assert_eq!(
        table.time_to_sample,
        TimeToSampleBox(vec![TimeToSampleEntry { sample_count: 40, sample_delta: 33 }])
    );
    assert_eq!(table.sample_size, SampleSizeBox::Value { sample_size: 3, sample_count: 40 });
    for i in 0..40usize {
        assert_eq!(&bytes[48 + 3 * i..51 + 3 * i], &[i as u8; 3]);
    }
    assert_eq!(&bytes[48 + 31 * 3..48 + 31 * 3 + 3], &[31u8; 3]);
    assert_eq!(file.media_data[0].0.len(), 120);
    assert_eq!(file.movie.header.duration, 40 * 33);
}

#[test]
fn chunks_of_equal_length_share_a_run() {
    let samples: Vec<(u32, bool, Vec<u8>)> = (0..7u8).map(|i| (500, true, vec![i])).collect();
    let (_, file) = write(&samples);
    let table = &file.movie.tracks[0].media.information.sample_table;
    assert_eq!(
        table.sample_to_chunk,
        SampleToChunkBox(vec![
            SampleToChunkEntry { first_chunk: 1, samples_per_chunk: 2, sample_description_index: 1 },
            SampleToChunkEntry { first_chunk: 4, samples_per_chunk: 1, sample_description_index: 1 },
        ])
    );
    assert_eq!(table.chunk_offset, ChunkOffsetBox(vec![48, 50, 52, 54]));
}

#[test]
fn no_chunk_is_written_for_no_samples() {
    let samples: Vec<(u32, bool, Vec<u8>)> = (0..4u8).map(|i| (500, true, vec![i])).collect();
    let (_, file) = write(&samples);
    let table = &file.movie.tracks[0].media.information.sample_table;
    assert_eq!(table.chunk_offset, ChunkOffsetBox(vec![48, 50]));
    assert_eq!(
        table.sample_to_chunk,
        SampleToChunkBox(vec![SampleToChunkEntry {
            first_chunk: 1,
            samples_per_chunk: 2,
            sample_description_index: 1
        }])
    );
    let (bytes, file) = write(&[]);
    let table = &file.movie.tracks[0].media.information.sample_table;
    assert_eq!(table.chunk_offset, ChunkOffsetBox(vec![]));
    assert_eq!(table.sample_to_chunk, SampleToChunkBox(vec![]));
    assert_eq!(table.time_to_sample, TimeToSampleBox(vec![]));
    assert_eq!(table.sample_size, SampleSizeBox::PerSample(vec![]));
    assert_eq!(&bytes[40..48], &[0, 0, 0, 8, b'm', b'd', b'a', b't']);
}

#[test]
fn a_long_sample_is_a_chunk_of_its_own() {
    let (_, file) = write(&[(1000, true, vec![1]), (2000, false, vec![2, 2]), (10, false, vec![3])]);
    let table = &file.movie.tracks[0].media.information.sample_table;
    assert_eq!(table.chunk_offset, ChunkOffsetBox(vec![48, 49, 51]));
    assert_eq!(
        table.sample_to_chunk,
        SampleToChunkBox(vec![SampleToChunkEntry {
            first_chunk: 1,
            samples_per_chunk: 1,
            sample_description_index: 1
        }])
    );
}

#[test]
fn equal_sizes_are_written_as_one_size() {
    let samples: Vec<(u32, bool, Vec<u8>)> = (0..5).map(|_| (10, false, vec![0u8; 100])).collect();
    let (_, file) = write(&samples);
    let table = &file.movie.tracks[0].media.information.sample_table;
    assert_eq!(table.sample_size, SampleSizeBox::Value { sample_size: 100, sample_count: 5 });
}

#[test]
fn different_sizes_are_written_one_by_one() {
    let samples: Vec<(u32, bool, Vec<u8>)> =
        (0..5u8).map(|i| (10, false, vec![0u8; 100 + i as usize])).collect();
    let (_, file) = write(&samples);
    let table = &file.movie.tracks[0].media.information.sample_table;
    assert_eq!(table.sample_size, SampleSizeBox::PerSample(vec![100, 101, 102, 103, 104]));
}

#[test]
fn empty_samples_are_written_one_by_one() {
    let samples: Vec<(u32, bool, Vec<u8>)> = (0..3).map(|_| (10, false, vec![])).collect();
    let (_, file) = write(&samples);
    let table = &file.movie.tracks[0].media.information.sample_table;
    assert_eq!(table.sample_size, SampleSizeBox::PerSample(vec![0, 0, 0]));
}

#[test]
fn sync_samples_are_numbered_from_one() {
    let flags = [true, false, false, true, true, false, true];
    let samples: Vec<(u32, bool, Vec<u8>)> = flags.iter().map(|s| (400, *s, vec![1])).collect();
    let (_, file) = write(&samples);
    let table = &file.movie.tracks[0].media.information.sample_table;
    assert_eq!(table.sync_sample, Some(SyncSampleBox(vec![1, 4, 5, 7])));
    let numbers = &table.sync_sample.as_ref().unwrap().0;
    assert!(numbers.windows(2).all(|w| w[0] < w[1]));
    assert!(numbers.iter().all(|n| 1 <= *n && *n as usize <= flags.len()));
}

#[test]
fn without_sync_samples_the_list_is_empty() {
    let (_, file) = write(&[(1, false, vec![1]), (1, false, vec![2])]);
    let table = &file.movie.tracks[0].media.information.sample_table;
    assert_eq!(table.sync_sample, Some(SyncSampleBox(vec![])));
}

#[test]
fn the_track_is_described_as_configured() {
    let (_, file) = write(&[(10, true, vec![1])]);
    let track = &file.movie.tracks[0];
    let config = video();
    assert_eq!(track.header.track_id, 1);
    assert_eq!(track.header.width, config.width);
    assert_eq!(track.header.height, config.height);
    assert!(track.header.enabled && track.header.in_movie && track.header.in_preview);
    assert_eq!(track.edit, None);
    assert_eq!(track.media.header.timescale, 1000);
    assert_eq!(track.media.handler, config.handler);
    assert_eq!(track.media.information.header, config.header);
    assert_eq!(track.media.information.data_information, DataInformationBox::default());
    assert_eq!(track.media.information.sample_table.description, config.description);
    assert_eq!(track.media.information.sample_table.sample_to_group, None);
    assert_eq!(file.movie.header.timescale, 1000);
    assert_eq!(file.movie.header.next_track_id, 2);
    assert_eq!(file.movie.header.rate.to_bits(), 0x0001_0000);
}

#[test]
fn chunks_of_two_tracks_lie_in_the_order_in_which_they_became_full() {
    let mut writer = Writer::new(Vec::new(), vec![video(), sound()]);
    writer.sample(0, 600, true, &[b'v'; 5]).unwrap();
    writer.sample(1, 1000, true, &[b'a'; 2]).unwrap();
    writer.sample(0, 600, false, &[b'w'; 5]).unwrap();
    writer.sample(1, 300, true, &[b'b'; 2]).unwrap();
    writer.sample(0, 100, false, &[b'x'; 1]).unwrap();
    let bytes = writer.finish().unwrap();
    let file = decode(&bytes);
    assert_eq!(file.media_data, vec![MediaDataBox(b"aavvvvvwwwwwxbb".to_vec())]);
    assert_eq!(file.movie.tracks.len(), 2);
    let v = &file.movie.tracks[0];
    let a = &file.movie.tracks[1];
    assert_eq!(v.header.track_id, 1);
    assert_eq!(a.header.track_id, 2);
    assert_eq!(v.header.duration, 1300);
    assert_eq!(a.header.duration, 1300);
    assert_eq!(file.movie.header.duration, 1300);
    assert_eq!(file.movie.header.next_track_id, 3);
    let vt = &v.media.information.sample_table;
    let at = &a.media.information.sample_table;
    assert_eq!(vt.chunk_offset, ChunkOffsetBox(vec![50, 60]));
    assert_eq!(at.chunk_offset, ChunkOffsetBox(vec![48, 61]));
    assert_eq!(
        vt.sample_to_chunk,
        SampleToChunkBox(vec![
            SampleToChunkEntry { first_chunk: 1, samples_per_chunk: 2, sample_description_index: 1 },
            SampleToChunkEntry { first_chunk: 2, samples_per_chunk: 1, sample_description_index: 1 },
        ])
    );
    assert_eq!(vt.sample_size, SampleSizeBox::PerSample(vec![5, 5, 1]));
    assert_eq!(at.sample_size, SampleSizeBox::Value { sample_size: 2, sample_count: 2 });
    assert_eq!(&bytes[50..55], b"vvvvv");
    assert_eq!(&bytes[61..63], b"bb");
    assert_eq!(a.media.handler.name, "SoundHandler");
}

#[test]
fn the_movie_lasts_as_long_as_its_longest_track() {
    let mut writer = Writer::new(Vec::new(), vec![video(), sound()]);
    writer.sample(0, 70, true, &[1]).unwrap();
    writer.sample(1, 30, true, &[2]).unwrap();
    writer.sample(1, 30, true, &[2]).unwrap();
    let file = decode(&writer.finish().unwrap());
    assert_eq!(file.movie.tracks[0].header.duration, 70);
    assert_eq!(file.movie.tracks[1].header.duration, 60);
    assert_eq!(file.movie.header.duration, 70);
}

#[test]
fn a_sample_for_a_track_that_is_not_there_is_refused() {
    let mut writer = Writer::new(Vec::new(), vec![video()]);
    assert_eq!(writer.sample(1, 10, true, &[1]), Err(Error::Io(IoError::InvalidInput)));
    writer.sample(0, 10, true, &[7]).unwrap();
    let file = decode(&writer.finish().unwrap());
    assert_eq!(file.media_data, vec![MediaDataBox(vec![7])]);
}

#[test]
fn a_duration_beyond_32_bits_is_refused() {
    let mut writer = Writer::new(Vec::new(), vec![video()]);
    writer.sample(0, u32::MAX - 5, true, &[1]).unwrap();
    assert_eq!(writer.sample(0, 6, true, &[2]), Err(Error::Io(IoError::InvalidInput)));
    writer.sample(0, 5, false, &[3]).unwrap();
    let file = decode(&writer.finish().unwrap());
    assert_eq!(file.movie.tracks[0].header.duration, u32::MAX as u64);
    assert_eq!(file.media_data, vec![MediaDataBox(vec![1, 3])]);
}

#[test]
fn the_writer_writes_behind_what_the_output_holds() {
    let mut writer = Writer::new(vec![9, 9, 9], vec![video()]);
    writer.sample(0, 1000, true, &[1, 2]).unwrap();
    let bytes = writer.finish().unwrap();
    assert_eq!(&bytes[..3], &[9, 9, 9]);
    let file = decode(&bytes[3..]);
    let table = &file.movie.tracks[0].media.information.sample_table;
    assert_eq!(table.chunk_offset, ChunkOffsetBox(vec![51]));
    assert_eq!(&bytes[51..53], &[1, 2]);
}

#[test]
fn a_file_without_tracks_cannot_be_decoded() {
    let bytes = Writer::new(Vec::new(), vec![]).finish().unwrap();
    let mut input: &[u8] = &bytes;
    assert_eq!(
        File::decode(&mut input),
        Err(Error::InvalidBoxQuantity { box_type: FourCC::from_bytes(*b"trak"), quantity: 0, expected: 1 })
    );
}

#[test]
fn what_the_writer_wrote_is_written_again_as_it_was() {
    let samples: Vec<(u32, bool, Vec<u8>)> =
        (0..100u8).map(|i| (1 + (i as u32 % 3) * 40, i % 7 == 0, vec![i; (i % 5) as usize])).collect();
    let (bytes, file) = write(&samples);
    let mut again = Vec::new();
    file.encode(&mut again).unwrap();
    assert_eq!(again, bytes);
    assert_eq!(file.size(), bytes.len() as u64);
}

#[test]
fn what_was_written_so_far_can_be_seen() {
    let mut writer = Writer::new(vec![7], vec![video()]);
    assert_eq!(writer.media_data_box_begin(), 41);
    assert_eq!(writer.output().len(), 49);
    assert_eq!(&writer.output()[41..49], &[0, 0, 0, 0, b'm', b'd', b'a', b't']);
    writer.sample(0, 999, true, &[1, 2]).unwrap();
    assert_eq!(writer.output().len(), 49);
    writer.sample(0, 1, false, &[3]).unwrap();
    assert_eq!(&writer.output()[49..], &[1, 2, 3]);
    writer.sample(0, 5, false, &[4]).unwrap();
    assert_eq!(writer.output().len(), 52);
    let seen = writer.output().to_vec();
    let bytes = writer.finish().unwrap();
    assert_eq!(&bytes[..41], &seen[..41]);
    assert_eq!(&bytes[41..45], &[0, 0, 0, 12]);
    assert_eq!(&bytes[45..52], &seen[45..]);
    assert_eq!(bytes[52], 4);
}
