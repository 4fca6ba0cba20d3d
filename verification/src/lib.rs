//! A codec for the ISO base media file format (MP4): the tree of boxes that
//! a file is made of, encoded to bytes and decoded from them, and a writer
//! that builds a file from the samples of its tracks.
//!
//! Every function of the library is verified against its contract. The
//! contracts speak of the bytes of a value (`Encode::bytes`) and of what
//! bytes decode to (`Decode::parse`); the module `laws` states how the two
//! go together.

pub mod bytes;
pub mod data;
pub mod error;
pub mod file;
pub mod fixed_point;
pub mod fourcc;
pub mod framing;
pub mod laws;
pub mod matrix;
pub mod media;
pub mod meta;
pub mod movie;
pub mod sample_entry;
pub mod sample_table;
pub mod table;
pub mod text;
pub mod track;
pub mod writer;

pub use crate::bytes::{Decode, Encode, Framing};
pub use crate::data::{
    DataEntry, DataEntryUrlBox, DataEntryUrnBox, DataInformationBox, DataReferenceBox,
};
pub use crate::error::{Error, IoError};
pub use crate::file::{File, FileTypeBox, MediaDataBox};
pub use crate::fixed_point::{U16F16, U2F30, U8F8};
pub use crate::fourcc::{FourCC, Language};
pub use crate::framing::{encode_box_header, update_box_header};
pub use crate::matrix::Matrix;
pub use crate::media::{
    HandlerBox, MediaBox, MediaHeaderBox, MediaInformationBox, MediaInformationHeader,
    SoundMediaHeaderBox, VideoMediaHeaderBox,
};
pub use crate::meta::{
    ItemLocationBox, ItemLocationEntry, ItemLocationEntryExtent, MetaBox,
};
pub use crate::movie::{MovieBox, MovieHeaderBox};
pub use crate::sample_entry::{
    AACSampleEntry, AV1SampleEntry, AVCSampleEntry, AudioSampleEntry, SampleDescriptionBox,
    VisualSampleEntry,
};
pub use crate::sample_table::{
    ChunkOffsetBox, SampleSizeBox, SampleTableBox, SampleToChunkBox, SampleToChunkEntry,
    SampleToGroupBox, SampleToGroupEntry, SyncSampleBox, TimeToSampleBox, TimeToSampleEntry,
};
pub use crate::track::{EditBox, EditListBox, EditListEntry, TrackBox, TrackHeaderBox};
pub use crate::writer::{TrackConfig, Writer};
