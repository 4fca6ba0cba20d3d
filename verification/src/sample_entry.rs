//! The description of the samples of a track: what every entry for video
//! and for audio begins with, the entries of the codecs that are known, and
//! the box that holds one of them.

use vstd::prelude::*;
use vstd::slice::{slice_subrange, slice_to_vec};

use crate::bytes::{
    add_size, be_u16, be_u32, get_u16, get_u32, group_big_endian, put_bytes, put_u16, put_u32,
    u16_at, u32_at, version_of, Decode, Encode, Framing,
};
use crate::error::{eof, malformed, Error, IoError};
use crate::fixed_point::U16F16;
use crate::fourcc::{AV01, AVC1, MP4A, STSD};
use crate::framing::{box_bytes, child, close_box, fits, open_box, pending, BoxCodec};

verus! {

broadcast use {
    vstd::slice::group_slice_axioms,
    vstd::array::group_array_axioms,
    group_big_endian,
};

/// What every description of video samples begins with, and the
/// configuration of the codec, which follows it and is kept as it is.
#[derive(Clone, Debug, PartialEq, Eq)]
pub struct VisualSampleEntry {
    pub data_reference_index: u16,
    pub width: u16,
    pub height: u16,
    pub horizresolution: U16F16,
    pub vertresolution: U16F16,
    pub frame_count: u16,
    pub compressorname: [u8; 32],
    pub depth: u16,
    pub config: Vec<u8>,
}

/// A `VisualSampleEntry` as a mathematical value.
pub struct VisualSampleEntryView {
    pub data_reference_index: u16,
    pub width: u16,
    pub height: u16,
    pub horizresolution: U16F16,
    pub vertresolution: U16F16,
    pub frame_count: u16,
    pub compressorname: Seq<u8>,
    pub depth: u16,
    pub config: Seq<u8>,
}

impl View for VisualSampleEntry {
    type V = VisualSampleEntryView;

    open spec fn view(&self) -> VisualSampleEntryView {
        VisualSampleEntryView {
            data_reference_index: self.data_reference_index,
            width: self.width,
            height: self.height,
            horizresolution: self.horizresolution,
            vertresolution: self.vertresolution,
            frame_count: self.frame_count,
            compressorname: self.compressorname@,
            depth: self.depth,
            config: self.config@,
        }
    }
}

impl VisualSampleEntry {
    /// The 42 bytes before the name of the compressor.
    pub open spec fn before_name(v: VisualSampleEntryView) -> Seq<u8> {
        be_u32(0) + be_u16(0) + be_u16(v.data_reference_index) + be_u16(0) + be_u16(0) + be_u32(0)
            + be_u32(0) + be_u32(0) + be_u16(v.width) + be_u16(v.height) + be_u32(
            v.horizresolution.bits,
        ) + be_u32(v.vertresolution.bits) + be_u32(0) + be_u16(v.frame_count)
    }

    /// The four bytes after the name of the compressor: the depth, and a
    /// field that is always -1.
    pub open spec fn after_name(v: VisualSampleEntryView) -> Seq<u8> {
        be_u16(v.depth) + be_u16(0xffff)
    }

    /// Whether the fields of the first 78 bytes that have one allowed value
    /// hold it.
    pub open spec fn reserved_ok(input: Seq<u8>) -> bool {
        &&& u32_at(input, 0) == 0
        &&& u16_at(input, 4) == 0
        &&& u16_at(input, 8) == 0
        &&& u16_at(input, 10) == 0
        &&& u32_at(input, 12) == 0
        &&& u32_at(input, 16) == 0
        &&& u32_at(input, 20) == 0
        &&& u32_at(input, 36) == 0
        &&& u16_at(input, 76) == 0xffff
    }

    /// A name of 32 bytes is all that the byte form can hold.
    pub open spec fn canonical(v: VisualSampleEntryView) -> bool {
        v.compressorname.len() == 32
    }
}

impl Encode for VisualSampleEntry {
    open spec fn bytes(v: VisualSampleEntryView) -> Seq<u8> {
        Self::before_name(v) + v.compressorname + Self::after_name(v) + v.config
    }

    open spec fn encodable(v: VisualSampleEntryView) -> bool {
        true
    }

    fn size(&self) -> (n: u64) {
        add_size(78, self.config.len() as u64)
    }

    fn encode_with(&self, output: &mut Vec<u8>, framing: Framing) -> (r: Result<(), Error>) {
        put_u32(output, 0);
        put_u16(output, 0);
        put_u16(output, self.data_reference_index);
        put_u16(output, 0);
        put_u16(output, 0);
        put_u32(output, 0);
        put_u32(output, 0);
        put_u32(output, 0);
        put_u16(output, self.width);
        put_u16(output, self.height);
        put_u32(output, self.horizresolution.bits);
        put_u32(output, self.vertresolution.bits);
        put_u32(output, 0);
        put_u16(output, self.frame_count);
        assert(output@ =~= old(output)@ + Self::before_name(self@));
        put_bytes(output, self.compressorname.as_slice());
        put_u16(output, self.depth);
        put_u16(output, 0xffff);
        put_bytes(output, self.config.as_slice());
        assert(output@ =~= old(output)@ + Self::bytes(self@));
        Ok(())
    }
}

impl Decode for VisualSampleEntry {
    /// The fixed part takes 78 bytes; all that follows is the configuration.
    open spec fn parse(input: Seq<u8>) -> Result<(VisualSampleEntryView, int), Error> {
        if input.len() < 78 {
            Err(eof())
        } else if !Self::reserved_ok(input) {
            Err(malformed())
        } else {
            Ok(
                (
                    VisualSampleEntryView {
                        data_reference_index: u16_at(input, 6),
                        width: u16_at(input, 24),
                        height: u16_at(input, 26),
                        horizresolution: U16F16 { bits: u32_at(input, 28) },
                        vertresolution: U16F16 { bits: u32_at(input, 32) },
                        frame_count: u16_at(input, 40),
                        compressorname: input.subrange(42, 74),
                        depth: u16_at(input, 74),
                        config: input.skip(78),
                    },
                    input.len() as int,
                ),
            )
        }
    }

    fn decode(input: &mut &[u8]) -> (r: Result<Self, Error>) {
        let b: &[u8] = *input;
        if b.len() < 78 {
            return Err(Error::Io(IoError::UnexpectedEof));
        }
        if get_u32(b, 0) != 0 || get_u16(b, 4) != 0 || get_u16(b, 8) != 0 || get_u16(b, 10) != 0
            || get_u32(b, 12) != 0 || get_u32(b, 16) != 0 || get_u32(b, 20) != 0 || get_u32(b, 36)
            != 0 || get_u16(b, 76) != 0xffff {
            return Err(Error::Io(IoError::InvalidData));
        }
        let mut compressorname: [u8; 32] = [0u8; 32];
        let mut i: usize = 0;
        while i < 32
            invariant
                i <= 32,
                b@.len() >= 78,
                forall|j: int| 0 <= j < i ==> compressorname@[j] == b@[42 + j],
            decreases 32 - i,
        {
            compressorname[i] = b[42 + i];
            i = i + 1;
        }
        assert(compressorname@ =~= b@.subrange(42, 74));
        let entry = VisualSampleEntry {
            data_reference_index: get_u16(b, 6),
            width: get_u16(b, 24),
            height: get_u16(b, 26),
            horizresolution: U16F16 { bits: get_u32(b, 28) },
            vertresolution: U16F16 { bits: get_u32(b, 32) },
            frame_count: get_u16(b, 40),
            compressorname,
            depth: get_u16(b, 74),
            config: slice_to_vec(slice_subrange(b, 78, b.len())),
        };
        assert(entry.config@ =~= b@.skip(78));
        *input = slice_subrange(b, b.len(), b.len());
        Ok(entry)
    }
}

/// The bytes of a description of video samples decode to it.
pub proof fn law_visual_round_trip(v: VisualSampleEntryView)
    requires
        VisualSampleEntry::canonical(v),
    ensures
        VisualSampleEntry::parse(VisualSampleEntry::bytes(v)) == Ok::<
            (VisualSampleEntryView, int),
            Error,
        >((v, VisualSampleEntry::bytes(v).len() as int)),
{
    let head = VisualSampleEntry::before_name(v);
    let tail = VisualSampleEntry::after_name(v);
    let all = VisualSampleEntry::bytes(v);
    assert(head.len() == 42);
    assert(all.subrange(42, 74) =~= v.compressorname);
    assert(all.skip(78) =~= v.config);
    assert(u16_at(all, 74) == v.depth) by {
        assert(u16_at(head + v.compressorname + tail, 74) == u16_at(tail, 0));
    }
    assert(u16_at(all, 76) == 0xffff) by {
        assert(u16_at(head + v.compressorname + tail, 76) == u16_at(tail, 2));
    }
    assert(all =~= head + (v.compressorname + tail + v.config));
}

/// What every description of audio samples begins with, and the
/// configuration of the codec, which follows it and is kept as it is.
#[derive(Clone, Debug, PartialEq, Eq)]
pub struct AudioSampleEntry {
    pub data_reference_index: u16,
    pub channelcount: u16,
    pub samplesize: u16,
    pub samplerate: U16F16,
    pub config: Vec<u8>,
}

/// An `AudioSampleEntry` as a mathematical value.
pub struct AudioSampleEntryView {
    pub data_reference_index: u16,
    pub channelcount: u16,
    pub samplesize: u16,
    pub samplerate: U16F16,
    pub config: Seq<u8>,
}

impl View for AudioSampleEntry {
    type V = AudioSampleEntryView;

    open spec fn view(&self) -> AudioSampleEntryView {
        AudioSampleEntryView {
            data_reference_index: self.data_reference_index,
            channelcount: self.channelcount,
            samplesize: self.samplesize,
            samplerate: self.samplerate,
            config: self.config@,
        }
    }
}

impl AudioSampleEntry {
    /// The 28 bytes of the fixed part.
    pub open spec fn fixed_part(v: AudioSampleEntryView) -> Seq<u8> {
        be_u32(0) + be_u16(0) + be_u16(v.data_reference_index) + be_u32(0) + be_u32(0) + be_u16(
            v.channelcount,
        ) + be_u16(v.samplesize) + be_u16(0) + be_u16(0) + be_u32(v.samplerate.bits)
    }

    /// Whether the fields of the first 28 bytes that must be zero are.
    pub open spec fn reserved_ok(input: Seq<u8>) -> bool {
        &&& u32_at(input, 0) == 0
        &&& u16_at(input, 4) == 0
        &&& u32_at(input, 8) == 0
        &&& u32_at(input, 12) == 0
        &&& u16_at(input, 20) == 0
        &&& u16_at(input, 22) == 0
    }
}

impl Encode for AudioSampleEntry {
    open spec fn bytes(v: AudioSampleEntryView) -> Seq<u8> {
        Self::fixed_part(v) + v.config
    }

    open spec fn encodable(v: AudioSampleEntryView) -> bool {
        true
    }

    fn size(&self) -> (n: u64) {
        add_size(28, self.config.len() as u64)
    }

    fn encode_with(&self, output: &mut Vec<u8>, framing: Framing) -> (r: Result<(), Error>) {
        put_u32(output, 0);
        put_u16(output, 0);
        put_u16(output, self.data_reference_index);
        put_u32(output, 0);
        put_u32(output, 0);
        put_u16(output, self.channelcount);
        put_u16(output, self.samplesize);
        put_u16(output, 0);
        put_u16(output, 0);
        put_u32(output, self.samplerate.bits);
        put_bytes(output, self.config.as_slice());
        assert(output@ =~= old(output)@ + Self::bytes(self@));
        Ok(())
    }
}

impl Decode for AudioSampleEntry {
    /// The fixed part takes 28 bytes; all that follows is the configuration.
    open spec fn parse(input: Seq<u8>) -> Result<(AudioSampleEntryView, int), Error> {
        if input.len() < 28 {
            Err(eof())
        } else if !Self::reserved_ok(input) {
            Err(malformed())
        } else {
            Ok(
                (
                    AudioSampleEntryView {
                        data_reference_index: u16_at(input, 6),
                        channelcount: u16_at(input, 16),
                        samplesize: u16_at(input, 18),
                        samplerate: U16F16 { bits: u32_at(input, 24) },
                        config: input.skip(28),
                    },
                    input.len() as int,
                ),
            )
        }
    }

    fn decode(input: &mut &[u8]) -> (r: Result<Self, Error>) {
        let b: &[u8] = *input;
        if b.len() < 28 {
            return Err(Error::Io(IoError::UnexpectedEof));
        }
        if get_u32(b, 0) != 0 || get_u16(b, 4) != 0 || get_u32(b, 8) != 0 || get_u32(b, 12) != 0
            || get_u16(b, 20) != 0 || get_u16(b, 22) != 0 {
            return Err(Error::Io(IoError::InvalidData));
        }
        let entry = AudioSampleEntry {
            data_reference_index: get_u16(b, 6),
            channelcount: get_u16(b, 16),
            samplesize: get_u16(b, 18),
            samplerate: U16F16 { bits: get_u32(b, 24) },
            config: slice_to_vec(slice_subrange(b, 28, b.len())),
        };
        assert(entry.config@ =~= b@.skip(28));
        *input = slice_subrange(b, b.len(), b.len());
        Ok(entry)
    }
}

/// The bytes of a description of audio samples decode to it.
pub proof fn law_audio_round_trip(v: AudioSampleEntryView)
    ensures
        AudioSampleEntry::parse(AudioSampleEntry::bytes(v)) == Ok::<
            (AudioSampleEntryView, int),
            Error,
        >((v, AudioSampleEntry::bytes(v).len() as int)),
{
    let all = AudioSampleEntry::bytes(v);
    assert(all.skip(28) =~= v.config);
}

/// A description of AV1 video samples (`av01`).
#[derive(Clone, Debug, PartialEq, Eq)]
pub struct AV1SampleEntry {
    pub base: VisualSampleEntry,
}

impl View for AV1SampleEntry {
    type V = VisualSampleEntryView;

    open spec fn view(&self) -> VisualSampleEntryView {
        self.base@
    }
}

impl Encode for AV1SampleEntry {
    open spec fn bytes(v: VisualSampleEntryView) -> Seq<u8> {
        box_bytes(AV01, VisualSampleEntry::bytes(v))
    }

    open spec fn encodable(v: VisualSampleEntryView) -> bool {
        fits(VisualSampleEntry::bytes(v))
    }

    fn size(&self) -> (n: u64) {
        add_size(8, self.base.size())
    }

    fn encode_with(&self, output: &mut Vec<u8>, framing: Framing) -> (r: Result<(), Error>) {
        let ghost before = output@;
        let begin: u64 = open_box(output, AV01, self.size(), framing, Ghost(VisualSampleEntry::bytes(self@)))?;
        let _ = self.base.encode(output);
        assert(output@ =~= before + be_u32(pending(framing, VisualSampleEntry::bytes(self@))) + be_u32(AV01) + VisualSampleEntry::bytes(self@));
        close_box(output, begin, framing, Ghost(before), Ghost(AV01), Ghost(VisualSampleEntry::bytes(self@)))
    }
}

impl Decode for AV1SampleEntry {
    open spec fn parse(input: Seq<u8>) -> Result<(VisualSampleEntryView, int), Error> {
        VisualSampleEntry::parse(input)
    }

    fn decode(input: &mut &[u8]) -> (r: Result<Self, Error>) {
        Ok(AV1SampleEntry { base: VisualSampleEntry::decode(input)? })
    }
}

impl BoxCodec for AV1SampleEntry {
    open spec fn box_type() -> u32 {
        AV01
    }

    open spec fn body(v: VisualSampleEntryView) -> Seq<u8> {
        VisualSampleEntry::bytes(v)
    }

    open spec fn canonical(v: VisualSampleEntryView) -> bool {
        VisualSampleEntry::canonical(v)
    }

    proof fn lemma_box(v: VisualSampleEntryView) {
        assert(Self::box_type() == AV01);
        assert(Self::body(v) == VisualSampleEntry::bytes(v));
        assert(Self::encodable(v) == (fits(VisualSampleEntry::bytes(v))));
        assert(Self::bytes(v) == box_bytes(AV01, VisualSampleEntry::bytes(v)));
    }

    proof fn lemma_round_trip(v: VisualSampleEntryView) {
        law_visual_round_trip(v);
    }

    open spec fn normal(v: VisualSampleEntryView) -> VisualSampleEntryView {
        v
    }

    proof fn lemma_normal(v: VisualSampleEntryView) {
        assert(Self::normal(v) == v);
    }

    open spec fn shaped(v: VisualSampleEntryView) -> bool {
        Self::canonical(v)
    }

    proof fn lemma_decoded(v: VisualSampleEntryView) {
        assert(Self::normal(v) == v);
        assert(Self::shaped(v) == Self::canonical(v));
    }
}

/// A description of AVC video samples (`avc1`).
#[derive(Clone, Debug, PartialEq, Eq)]
pub struct AVCSampleEntry {
    pub base: VisualSampleEntry,
}

impl View for AVCSampleEntry {
    type V = VisualSampleEntryView;

    open spec fn view(&self) -> VisualSampleEntryView {
        self.base@
    }
}

impl Encode for AVCSampleEntry {
    open spec fn bytes(v: VisualSampleEntryView) -> Seq<u8> {
        box_bytes(AVC1, VisualSampleEntry::bytes(v))
    }

    open spec fn encodable(v: VisualSampleEntryView) -> bool {
        fits(VisualSampleEntry::bytes(v))
    }

    fn size(&self) -> (n: u64) {
        add_size(8, self.base.size())
    }

    fn encode_with(&self, output: &mut Vec<u8>, framing: Framing) -> (r: Result<(), Error>) {
        let ghost before = output@;
        let begin: u64 = open_box(output, AVC1, self.size(), framing, Ghost(VisualSampleEntry::bytes(self@)))?;
        let _ = self.base.encode(output);
        assert(output@ =~= before + be_u32(pending(framing, VisualSampleEntry::bytes(self@))) + be_u32(AVC1) + VisualSampleEntry::bytes(self@));
        close_box(output, begin, framing, Ghost(before), Ghost(AVC1), Ghost(VisualSampleEntry::bytes(self@)))
    }
}

impl Decode for AVCSampleEntry {
    open spec fn parse(input: Seq<u8>) -> Result<(VisualSampleEntryView, int), Error> {
        VisualSampleEntry::parse(input)
    }

    fn decode(input: &mut &[u8]) -> (r: Result<Self, Error>) {
        Ok(AVCSampleEntry { base: VisualSampleEntry::decode(input)? })
    }
}

impl BoxCodec for AVCSampleEntry {
    open spec fn box_type() -> u32 {
        AVC1
    }

    open spec fn body(v: VisualSampleEntryView) -> Seq<u8> {
        VisualSampleEntry::bytes(v)
    }

    open spec fn canonical(v: VisualSampleEntryView) -> bool {
        VisualSampleEntry::canonical(v)
    }

    proof fn lemma_box(v: VisualSampleEntryView) {
        assert(Self::box_type() == AVC1);
        assert(Self::body(v) == VisualSampleEntry::bytes(v));
        assert(Self::encodable(v) == (fits(VisualSampleEntry::bytes(v))));
        assert(Self::bytes(v) == box_bytes(AVC1, VisualSampleEntry::bytes(v)));
    }

    proof fn lemma_round_trip(v: VisualSampleEntryView) {
        law_visual_round_trip(v);
    }

    open spec fn normal(v: VisualSampleEntryView) -> VisualSampleEntryView {
        v
    }

    proof fn lemma_normal(v: VisualSampleEntryView) {
        assert(Self::normal(v) == v);
    }

    open spec fn shaped(v: VisualSampleEntryView) -> bool {
        Self::canonical(v)
    }

    proof fn lemma_decoded(v: VisualSampleEntryView) {
        assert(Self::normal(v) == v);
        assert(Self::shaped(v) == Self::canonical(v));
    }
}

/// A description of AAC audio samples (`mp4a`).
#[derive(Clone, Debug, PartialEq, Eq)]
pub struct AACSampleEntry {
    pub base: AudioSampleEntry,
}

impl View for AACSampleEntry {
    type V = AudioSampleEntryView;

    open spec fn view(&self) -> AudioSampleEntryView {
        self.base@
    }
}

impl Encode for AACSampleEntry {
    open spec fn bytes(v: AudioSampleEntryView) -> Seq<u8> {
        box_bytes(MP4A, AudioSampleEntry::bytes(v))
    }

    open spec fn encodable(v: AudioSampleEntryView) -> bool {
        fits(AudioSampleEntry::bytes(v))
    }

    fn size(&self) -> (n: u64) {
        add_size(8, self.base.size())
    }

    fn encode_with(&self, output: &mut Vec<u8>, framing: Framing) -> (r: Result<(), Error>) {
        let ghost before = output@;
        let begin: u64 = open_box(output, MP4A, self.size(), framing, Ghost(AudioSampleEntry::bytes(self@)))?;
        let _ = self.base.encode(output);
        assert(output@ =~= before + be_u32(pending(framing, AudioSampleEntry::bytes(self@))) + be_u32(MP4A) + AudioSampleEntry::bytes(self@));
        close_box(output, begin, framing, Ghost(before), Ghost(MP4A), Ghost(AudioSampleEntry::bytes(self@)))
    }
}

impl Decode for AACSampleEntry {
    open spec fn parse(input: Seq<u8>) -> Result<(AudioSampleEntryView, int), Error> {
        AudioSampleEntry::parse(input)
    }

    fn decode(input: &mut &[u8]) -> (r: Result<Self, Error>) {
        Ok(AACSampleEntry { base: AudioSampleEntry::decode(input)? })
    }
}

impl BoxCodec for AACSampleEntry {
    open spec fn box_type() -> u32 {
        MP4A
    }

    open spec fn body(v: AudioSampleEntryView) -> Seq<u8> {
        AudioSampleEntry::bytes(v)
    }

    open spec fn canonical(v: AudioSampleEntryView) -> bool {
        true
    }

    proof fn lemma_box(v: AudioSampleEntryView) {
        assert(Self::box_type() == MP4A);
        assert(Self::body(v) == AudioSampleEntry::bytes(v));
        assert(Self::encodable(v) == (fits(AudioSampleEntry::bytes(v))));
        assert(Self::bytes(v) == box_bytes(MP4A, AudioSampleEntry::bytes(v)));
    }

    proof fn lemma_round_trip(v: AudioSampleEntryView) {
        law_audio_round_trip(v);
    }

    open spec fn normal(v: AudioSampleEntryView) -> AudioSampleEntryView {
        v
    }

    proof fn lemma_normal(v: AudioSampleEntryView) {
        assert(Self::normal(v) == v);
    }

    open spec fn shaped(v: AudioSampleEntryView) -> bool {
        Self::canonical(v)
    }

    proof fn lemma_decoded(v: AudioSampleEntryView) {
        assert(Self::normal(v) == v);
        assert(Self::shaped(v) == Self::canonical(v));
    }
}

/// The description of the samples of a track (`stsd`): one entry, of one of
/// the codecs that are known.
#[derive(Clone, Debug, PartialEq, Eq)]
pub enum SampleDescriptionBox {
    AV1(AV1SampleEntry),
    AVC(AVCSampleEntry),
    AAC(AACSampleEntry),
}

/// A `SampleDescriptionBox` as a mathematical value.
pub enum SampleDescriptionView {
    AV1(VisualSampleEntryView),
    AVC(VisualSampleEntryView),
    AAC(AudioSampleEntryView),
}

impl View for SampleDescriptionBox {
    type V = SampleDescriptionView;

    open spec fn view(&self) -> SampleDescriptionView {
        match self {
            SampleDescriptionBox::AV1(entry) => SampleDescriptionView::AV1(entry@),
            SampleDescriptionBox::AVC(entry) => SampleDescriptionView::AVC(entry@),
            SampleDescriptionBox::AAC(entry) => SampleDescriptionView::AAC(entry@),
        }
    }
}

impl SampleDescriptionBox {
    /// The bytes of the entry, a box of the type of its codec.
    pub open spec fn entry_bytes(v: SampleDescriptionView) -> Seq<u8> {
        match v {
            SampleDescriptionView::AV1(entry) => AV1SampleEntry::bytes(entry),
            SampleDescriptionView::AVC(entry) => AVCSampleEntry::bytes(entry),
            SampleDescriptionView::AAC(entry) => AACSampleEntry::bytes(entry),
        }
    }

    /// The body: version 0 and no flags, an entry count of one, the entry.
    pub open spec fn body_bytes(v: SampleDescriptionView) -> Seq<u8> {
        be_u32(0) + be_u32(1) + Self::entry_bytes(v)
    }

    /// What the entry box with the given type and body decodes to; a type
    /// that is not known is malformed.
    pub open spec fn parse_entry(box_type: u32, body: Seq<u8>) -> Result<
        SampleDescriptionView,
        Error,
    > {
        if box_type == AV01 {
            match child::<AV1SampleEntry>(body) {
                Ok(entry) => Ok(SampleDescriptionView::AV1(entry)),
                Err(e) => Err(e),
            }
        } else if box_type == AVC1 {
            match child::<AVCSampleEntry>(body) {
                Ok(entry) => Ok(SampleDescriptionView::AVC(entry)),
                Err(e) => Err(e),
            }
        } else if box_type == MP4A {
            match child::<AACSampleEntry>(body) {
                Ok(entry) => Ok(SampleDescriptionView::AAC(entry)),
                Err(e) => Err(e),
            }
        } else {
            Err(malformed())
        }
    }
}

impl Encode for SampleDescriptionBox {
    open spec fn bytes(v: SampleDescriptionView) -> Seq<u8> {
        box_bytes(STSD, Self::body_bytes(v))
    }

    open spec fn encodable(v: SampleDescriptionView) -> bool {
        fits(Self::body_bytes(v))
    }

    fn size(&self) -> (n: u64) {
        let entry: u64 = match self {
            SampleDescriptionBox::AV1(entry) => entry.size(),
            SampleDescriptionBox::AVC(entry) => entry.size(),
            SampleDescriptionBox::AAC(entry) => entry.size(),
        };
        add_size(16, entry)
    }

    fn encode_with(&self, output: &mut Vec<u8>, framing: Framing) -> (r: Result<(), Error>) {
        let ghost before = output@;
        let begin: u64 = open_box(output, STSD, self.size(), framing, Ghost(Self::body_bytes(self@)))?;
        put_u32(output, 0);
        put_u32(output, 1);
        match self {
            SampleDescriptionBox::AV1(entry) => entry.encode_with(output, framing)?,
            SampleDescriptionBox::AVC(entry) => entry.encode_with(output, framing)?,
            SampleDescriptionBox::AAC(entry) => entry.encode_with(output, framing)?,
        }
        assert(output@ =~= before + be_u32(pending(framing, Self::body_bytes(self@))) + be_u32(STSD) + Self::body_bytes(self@));
        close_box(output, begin, framing, Ghost(before), Ghost(STSD), Ghost(Self::body_bytes(self@)))
    }
}

impl Decode for SampleDescriptionBox {
    /// Only version 0 and an entry count of one are known. The entry is a
    /// box; what follows it is left where it is.
    open spec fn parse(input: Seq<u8>) -> Result<(SampleDescriptionView, int), Error> {
        let size = u32_at(input, 8) as int;
        if input.len() < 4 {
            Err(eof())
        } else if version_of(input) != 0 {
            Err(malformed())
        } else if input.len() < 8 {
            Err(eof())
        } else if u32_at(input, 4) != 1 {
            Err(malformed())
        } else if input.len() < 16 {
            Err(eof())
        } else if size < 8 {
            Err(malformed())
        } else if input.len() < 8 + size {
            Err(eof())
        } else {
            match Self::parse_entry(u32_at(input, 12), input.subrange(16, 8 + size)) {
                Ok(v) => Ok((v, 8 + size)),
                Err(e) => Err(e),
            }
        }
    }

    fn decode(input: &mut &[u8]) -> (r: Result<Self, Error>) {
        let b: &[u8] = *input;
        if b.len() < 4 {
            return Err(Error::Io(IoError::UnexpectedEof));
        }
        if get_u32(b, 0) / 0x100_0000 != 0 {
            return Err(Error::Io(IoError::InvalidData));
        }
        if b.len() < 8 {
            return Err(Error::Io(IoError::UnexpectedEof));
        }
        if get_u32(b, 4) != 1 {
            return Err(Error::Io(IoError::InvalidData));
        }
        if b.len() < 16 {
            return Err(Error::Io(IoError::UnexpectedEof));
        }
        let size: u32 = get_u32(b, 8);
        let box_type: u32 = get_u32(b, 12);
        if size < 8 {
            return Err(Error::Io(IoError::InvalidData));
        }
        if b.len() - 8 < size as usize {
            return Err(Error::Io(IoError::UnexpectedEof));
        }
        let end: usize = 8 + size as usize;
        let mut body: &[u8] = slice_subrange(b, 16, end);
        let v = if box_type == AV01 {
            SampleDescriptionBox::AV1(AV1SampleEntry::decode(&mut body)?)
        } else if box_type == AVC1 {
            SampleDescriptionBox::AVC(AVCSampleEntry::decode(&mut body)?)
        } else if box_type == MP4A {
            SampleDescriptionBox::AAC(AACSampleEntry::decode(&mut body)?)
        } else {
            return Err(Error::Io(IoError::InvalidData));
        };
        *input = slice_subrange(b, end, b.len());
        Ok(v)
    }
}

impl BoxCodec for SampleDescriptionBox {
    open spec fn box_type() -> u32 {
        STSD
    }

    open spec fn body(v: SampleDescriptionView) -> Seq<u8> {
        Self::body_bytes(v)
    }

    open spec fn canonical(v: SampleDescriptionView) -> bool {
        match v {
            SampleDescriptionView::AV1(entry) => AV1SampleEntry::canonical(entry),
            SampleDescriptionView::AVC(entry) => AVCSampleEntry::canonical(entry),
            SampleDescriptionView::AAC(entry) => AACSampleEntry::canonical(entry),
        }
    }

    proof fn lemma_box(v: SampleDescriptionView) {
        assert(Self::box_type() == STSD);
        assert(Self::body(v) == Self::body_bytes(v));
        assert(Self::encodable(v) == (fits(Self::body_bytes(v))));
        assert(Self::bytes(v) == box_bytes(STSD, Self::body_bytes(v)));
    }

    proof fn lemma_round_trip(v: SampleDescriptionView) {
        let all = Self::body_bytes(v);
        let entry = Self::entry_bytes(v);
        let head = be_u32(0) + be_u32(1);
        assert(all == head + entry);
        match v {
            SampleDescriptionView::AV1(e) => {
                AV1SampleEntry::lemma_round_trip(e);
                assert(all.subrange(16, 8 + entry.len() as int) =~= AV1SampleEntry::body(e));
            },
            SampleDescriptionView::AVC(e) => {
                AVCSampleEntry::lemma_round_trip(e);
                assert(all.subrange(16, 8 + entry.len() as int) =~= AVCSampleEntry::body(e));
            },
            SampleDescriptionView::AAC(e) => {
                AACSampleEntry::lemma_round_trip(e);
                assert(all.subrange(16, 8 + entry.len() as int) =~= AACSampleEntry::body(e));
            },
        }
    }

    open spec fn normal(v: SampleDescriptionView) -> SampleDescriptionView {
        v
    }

    proof fn lemma_normal(v: SampleDescriptionView) {
        assert(Self::normal(v) == v);
    }

    open spec fn shaped(v: SampleDescriptionView) -> bool {
        Self::canonical(v)
    }

    proof fn lemma_decoded(v: SampleDescriptionView) {
        assert(Self::normal(v) == v);
        assert(Self::shaped(v) == Self::canonical(v));
    }
}

} // verus!
