//! The sample table of a track and the tables in it: durations, sync
//! samples, sizes, chunks and their places, and groups.

use vstd::prelude::*;
use vstd::slice::slice_subrange;

use crate::bytes::{
    add_size, be_u32, get_u32, group_big_endian, put_u32, u32_at, version_of, Decode, Encode,
    Framing,
};
use crate::error::{eof, malformed, Error, IoError};
use crate::fourcc::{FourCC, SBGP, STBL, STCO, STSC, STSD, STSS, STSZ, STTS};
use crate::framing::{
    box_bytes, child, close_box, decode_optional, decode_required, fits, lemma_child_first,
    lemma_child_split, lemma_nested, lemma_normal_bytes, lemma_option_first, lemma_option_split,
    lemma_select_first, open_box, option_bytes, option_view, optional, pending, put_child,
    put_optional_child, required, size_option, split, split_boxes, BoxCodec, RawBox,
};
use crate::sample_entry::{SampleDescriptionBox, SampleDescriptionView};
use crate::table::{
    counted_body, counted_parse, decode_counted, encode_counted, get_table,
    lemma_counted_round_trip, lemma_table_len, lemma_table_round_trip, put_table, table_at,
    table_bytes, table_size, Record,
};

verus! {

broadcast use {vstd::slice::group_slice_axioms, group_big_endian};

/// A run of samples of one duration: how many they are, and the duration of each.
#[derive(Clone, Copy, Debug, PartialEq, Eq, Structural)]
pub struct TimeToSampleEntry {
    pub sample_count: u32,
    pub sample_delta: u32,
}

impl Record for TimeToSampleEntry {
    open spec fn width() -> int {
        8
    }

    open spec fn record_bytes(self) -> Seq<u8> {
        be_u32(self.sample_count) + be_u32(self.sample_delta)
    }

    open spec fn record_at(input: Seq<u8>, offset: int) -> TimeToSampleEntry {
        TimeToSampleEntry {
            sample_count: u32_at(input, offset),
            sample_delta: u32_at(input, offset + 4),
        }
    }

    fn exec_width() -> (w: usize) {
        8
    }

    fn put(&self, output: &mut Vec<u8>) {
        put_u32(output, self.sample_count);
        put_u32(output, self.sample_delta);
        assert(output@ =~= old(output)@ + self.record_bytes());
    }

    fn get(input: &[u8], offset: usize) -> (r: TimeToSampleEntry) {
        TimeToSampleEntry {
            sample_count: get_u32(input, offset),
            sample_delta: get_u32(input, offset + 4),
        }
    }

    proof fn lemma_width() {
    }

    proof fn lemma_record(self) {
    }

    proof fn lemma_record_at(s: Seq<u8>, t: Seq<u8>, i: int) {
    }
}

/// The durations of the samples of a track (`stts`), as runs of equal
/// durations in the order of the samples.
#[derive(Clone, Debug, PartialEq, Eq)]
pub struct TimeToSampleBox(pub Vec<TimeToSampleEntry>);

impl View for TimeToSampleBox {
    type V = Seq<TimeToSampleEntry>;

    open spec fn view(&self) -> Seq<TimeToSampleEntry> {
        self.0@
    }
}

impl Encode for TimeToSampleBox {
    open spec fn bytes(v: Seq<TimeToSampleEntry>) -> Seq<u8> {
        box_bytes(STTS, counted_body(v))
    }

    open spec fn encodable(v: Seq<TimeToSampleEntry>) -> bool {
        fits(counted_body(v))
    }

    fn size(&self) -> (n: u64) {
        add_size(16, table_size(&self.0))
    }

    fn encode_with(&self, output: &mut Vec<u8>, framing: Framing) -> (r: Result<(), Error>) {
        encode_counted(STTS, &self.0, output, framing)
    }
}

impl Decode for TimeToSampleBox {
    open spec fn parse(input: Seq<u8>) -> Result<(Seq<TimeToSampleEntry>, int), Error> {
        counted_parse::<TimeToSampleEntry>(input)
    }

    fn decode(input: &mut &[u8]) -> (r: Result<Self, Error>) {
        Ok(TimeToSampleBox(decode_counted::<TimeToSampleEntry>(input)?))
    }
}

impl BoxCodec for TimeToSampleBox {
    open spec fn box_type() -> u32 {
        STTS
    }

    open spec fn body(v: Seq<TimeToSampleEntry>) -> Seq<u8> {
        counted_body(v)
    }

    open spec fn canonical(v: Seq<TimeToSampleEntry>) -> bool {
        true
    }

    proof fn lemma_box(v: Seq<TimeToSampleEntry>) {
        assert(Self::box_type() == STTS);
        assert(Self::body(v) == counted_body(v));
        assert(Self::encodable(v) == (fits(counted_body(v))));
        assert(Self::bytes(v) == box_bytes(STTS, counted_body(v)));
    }

    proof fn lemma_round_trip(v: Seq<TimeToSampleEntry>) {
        lemma_counted_round_trip::<TimeToSampleEntry>(v);
    }

    open spec fn normal(v: Seq<TimeToSampleEntry>) -> Seq<TimeToSampleEntry> {
        v
    }

    proof fn lemma_normal(v: Seq<TimeToSampleEntry>) {
        assert(Self::normal(v) == v);
    }

    open spec fn shaped(v: Seq<TimeToSampleEntry>) -> bool {
        Self::canonical(v)
    }

    proof fn lemma_decoded(v: Seq<TimeToSampleEntry>) {
        assert(Self::normal(v) == v);
        assert(Self::shaped(v) == Self::canonical(v));
    }
}

/// The numbers of the samples at which decoding can start (`stss`), counted
/// from one.
#[derive(Clone, Debug, PartialEq, Eq)]
pub struct SyncSampleBox(pub Vec<u32>);

impl View for SyncSampleBox {
    type V = Seq<u32>;

    open spec fn view(&self) -> Seq<u32> {
        self.0@
    }
}

impl Encode for SyncSampleBox {
    open spec fn bytes(v: Seq<u32>) -> Seq<u8> {
        box_bytes(STSS, counted_body(v))
    }

    open spec fn encodable(v: Seq<u32>) -> bool {
        fits(counted_body(v))
    }

    fn size(&self) -> (n: u64) {
        add_size(16, table_size(&self.0))
    }

    fn encode_with(&self, output: &mut Vec<u8>, framing: Framing) -> (r: Result<(), Error>) {
        encode_counted(STSS, &self.0, output, framing)
    }
}

impl Decode for SyncSampleBox {
    open spec fn parse(input: Seq<u8>) -> Result<(Seq<u32>, int), Error> {
        counted_parse::<u32>(input)
    }

    fn decode(input: &mut &[u8]) -> (r: Result<Self, Error>) {
        Ok(SyncSampleBox(decode_counted::<u32>(input)?))
    }
}

impl BoxCodec for SyncSampleBox {
    open spec fn box_type() -> u32 {
        STSS
    }

    open spec fn body(v: Seq<u32>) -> Seq<u8> {
        counted_body(v)
    }

    open spec fn canonical(v: Seq<u32>) -> bool {
        true
    }

    proof fn lemma_box(v: Seq<u32>) {
        assert(Self::box_type() == STSS);
        assert(Self::body(v) == counted_body(v));
        assert(Self::encodable(v) == (fits(counted_body(v))));
        assert(Self::bytes(v) == box_bytes(STSS, counted_body(v)));
    }

    proof fn lemma_round_trip(v: Seq<u32>) {
        lemma_counted_round_trip::<u32>(v);
    }

    open spec fn normal(v: Seq<u32>) -> Seq<u32> {
        v
    }

    proof fn lemma_normal(v: Seq<u32>) {
        assert(Self::normal(v) == v);
    }

    open spec fn shaped(v: Seq<u32>) -> bool {
        Self::canonical(v)
    }

    proof fn lemma_decoded(v: Seq<u32>) {
        assert(Self::normal(v) == v);
        assert(Self::shaped(v) == Self::canonical(v));
    }
}

/// A run of chunks with one number of samples: the number of its first
/// chunk, counted from one, the samples in each of its chunks, and the number
/// of the description that their samples use.
#[derive(Clone, Copy, Debug, PartialEq, Eq, Structural)]
pub struct SampleToChunkEntry {
    pub first_chunk: u32,
    pub samples_per_chunk: u32,
    pub sample_description_index: u32,
}

impl Record for SampleToChunkEntry {
    open spec fn width() -> int {
        12
    }

    open spec fn record_bytes(self) -> Seq<u8> {
        be_u32(self.first_chunk) + be_u32(self.samples_per_chunk) + be_u32(self.sample_description_index)
    }

    open spec fn record_at(input: Seq<u8>, offset: int) -> SampleToChunkEntry {
        SampleToChunkEntry {
            first_chunk: u32_at(input, offset),
            samples_per_chunk: u32_at(input, offset + 4),
            sample_description_index: u32_at(input, offset + 8),
        }
    }

    fn exec_width() -> (w: usize) {
        12
    }

    fn put(&self, output: &mut Vec<u8>) {
        put_u32(output, self.first_chunk);
        put_u32(output, self.samples_per_chunk);
        put_u32(output, self.sample_description_index);
        assert(output@ =~= old(output)@ + self.record_bytes());
    }

    fn get(input: &[u8], offset: usize) -> (r: SampleToChunkEntry) {
        SampleToChunkEntry {
            first_chunk: get_u32(input, offset),
            samples_per_chunk: get_u32(input, offset + 4),
            sample_description_index: get_u32(input, offset + 8),
        }
    }

    proof fn lemma_width() {
    }

    proof fn lemma_record(self) {
    }

    proof fn lemma_record_at(s: Seq<u8>, t: Seq<u8>, i: int) {
    }
}

/// How many samples each chunk holds (`stsc`), as runs of chunks with the
/// same number of samples, in the order of the chunks.
#[derive(Clone, Debug, PartialEq, Eq)]
pub struct SampleToChunkBox(pub Vec<SampleToChunkEntry>);

impl View for SampleToChunkBox {
    type V = Seq<SampleToChunkEntry>;

    open spec fn view(&self) -> Seq<SampleToChunkEntry> {
        self.0@
    }
}

impl Encode for SampleToChunkBox {
    open spec fn bytes(v: Seq<SampleToChunkEntry>) -> Seq<u8> {
        box_bytes(STSC, counted_body(v))
    }

    open spec fn encodable(v: Seq<SampleToChunkEntry>) -> bool {
        fits(counted_body(v))
    }

    fn size(&self) -> (n: u64) {
        add_size(16, table_size(&self.0))
    }

    fn encode_with(&self, output: &mut Vec<u8>, framing: Framing) -> (r: Result<(), Error>) {
        encode_counted(STSC, &self.0, output, framing)
    }
}

impl Decode for SampleToChunkBox {
    open spec fn parse(input: Seq<u8>) -> Result<(Seq<SampleToChunkEntry>, int), Error> {
        counted_parse::<SampleToChunkEntry>(input)
    }

    fn decode(input: &mut &[u8]) -> (r: Result<Self, Error>) {
        Ok(SampleToChunkBox(decode_counted::<SampleToChunkEntry>(input)?))
    }
}

impl BoxCodec for SampleToChunkBox {
    open spec fn box_type() -> u32 {
        STSC
    }

    open spec fn body(v: Seq<SampleToChunkEntry>) -> Seq<u8> {
        counted_body(v)
    }

    open spec fn canonical(v: Seq<SampleToChunkEntry>) -> bool {
        true
    }

    proof fn lemma_box(v: Seq<SampleToChunkEntry>) {
        assert(Self::box_type() == STSC);
        assert(Self::body(v) == counted_body(v));
        assert(Self::encodable(v) == (fits(counted_body(v))));
        assert(Self::bytes(v) == box_bytes(STSC, counted_body(v)));
    }

    proof fn lemma_round_trip(v: Seq<SampleToChunkEntry>) {
        lemma_counted_round_trip::<SampleToChunkEntry>(v);
    }

    open spec fn normal(v: Seq<SampleToChunkEntry>) -> Seq<SampleToChunkEntry> {
        v
    }

    proof fn lemma_normal(v: Seq<SampleToChunkEntry>) {
        assert(Self::normal(v) == v);
    }

    open spec fn shaped(v: Seq<SampleToChunkEntry>) -> bool {
        Self::canonical(v)
    }

    proof fn lemma_decoded(v: Seq<SampleToChunkEntry>) {
        assert(Self::normal(v) == v);
        assert(Self::shaped(v) == Self::canonical(v));
    }
}

/// Where in the file each chunk begins (`stco`), in the order of the chunks.
#[derive(Clone, Debug, PartialEq, Eq)]
pub struct ChunkOffsetBox(pub Vec<u32>);

impl View for ChunkOffsetBox {
    type V = Seq<u32>;

    open spec fn view(&self) -> Seq<u32> {
        self.0@
    }
}

impl Encode for ChunkOffsetBox {
    open spec fn bytes(v: Seq<u32>) -> Seq<u8> {
        box_bytes(STCO, counted_body(v))
    }

    open spec fn encodable(v: Seq<u32>) -> bool {
        fits(counted_body(v))
    }

    fn size(&self) -> (n: u64) {
        add_size(16, table_size(&self.0))
    }

    fn encode_with(&self, output: &mut Vec<u8>, framing: Framing) -> (r: Result<(), Error>) {
        encode_counted(STCO, &self.0, output, framing)
    }
}

impl Decode for ChunkOffsetBox {
    open spec fn parse(input: Seq<u8>) -> Result<(Seq<u32>, int), Error> {
        counted_parse::<u32>(input)
    }

    fn decode(input: &mut &[u8]) -> (r: Result<Self, Error>) {
        Ok(ChunkOffsetBox(decode_counted::<u32>(input)?))
    }
}

impl BoxCodec for ChunkOffsetBox {
    open spec fn box_type() -> u32 {
        STCO
    }

    open spec fn body(v: Seq<u32>) -> Seq<u8> {
        counted_body(v)
    }

    open spec fn canonical(v: Seq<u32>) -> bool {
        true
    }

    proof fn lemma_box(v: Seq<u32>) {
        assert(Self::box_type() == STCO);
        assert(Self::body(v) == counted_body(v));
        assert(Self::encodable(v) == (fits(counted_body(v))));
        assert(Self::bytes(v) == box_bytes(STCO, counted_body(v)));
    }

    proof fn lemma_round_trip(v: Seq<u32>) {
        lemma_counted_round_trip::<u32>(v);
    }

    open spec fn normal(v: Seq<u32>) -> Seq<u32> {
        v
    }

    proof fn lemma_normal(v: Seq<u32>) {
        assert(Self::normal(v) == v);
    }

    open spec fn shaped(v: Seq<u32>) -> bool {
        Self::canonical(v)
    }

    proof fn lemma_decoded(v: Seq<u32>) {
        assert(Self::normal(v) == v);
        assert(Self::shaped(v) == Self::canonical(v));
    }
}

/// A run of samples of one group: how many they are, and the number of the
/// description of their group.
#[derive(Clone, Copy, Debug, PartialEq, Eq, Structural)]
pub struct SampleToGroupEntry {
    pub sample_count: u32,
    pub group_description_index: u32,
}

impl Record for SampleToGroupEntry {
    open spec fn width() -> int {
        8
    }

    open spec fn record_bytes(self) -> Seq<u8> {
        be_u32(self.sample_count) + be_u32(self.group_description_index)
    }

    open spec fn record_at(input: Seq<u8>, offset: int) -> SampleToGroupEntry {
        SampleToGroupEntry {
            sample_count: u32_at(input, offset),
            group_description_index: u32_at(input, offset + 4),
        }
    }

    fn exec_width() -> (w: usize) {
        8
    }

    fn put(&self, output: &mut Vec<u8>) {
        put_u32(output, self.sample_count);
        put_u32(output, self.group_description_index);
        assert(output@ =~= old(output)@ + self.record_bytes());
    }

    fn get(input: &[u8], offset: usize) -> (r: SampleToGroupEntry) {
        SampleToGroupEntry {
            sample_count: get_u32(input, offset),
            group_description_index: get_u32(input, offset + 4),
        }
    }

    proof fn lemma_width() {
    }

    proof fn lemma_record(self) {
    }

    proof fn lemma_record_at(s: Seq<u8>, t: Seq<u8>, i: int) {
    }
}

/// The samples of a track by the group that each belongs to (`sbgp`): the
/// kind of grouping, then runs of samples of one group.
#[derive(Clone, Debug, PartialEq, Eq)]
pub struct SampleToGroupBox(pub FourCC, pub Vec<SampleToGroupEntry>);

impl View for SampleToGroupBox {
    type V = (FourCC, Seq<SampleToGroupEntry>);

    open spec fn view(&self) -> (FourCC, Seq<SampleToGroupEntry>) {
        (self.0, self.1@)
    }
}

impl SampleToGroupBox {
    /// The body: version 0 and no flags, the kind of grouping, the number of
    /// runs, the runs.
    pub open spec fn body_bytes(v: (FourCC, Seq<SampleToGroupEntry>)) -> Seq<u8> {
        be_u32(0) + be_u32(v.0.0) + be_u32(v.1.len() as u32) + table_bytes(v.1)
    }
}

impl Encode for SampleToGroupBox {
    open spec fn bytes(v: (FourCC, Seq<SampleToGroupEntry>)) -> Seq<u8> {
        box_bytes(SBGP, Self::body_bytes(v))
    }

    open spec fn encodable(v: (FourCC, Seq<SampleToGroupEntry>)) -> bool {
        fits(Self::body_bytes(v))
    }

    fn size(&self) -> (n: u64) {
        add_size(20, table_size(&self.1))
    }

    fn encode_with(&self, output: &mut Vec<u8>, framing: Framing) -> (r: Result<(), Error>) {
        let ghost before = output@;
        proof {
            lemma_table_len(self.1@);
        }
        if self.1.len() > 0xffff_ffff {
            return Err(Error::Io(IoError::InvalidInput));
        }
        let begin: u64 = open_box(output, SBGP, self.size(), framing, Ghost(Self::body_bytes(self@)))?;
        put_u32(output, 0);
        put_u32(output, self.0.0);
        put_u32(output, self.1.len() as u32);
        put_table(output, &self.1);
        assert(output@ =~= before + be_u32(pending(framing, Self::body_bytes(self@))) + be_u32(SBGP) + Self::body_bytes(self@));
        close_box(output, begin, framing, Ghost(before), Ghost(SBGP), Ghost(Self::body_bytes(self@)))
    }
}

impl Decode for SampleToGroupBox {
    /// Only version 0 is known. The runs end the part that is taken.
    open spec fn parse(input: Seq<u8>) -> Result<((FourCC, Seq<SampleToGroupEntry>), int), Error> {
        let count = u32_at(input, 8) as int;
        if input.len() < 4 {
            Err(eof())
        } else if version_of(input) != 0 {
            Err(malformed())
        } else if input.len() < 12 {
            Err(eof())
        } else if input.len() < 12 + count * 8 {
            Err(eof())
        } else {
            Ok(
                (
                    (FourCC(u32_at(input, 4)), table_at::<SampleToGroupEntry>(input, 12, count)),
                    12 + count * 8,
                ),
            )
        }
    }

    fn decode(input: &mut &[u8]) -> (r: Result<Self, Error>) {
        let b: &[u8] = *input;
        if b.len() < 4 {
            return Err(Error::Io(IoError::UnexpectedEof));
        }
        if get_u32(b, 0) / 0x100_0000 != 0 {
            return Err(Error::Io(IoError::InvalidData));
        }
        if b.len() < 12 {
            return Err(Error::Io(IoError::UnexpectedEof));
        }
        let grouping_type = FourCC(get_u32(b, 4));
        let count: u32 = get_u32(b, 8);
        if count as usize > (b.len() - 12) / 8 {
            return Err(Error::Io(IoError::UnexpectedEof));
        }
        let entries = get_table::<SampleToGroupEntry>(b, 12, count as usize);
        *input = slice_subrange(b, 12 + count as usize * 8, b.len());
        Ok(SampleToGroupBox(grouping_type, entries))
    }
}

impl BoxCodec for SampleToGroupBox {
    open spec fn box_type() -> u32 {
        SBGP
    }

    open spec fn body(v: (FourCC, Seq<SampleToGroupEntry>)) -> Seq<u8> {
        Self::body_bytes(v)
    }

    open spec fn canonical(v: (FourCC, Seq<SampleToGroupEntry>)) -> bool {
        true
    }

    proof fn lemma_box(v: (FourCC, Seq<SampleToGroupEntry>)) {
        assert(Self::box_type() == SBGP);
        assert(Self::body(v) == Self::body_bytes(v));
        assert(Self::encodable(v) == (fits(Self::body_bytes(v))));
        assert(Self::bytes(v) == box_bytes(SBGP, Self::body_bytes(v)));
    }

    proof fn lemma_round_trip(v: (FourCC, Seq<SampleToGroupEntry>)) {
        let head = be_u32(0) + be_u32(v.0.0) + be_u32(v.1.len() as u32);
        lemma_table_len(v.1);
        lemma_table_round_trip(head, v.1, Seq::<u8>::empty());
        assert(head + table_bytes(v.1) + Seq::<u8>::empty() =~= Self::body_bytes(v));
    }

    open spec fn normal(v: (FourCC, Seq<SampleToGroupEntry>)) -> (FourCC, Seq<SampleToGroupEntry>) {
        v
    }

    proof fn lemma_normal(v: (FourCC, Seq<SampleToGroupEntry>)) {
        assert(Self::normal(v) == v);
    }

    open spec fn shaped(v: (FourCC, Seq<SampleToGroupEntry>)) -> bool {
        Self::canonical(v)
    }

    proof fn lemma_decoded(v: (FourCC, Seq<SampleToGroupEntry>)) {
        assert(Self::normal(v) == v);
        assert(Self::shaped(v) == Self::canonical(v));
    }
}

/// The sizes of the samples of a track (`stsz`): one size that all samples
/// have, with their number, or the size of each.
#[derive(Clone, Debug, PartialEq, Eq)]
pub enum SampleSizeBox {
    Value { sample_size: u32, sample_count: u32 },
    PerSample(Vec<u32>),
}

/// A `SampleSizeBox` as a mathematical value.
pub enum SampleSizeView {
    Value { sample_size: u32, sample_count: u32 },
    PerSample(Seq<u32>),
}

impl View for SampleSizeBox {
    type V = SampleSizeView;

    open spec fn view(&self) -> SampleSizeView {
        match self {
            SampleSizeBox::Value { sample_size, sample_count } => SampleSizeView::Value {
                sample_size: *sample_size,
                sample_count: *sample_count,
            },
            SampleSizeBox::PerSample(sizes) => SampleSizeView::PerSample(sizes@),
        }
    }
}

/// Whether all sizes are the same one, which is not zero, and there is at
/// least one.
pub open spec fn uniform(sizes: Seq<u32>) -> bool {
    sizes.len() > 0 && sizes[0] != 0 && forall|i: int|
        0 <= i < sizes.len() ==> #[trigger] sizes[i] == sizes[0]
}

impl SampleSizeBox {
    /// The body: version 0 and no flags, the size that all samples have or
    /// zero, the number of samples, and after a zero the size of each.
    pub open spec fn body_bytes(v: SampleSizeView) -> Seq<u8> {
        match v {
            SampleSizeView::Value { sample_size, sample_count } => be_u32(0) + be_u32(sample_size)
                + be_u32(sample_count),
            SampleSizeView::PerSample(sizes) => be_u32(0) + be_u32(0) + be_u32(sizes.len() as u32)
                + table_bytes(sizes),
        }
    }

    /// The sizes of the samples of a track in their shortest form: one size
    /// where all samples have the same size and it is not zero, else the
    /// size of each. More samples than 32 bits can count have no short form.
    pub open spec fn shortest(sizes: Seq<u32>) -> SampleSizeView {
        if uniform(sizes) && sizes.len() <= u32::MAX {
            SampleSizeView::Value { sample_size: sizes[0], sample_count: sizes.len() as u32 }
        } else {
            SampleSizeView::PerSample(sizes)
        }
    }

    /// The sizes of the samples of a track in their shortest form.
    pub fn from_sizes(sizes: Vec<u32>) -> (r: SampleSizeBox)
        ensures
            r@ == Self::shortest(sizes@),
    {
        let count: usize = sizes.len();
        if count == 0 || count > 0xffff_ffff || sizes[0] == 0 {
            return SampleSizeBox::PerSample(sizes);
        }
        let first: u32 = sizes[0];
        let mut i: usize = 1;
        while i < count
            invariant
                1 <= i <= count,
                count == sizes@.len(),
                first == sizes@[0],
                forall|j: int| 0 <= j < i ==> sizes@[j] == first,
            decreases count - i,
        {
            if sizes[i] != first {
                return SampleSizeBox::PerSample(sizes);
            }
            i = i + 1;
        }
        SampleSizeBox::Value { sample_size: first, sample_count: count as u32 }
    }
}

/// The shortest form of the sizes of the samples is one size exactly where
/// all samples have the same size, which is not zero; and decoding its
/// bytes gives it back.
pub proof fn law_shortest_sizes(sizes: Seq<u32>)
    requires
        sizes.len() <= u32::MAX,
    ensures
        SampleSizeBox::shortest(sizes) is Value <==> uniform(sizes),
        SampleSizeBox::shortest(sizes) is PerSample ==> SampleSizeBox::shortest(sizes)
            == SampleSizeView::PerSample(sizes),
        SampleSizeBox::canonical(SampleSizeBox::shortest(sizes)),
{
}

impl Encode for SampleSizeBox {
    open spec fn bytes(v: SampleSizeView) -> Seq<u8> {
        box_bytes(STSZ, Self::body_bytes(v))
    }

    open spec fn encodable(v: SampleSizeView) -> bool {
        fits(Self::body_bytes(v))
    }

    fn size(&self) -> (n: u64) {
        match self {
            SampleSizeBox::Value { .. } => 20,
            SampleSizeBox::PerSample(sizes) => add_size(20, table_size(sizes)),
        }
    }

    fn encode_with(&self, output: &mut Vec<u8>, framing: Framing) -> (r: Result<(), Error>) {
        let ghost before = output@;
        match self {
            SampleSizeBox::Value { sample_size, sample_count } => {
                let begin: u64 = open_box(output, STSZ, self.size(), framing, Ghost(Self::body_bytes(self@)))?;
                put_u32(output, 0);
                put_u32(output, *sample_size);
                put_u32(output, *sample_count);
                assert(output@ =~= before + be_u32(pending(framing, Self::body_bytes(self@))) + be_u32(STSZ) + Self::body_bytes(self@));
                close_box(output, begin, framing, Ghost(before), Ghost(STSZ), Ghost(Self::body_bytes(self@)))
            },
            SampleSizeBox::PerSample(sizes) => {
                proof {
                    lemma_table_len(sizes@);
                }
                if sizes.len() > 0xffff_ffff {
                    return Err(Error::Io(IoError::InvalidInput));
                }
                let begin: u64 = open_box(output, STSZ, self.size(), framing, Ghost(Self::body_bytes(self@)))?;
                put_u32(output, 0);
                put_u32(output, 0);
                put_u32(output, sizes.len() as u32);
                put_table(output, sizes);
                assert(output@ =~= before + be_u32(pending(framing, Self::body_bytes(self@))) + be_u32(STSZ) + Self::body_bytes(self@));
                close_box(output, begin, framing, Ghost(before), Ghost(STSZ), Ghost(Self::body_bytes(self@)))
            },
        }
    }
}

impl Decode for SampleSizeBox {
    /// Only version 0 is known. A size that is not zero is the size of all
    /// samples, and nothing more is taken; after a zero follows the size of
    /// each sample.
    open spec fn parse(input: Seq<u8>) -> Result<(SampleSizeView, int), Error> {
        let sample_size = u32_at(input, 4);
        let sample_count = u32_at(input, 8);
        if input.len() < 4 {
            Err(eof())
        } else if version_of(input) != 0 {
            Err(malformed())
        } else if input.len() < 12 {
            Err(eof())
        } else if sample_size != 0 {
            Ok((SampleSizeView::Value { sample_size, sample_count }, 12))
        } else if input.len() < 12 + sample_count * 4 {
            Err(eof())
        } else {
            Ok(
                (
                    SampleSizeView::PerSample(table_at::<u32>(input, 12, sample_count as int)),
                    12 + sample_count * 4,
                ),
            )
        }
    }

    fn decode(input: &mut &[u8]) -> (r: Result<Self, Error>) {
        let b: &[u8] = *input;
        if b.len() < 4 {
            return Err(Error::Io(IoError::UnexpectedEof));
        }
        if get_u32(b, 0) / 0x100_0000 != 0 {
            return Err(Error::Io(IoError::InvalidData));
        }
        if b.len() < 12 {
            return Err(Error::Io(IoError::UnexpectedEof));
        }
        let sample_size: u32 = get_u32(b, 4);
        let sample_count: u32 = get_u32(b, 8);
        if sample_size != 0 {
            *input = slice_subrange(b, 12, b.len());
            return Ok(SampleSizeBox::Value { sample_size, sample_count });
        }
        if sample_count as usize > (b.len() - 12) / 4 {
            return Err(Error::Io(IoError::UnexpectedEof));
        }
        let sizes = get_table::<u32>(b, 12, sample_count as usize);
        *input = slice_subrange(b, 12 + sample_count as usize * 4, b.len());
        Ok(SampleSizeBox::PerSample(sizes))
    }
}

impl BoxCodec for SampleSizeBox {
    open spec fn box_type() -> u32 {
        STSZ
    }

    open spec fn body(v: SampleSizeView) -> Seq<u8> {
        Self::body_bytes(v)
    }

    /// One size for all samples is not zero: zero in its place says that the
    /// size of each sample follows.
    open spec fn canonical(v: SampleSizeView) -> bool {
        match v {
            SampleSizeView::Value { sample_size, .. } => sample_size != 0,
            SampleSizeView::PerSample(_) => true,
        }
    }

    proof fn lemma_box(v: SampleSizeView) {
        assert(Self::box_type() == STSZ);
        assert(Self::body(v) == Self::body_bytes(v));
        assert(Self::encodable(v) == (fits(Self::body_bytes(v))));
        assert(Self::bytes(v) == box_bytes(STSZ, Self::body_bytes(v)));
    }

    proof fn lemma_round_trip(v: SampleSizeView) {
        match v {
            SampleSizeView::Value { .. } => {},
            SampleSizeView::PerSample(sizes) => {
                let head = be_u32(0) + be_u32(0) + be_u32(sizes.len() as u32);
                lemma_table_len(sizes);
                lemma_table_round_trip(head, sizes, Seq::<u8>::empty());
                assert(head + table_bytes(sizes) + Seq::<u8>::empty() =~= Self::body_bytes(v));
            },
        }
    }

    /// One size of zero for no samples is written as the sizes of no
    /// samples.
    open spec fn normal(v: SampleSizeView) -> SampleSizeView {
        match v {
            SampleSizeView::Value { sample_size, sample_count } => if sample_size == 0
                && sample_count == 0 {
                SampleSizeView::PerSample(Seq::empty())
            } else {
                v
            },
            SampleSizeView::PerSample(_) => v,
        }
    }

    proof fn lemma_normal(v: SampleSizeView) {
        assert(table_bytes(Seq::<u32>::empty()) =~= Seq::<u8>::empty());
        assert(Self::body_bytes(Self::normal(v)) =~= Self::body_bytes(v));
    }

    open spec fn shaped(v: SampleSizeView) -> bool {
        true
    }

    /// One size of zero for some samples does not decode: the sizes of the
    /// samples are missing behind it.
    proof fn lemma_decoded(v: SampleSizeView) {
        match v {
            SampleSizeView::Value { sample_size, sample_count } => {
                if sample_size == 0 && sample_count > 0 {
                    let body = Self::body_bytes(v);
                    assert(body.len() == 12);
                    assert(u32_at(body, 4) == 0);
                    assert(u32_at(body, 8) == sample_count);
                    assert(Self::parse(body) is Err);
                }
            },
            SampleSizeView::PerSample(_) => {},
        }
    }
}

/// The table of the samples of a track (`stbl`): what the samples are, how
/// long each lasts, how large each is, and where in the file they lie.
#[derive(Clone, Debug, PartialEq, Eq)]
pub struct SampleTableBox {
    pub description: SampleDescriptionBox,
    pub time_to_sample: TimeToSampleBox,
    pub sync_sample: Option<SyncSampleBox>,
    pub sample_size: SampleSizeBox,
    pub sample_to_chunk: SampleToChunkBox,
    pub chunk_offset: ChunkOffsetBox,
    pub sample_to_group: Option<SampleToGroupBox>,
}

/// A `SampleTableBox` as a mathematical value.
pub struct SampleTableView {
    pub description: SampleDescriptionView,
    pub time_to_sample: Seq<TimeToSampleEntry>,
    pub sync_sample: Option<Seq<u32>>,
    pub sample_size: SampleSizeView,
    pub sample_to_chunk: Seq<SampleToChunkEntry>,
    pub chunk_offset: Seq<u32>,
    pub sample_to_group: Option<(FourCC, Seq<SampleToGroupEntry>)>,
}

impl View for SampleTableBox {
    type V = SampleTableView;

    open spec fn view(&self) -> SampleTableView {
        SampleTableView {
            description: self.description@,
            time_to_sample: self.time_to_sample@,
            sync_sample: option_view(self.sync_sample),
            sample_size: self.sample_size@,
            sample_to_chunk: self.sample_to_chunk@,
            chunk_offset: self.chunk_offset@,
            sample_to_group: option_view(self.sample_to_group),
        }
    }
}

impl SampleTableBox {
    /// The body: the children that are there, one after the other.
    pub open spec fn body_bytes(v: SampleTableView) -> Seq<u8> {
        SampleDescriptionBox::bytes(v.description) + (TimeToSampleBox::bytes(v.time_to_sample) + (
        option_bytes::<SyncSampleBox>(v.sync_sample) + (SampleSizeBox::bytes(v.sample_size) + (
        SampleToChunkBox::bytes(v.sample_to_chunk) + (ChunkOffsetBox::bytes(v.chunk_offset)
            + option_bytes::<SampleToGroupBox>(v.sample_to_group))))))
    }

    /// The table that the children of the box make up. Each of `stsd`,
    /// `stts`, `stsz`, `stsc` and `stco` must occur once, `stss` and `sbgp`
    /// may occur once, and other children are passed over. Of several
    /// faults the one of the child that is named first here is reported.
    pub open spec fn from_children(boxes: Seq<RawBox>) -> Result<SampleTableView, Error> {
        match (
            required::<SampleDescriptionBox>(boxes, STSD),
            required::<TimeToSampleBox>(boxes, STTS),
            optional::<SyncSampleBox>(boxes, STSS),
            required::<SampleSizeBox>(boxes, STSZ),
            required::<SampleToChunkBox>(boxes, STSC),
            required::<ChunkOffsetBox>(boxes, STCO),
            optional::<SampleToGroupBox>(boxes, SBGP),
        ) {
            (Err(e), _, _, _, _, _, _) => Err(e),
            (_, Err(e), _, _, _, _, _) => Err(e),
            (_, _, Err(e), _, _, _, _) => Err(e),
            (_, _, _, Err(e), _, _, _) => Err(e),
            (_, _, _, _, Err(e), _, _) => Err(e),
            (_, _, _, _, _, Err(e), _) => Err(e),
            (_, _, _, _, _, _, Err(e)) => Err(e),
            (
                Ok(description),
                Ok(time_to_sample),
                Ok(sync_sample),
                Ok(sample_size),
                Ok(sample_to_chunk),
                Ok(chunk_offset),
                Ok(sample_to_group),
            ) => Ok(
                SampleTableView {
                    description,
                    time_to_sample,
                    sync_sample,
                    sample_size,
                    sample_to_chunk,
                    chunk_offset,
                    sample_to_group,
                },
            ),
        }
    }
}

impl Encode for SampleTableBox {
    open spec fn bytes(v: SampleTableView) -> Seq<u8> {
        box_bytes(STBL, Self::body_bytes(v))
    }

    open spec fn encodable(v: SampleTableView) -> bool {
        fits(Self::body_bytes(v))
    }

    fn size(&self) -> (n: u64) {
        let mut n: u64 = add_size(8, self.description.size());
        n = add_size(n, self.time_to_sample.size());
        n = add_size(n, size_option(&self.sync_sample));
        n = add_size(n, self.sample_size.size());
        n = add_size(n, self.sample_to_chunk.size());
        n = add_size(n, self.chunk_offset.size());
        add_size(n, size_option(&self.sample_to_group))
    }

    fn encode_with(&self, output: &mut Vec<u8>, framing: Framing) -> (r: Result<(), Error>) {
        let ghost before = output@;
        let begin: u64 = open_box(output, STBL, self.size(), framing, Ghost(Self::body_bytes(self@)))?;
        put_child(&self.description, output, framing, Ghost(before))?;
        put_child(&self.time_to_sample, output, framing, Ghost(before))?;
        put_optional_child(&self.sync_sample, output, framing, Ghost(before))?;
        put_child(&self.sample_size, output, framing, Ghost(before))?;
        put_child(&self.sample_to_chunk, output, framing, Ghost(before))?;
        put_child(&self.chunk_offset, output, framing, Ghost(before))?;
        put_optional_child(&self.sample_to_group, output, framing, Ghost(before))?;
        proof {
            lemma_nested(
                before + be_u32(pending(framing, Self::body_bytes(self@))) + be_u32(STBL),
                SampleDescriptionBox::bytes(self@.description),
                TimeToSampleBox::bytes(self@.time_to_sample),
                option_bytes::<SyncSampleBox>(self@.sync_sample),
                SampleSizeBox::bytes(self@.sample_size),
                SampleToChunkBox::bytes(self@.sample_to_chunk),
                ChunkOffsetBox::bytes(self@.chunk_offset),
                option_bytes::<SampleToGroupBox>(self@.sample_to_group),
            );
        }
        close_box(output, begin, framing, Ghost(before), Ghost(STBL), Ghost(Self::body_bytes(self@)))
    }
}

impl Decode for SampleTableBox {
    /// The whole input is taken: it is told apart into boxes, which are the
    /// children.
    open spec fn parse(input: Seq<u8>) -> Result<(SampleTableView, int), Error> {
        match split_boxes(input) {
            Err(e) => Err(e),
            Ok(boxes) => match Self::from_children(boxes) {
                Err(e) => Err(e),
                Ok(v) => Ok((v, input.len() as int)),
            },
        }
    }

    fn decode(input: &mut &[u8]) -> (r: Result<Self, Error>) {
        let b: &[u8] = *input;
        let boxes = split(b)?;
        let description = decode_required::<SampleDescriptionBox>(b, &boxes, STSD)?;
        let time_to_sample = decode_required::<TimeToSampleBox>(b, &boxes, STTS)?;
        let sync_sample = decode_optional::<SyncSampleBox>(b, &boxes, STSS)?;
        let sample_size = decode_required::<SampleSizeBox>(b, &boxes, STSZ)?;
        let sample_to_chunk = decode_required::<SampleToChunkBox>(b, &boxes, STSC)?;
        let chunk_offset = decode_required::<ChunkOffsetBox>(b, &boxes, STCO)?;
        let sample_to_group = decode_optional::<SampleToGroupBox>(b, &boxes, SBGP)?;
        *input = slice_subrange(b, b.len(), b.len());
        Ok(
            SampleTableBox {
                description,
                time_to_sample,
                sync_sample,
                sample_size,
                sample_to_chunk,
                chunk_offset,
                sample_to_group,
            },
        )
    }
}

impl BoxCodec for SampleTableBox {
    open spec fn box_type() -> u32 {
        STBL
    }

    open spec fn body(v: SampleTableView) -> Seq<u8> {
        Self::body_bytes(v)
    }

    open spec fn canonical(v: SampleTableView) -> bool {
        SampleDescriptionBox::canonical(v.description) && SampleSizeBox::canonical(v.sample_size)
    }

    proof fn lemma_box(v: SampleTableView) {
        assert(Self::box_type() == STBL);
        assert(Self::body(v) == Self::body_bytes(v));
        assert(Self::encodable(v) == (fits(Self::body_bytes(v))));
        assert(Self::bytes(v) == box_bytes(STBL, Self::body_bytes(v)));
    }

    proof fn lemma_round_trip(v: SampleTableView) {
        broadcast use lemma_select_first;

        let r6 = Seq::<u8>::empty();
        let r5 = option_bytes::<SampleToGroupBox>(v.sample_to_group);
        let r4 = ChunkOffsetBox::bytes(v.chunk_offset) + r5;
        let r3 = SampleToChunkBox::bytes(v.sample_to_chunk) + r4;
        let r2 = SampleSizeBox::bytes(v.sample_size) + r3;
        let r1 = option_bytes::<SyncSampleBox>(v.sync_sample) + r2;
        let r0 = TimeToSampleBox::bytes(v.time_to_sample) + r1;
        SampleDescriptionBox::lemma_box(v.description);
        TimeToSampleBox::lemma_box(v.time_to_sample);
        SampleSizeBox::lemma_box(v.sample_size);
        SampleToChunkBox::lemma_box(v.sample_to_chunk);
        ChunkOffsetBox::lemma_box(v.chunk_offset);
        assert(r5 + r6 =~= r5);
        lemma_option_first::<SampleToGroupBox>(v.sample_to_group, r6);
        lemma_child_first::<ChunkOffsetBox>(v.chunk_offset, r5);
        lemma_child_first::<SampleToChunkBox>(v.sample_to_chunk, r4);
        lemma_child_first::<SampleSizeBox>(v.sample_size, r3);
        lemma_option_first::<SyncSampleBox>(v.sync_sample, r2);
        lemma_child_first::<TimeToSampleBox>(v.time_to_sample, r1);
        lemma_child_first::<SampleDescriptionBox>(v.description, r0);
    }

    open spec fn normal(v: SampleTableView) -> SampleTableView {
        SampleTableView { sample_size: SampleSizeBox::normal(v.sample_size), ..v }
    }

    proof fn lemma_normal(v: SampleTableView) {
        lemma_normal_bytes::<SampleSizeBox>(v.sample_size);
    }

    open spec fn shaped(v: SampleTableView) -> bool {
        SampleDescriptionBox::canonical(v.description)
    }

    proof fn lemma_decoded(v: SampleTableView) {
        broadcast use lemma_select_first;

        let r6 = Seq::<u8>::empty();
        let r5 = option_bytes::<SampleToGroupBox>(v.sample_to_group);
        let r4 = ChunkOffsetBox::bytes(v.chunk_offset) + r5;
        let r3 = SampleToChunkBox::bytes(v.sample_to_chunk) + r4;
        let r2 = SampleSizeBox::bytes(v.sample_size) + r3;
        let r1 = option_bytes::<SyncSampleBox>(v.sync_sample) + r2;
        let r0 = TimeToSampleBox::bytes(v.time_to_sample) + r1;
        SampleDescriptionBox::lemma_box(v.description);
        TimeToSampleBox::lemma_box(v.time_to_sample);
        SampleSizeBox::lemma_box(v.sample_size);
        SampleToChunkBox::lemma_box(v.sample_to_chunk);
        ChunkOffsetBox::lemma_box(v.chunk_offset);
        if v.sample_to_group is Some {
            SampleToGroupBox::lemma_box(v.sample_to_group->Some_0);
        }
        if v.sync_sample is Some {
            SyncSampleBox::lemma_box(v.sync_sample->Some_0);
        }
        assert(r5 + r6 =~= r5);
        lemma_option_split::<SampleToGroupBox>(v.sample_to_group, r6);
        lemma_child_split::<ChunkOffsetBox>(v.chunk_offset, r5);
        lemma_child_split::<SampleToChunkBox>(v.sample_to_chunk, r4);
        lemma_child_split::<SampleSizeBox>(v.sample_size, r3);
        lemma_option_split::<SyncSampleBox>(v.sync_sample, r2);
        lemma_child_split::<TimeToSampleBox>(v.time_to_sample, r1);
        lemma_child_split::<SampleDescriptionBox>(v.description, r0);
        assert(child::<SampleSizeBox>(SampleSizeBox::body(v.sample_size)) is Ok);
        SampleSizeBox::lemma_decoded(v.sample_size);
    }
}

} // verus!
