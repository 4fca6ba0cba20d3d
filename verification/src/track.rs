//! The track box, its header, and its edits.

use vstd::prelude::*;
use vstd::slice::slice_subrange;

use crate::bytes::{
    add_size, be_u16, be_u32, be_u64, flags_of, get_u16, get_u32, get_u64, group_big_endian, low32,
    put_u16, put_u32, put_u64, u16_at, u32_at, u64_at, version_of, Decode, Encode, Framing,
};
use crate::error::{eof, malformed, Error, IoError};
use crate::fixed_point::{U16F16, U8F8};
use crate::fourcc::{EDTS, ELST, MDIA, TKHD, TRAK};
use crate::framing::{
    box_bytes, child, close_box, decode_optional, decode_required, fits, lemma_child_first,
    lemma_child_split, lemma_nested_3, lemma_normal_bytes, lemma_option_first, lemma_option_split,
    lemma_select_first, open_box, option_bytes, option_view, optional, pending, put_child,
    put_optional_child, required, size_option, split, split_boxes, BoxCodec, RawBox,
};
use crate::matrix::Matrix;
use crate::media::{MediaBox, MediaView};
use crate::table::{
    get_table, lemma_table_len, lemma_table_round_trip, put_table, table_at, table_bytes, Record,
};

verus! {

broadcast use {vstd::slice::group_slice_axioms, group_big_endian};

/// The header of a track (`tkhd`): whether and where it is used, when it was
/// made, its number and duration, and how it is shown and heard.
#[derive(Clone, Copy, Debug, PartialEq, Eq, Structural)]
pub struct TrackHeaderBox {
    pub enabled: bool,
    pub in_movie: bool,
    pub in_preview: bool,
    pub creation_time: u64,
    pub modification_time: u64,
    pub track_id: u32,
    pub duration: u64,
    pub layer: u16,
    pub alternate_group: u16,
    pub volume: U8F8,
    pub matrix: Matrix,
    pub width: U16F16,
    pub height: U16F16,
}

impl View for TrackHeaderBox {
    type V = TrackHeaderBox;

    open spec fn view(&self) -> TrackHeaderBox {
        *self
    }
}

impl Default for TrackHeaderBox {
    /// The header of track number one, used everywhere, with all times
    /// zero, at full volume, not transformed and without a size.
    fn default() -> (r: TrackHeaderBox)
        ensures
            r == (TrackHeaderBox {
                enabled: true,
                in_movie: true,
                in_preview: true,
                creation_time: 0,
                modification_time: 0,
                track_id: 1,
                duration: 0,
                layer: 0,
                alternate_group: 0,
                volume: U8F8 { bits: 0x100 },
                matrix: Matrix::spec_identity(),
                width: U16F16 { bits: 0 },
                height: U16F16 { bits: 0 },
            }),
    {
        TrackHeaderBox {
            enabled: true,
            in_movie: true,
            in_preview: true,
            creation_time: 0,
            modification_time: 0,
            track_id: 1,
            duration: 0,
            layer: 0,
            alternate_group: 0,
            volume: U8F8 { bits: 0x100 },
            matrix: Matrix::identity(),
            width: U16F16 { bits: 0 },
            height: U16F16 { bits: 0 },
        }
    }
}

impl TrackHeaderBox {
    /// Where the fields after the duration begin: the times take 32 bits
    /// each in version 0 and 64 bits each in version 1.
    pub open spec fn tail(version: int) -> int {
        if version == 0 {
            24
        } else {
            36
        }
    }

    /// The flags: one for a track that is enabled, two for one that is used
    /// in the movie, four for one that is used in the preview.
    pub open spec fn flags(v: TrackHeaderBox) -> u32 {
        ((if v.enabled {
            1int
        } else {
            0int
        }) + (if v.in_movie {
            2int
        } else {
            0int
        }) + (if v.in_preview {
            4int
        } else {
            0int
        })) as u32
    }

    /// What follows the duration in both versions: eight bytes of zero,
    /// layer, group and volume, two bytes of zero, the matrix, the size.
    pub open spec fn tail_bytes(v: TrackHeaderBox) -> Seq<u8> {
        be_u32(0) + be_u32(0) + be_u16(v.layer) + be_u16(v.alternate_group) + be_u16(
            v.volume.bits,
        ) + be_u16(0) + Matrix::bytes(v.matrix) + be_u32(v.width.bits) + be_u32(v.height.bits)
    }

    /// The body in version 1, which holds the times and the duration in
    /// full.
    pub open spec fn long_body_bytes(v: TrackHeaderBox) -> Seq<u8> {
        be_u32((0x0100_0000 + Self::flags(v)) as u32) + be_u64(v.creation_time) + be_u64(
            v.modification_time,
        ) + be_u32(v.track_id) + be_u32(0) + be_u64(v.duration) + Self::tail_bytes(v)
    }

    /// The body in version 0, which holds the times and the duration in
    /// 32 bits.
    pub open spec fn short_body_bytes(v: TrackHeaderBox) -> Seq<u8> {
        be_u32(Self::flags(v)) + be_u32(low32(v.creation_time)) + be_u32(
            low32(v.modification_time),
        ) + be_u32(v.track_id) + be_u32(0) + be_u32(low32(v.duration)) + Self::tail_bytes(v)
    }

    /// Whether the times and the duration fit in 32 bits, so that version 0
    /// can hold them.
    pub open spec fn short(v: TrackHeaderBox) -> bool {
        v.creation_time <= u32::MAX && v.modification_time <= u32::MAX && v.duration <= u32::MAX
    }

    /// The body: in version 0 where the times and the duration fit in 32
    /// bits, else in version 1.
    pub open spec fn body_bytes(v: TrackHeaderBox) -> Seq<u8> {
        if Self::short(v) {
            Self::short_body_bytes(v)
        } else {
            Self::long_body_bytes(v)
        }
    }

    /// Whether the times and the duration fit in 32 bits.
    pub fn is_short(&self) -> (r: bool)
        ensures
            r == Self::short(*self),
    {
        self.creation_time <= 0xffff_ffff && self.modification_time <= 0xffff_ffff
            && self.duration <= 0xffff_ffff
    }

    /// The flags.
    fn exec_flags(&self) -> (r: u32)
        ensures
            r == Self::flags(*self),
    {
        let e: u32 = if self.enabled {
            1
        } else {
            0
        };
        let m: u32 = if self.in_movie {
            2
        } else {
            0
        };
        let p: u32 = if self.in_preview {
            4
        } else {
            0
        };
        e + m + p
    }

    /// Appends what follows the duration in both versions.
    fn put_tail(&self, output: &mut Vec<u8>)
        ensures
            final(output)@ == old(output)@ + Self::tail_bytes(*self),
    {
        put_u32(output, 0);
        put_u32(output, 0);
        put_u16(output, self.layer);
        put_u16(output, self.alternate_group);
        put_u16(output, self.volume.bits);
        put_u16(output, 0);
        let _ = self.matrix.encode(output);
        put_u32(output, self.width.bits);
        put_u32(output, self.height.bits);
        assert(output@ =~= old(output)@ + Self::tail_bytes(*self));
    }

    /// Appends the body in version 0.
    fn put_short_body(&self, output: &mut Vec<u8>)
        requires
            Self::short(*self),
        ensures
            final(output)@ == old(output)@ + Self::short_body_bytes(*self),
    {
        put_u32(output, self.exec_flags());
        put_u32(output, self.creation_time as u32);
        put_u32(output, self.modification_time as u32);
        put_u32(output, self.track_id);
        put_u32(output, 0);
        put_u32(output, self.duration as u32);
        self.put_tail(output);
        assert(output@ =~= old(output)@ + Self::short_body_bytes(*self));
    }

    /// Appends the body in version 1.
    fn put_long_body(&self, output: &mut Vec<u8>)
        ensures
            final(output)@ == old(output)@ + Self::long_body_bytes(*self),
    {
        put_u32(output, 0x0100_0000 + self.exec_flags());
        put_u64(output, self.creation_time);
        put_u64(output, self.modification_time);
        put_u32(output, self.track_id);
        put_u32(output, 0);
        put_u64(output, self.duration);
        self.put_tail(output);
        assert(output@ =~= old(output)@ + Self::long_body_bytes(*self));
    }

    /// Whether the fields that must be zero are: one between the number of
    /// the track and its duration, the others behind the duration.
    pub open spec fn reserved_ok(body: Seq<u8>, t: int) -> bool {
        &&& u32_at(body, if t == 24 {
            16int
        } else {
            24int
        }) == 0
        &&& u32_at(body, t) == 0
        &&& u32_at(body, t + 4) == 0
        &&& u16_at(body, t + 14) == 0
    }
}

/// A body in version 1 decodes to the header that it holds, whatever its
/// times are.
pub proof fn law_track_header_long(v: TrackHeaderBox)
    ensures
        TrackHeaderBox::parse(TrackHeaderBox::long_body_bytes(v)) == Ok::<
            (TrackHeaderBox, int),
            Error,
        >((v, 96)),
{
}

impl Encode for TrackHeaderBox {
    open spec fn bytes(v: TrackHeaderBox) -> Seq<u8> {
        box_bytes(TKHD, Self::body_bytes(v))
    }

    open spec fn encodable(v: TrackHeaderBox) -> bool {
        true
    }

    fn size(&self) -> (n: u64) {
        if self.is_short() {
            92
        } else {
            104
        }
    }

    /// Writes the header in version 0 where the times and the duration fit
    /// in 32 bits, else in version 1.
    fn encode_with(&self, output: &mut Vec<u8>, framing: Framing) -> (r: Result<(), Error>) {
        let ghost before = output@;
        let begin: u64 = open_box(
            output,
            TKHD,
            self.size(),
            framing,
            Ghost(Self::body_bytes(*self)),
        )?;
        if self.is_short() {
            self.put_short_body(output);
        } else {
            self.put_long_body(output);
        }
        close_box(output, begin, framing, Ghost(before), Ghost(TKHD), Ghost(Self::body_bytes(*self)))
    }
}

impl Decode for TrackHeaderBox {
    /// A body of version 0 has 84 bytes and one of version 1 has 96; what
    /// follows them is left where it is. Of the flags the lowest three are
    /// looked at.
    open spec fn parse(input: Seq<u8>) -> Result<(TrackHeaderBox, int), Error> {
        let version = version_of(input);
        let flags = flags_of(input);
        let t = Self::tail(version);
        if input.len() < 4 {
            Err(eof())
        } else if version > 1 {
            Err(malformed())
        } else if input.len() < t + 60 {
            Err(eof())
        } else if !Self::reserved_ok(input, t) {
            Err(malformed())
        } else {
            Ok(
                (
                    TrackHeaderBox {
                        enabled: flags % 2 == 1,
                        in_movie: flags / 2 % 2 == 1,
                        in_preview: flags / 4 % 2 == 1,
                        creation_time: if version == 0 {
                            u32_at(input, 4) as u64
                        } else {
                            u64_at(input, 4)
                        },
                        modification_time: if version == 0 {
                            u32_at(input, 8) as u64
                        } else {
                            u64_at(input, 12)
                        },
                        track_id: if version == 0 {
                            u32_at(input, 12)
                        } else {
                            u32_at(input, 20)
                        },
                        duration: if version == 0 {
                            u32_at(input, 20) as u64
                        } else {
                            u64_at(input, 28)
                        },
                        layer: u16_at(input, t + 8),
                        alternate_group: u16_at(input, t + 10),
                        volume: U8F8 { bits: u16_at(input, t + 12) },
                        matrix: Matrix::at(input, t + 16),
                        width: U16F16 { bits: u32_at(input, t + 52) },
                        height: U16F16 { bits: u32_at(input, t + 56) },
                    },
                    t + 60,
                ),
            )
        }
    }

    fn decode(input: &mut &[u8]) -> (r: Result<Self, Error>) {
        let b: &[u8] = *input;
        if b.len() < 4 {
            return Err(Error::Io(IoError::UnexpectedEof));
        }
        let word: u32 = get_u32(b, 0);
        let version: u32 = word / 0x100_0000;
        let flags: u32 = word % 0x100_0000;
        if version > 1 {
            return Err(Error::Io(IoError::InvalidData));
        }
        let t: usize = if version == 0 {
            24
        } else {
            36
        };
        if b.len() < t + 60 {
            return Err(Error::Io(IoError::UnexpectedEof));
        }
        let between: usize = if version == 0 {
            16
        } else {
            24
        };
        if get_u32(b, between) != 0 || get_u32(b, t) != 0 || get_u32(b, t + 4) != 0 || get_u16(
            b,
            t + 14,
        ) != 0 {
            return Err(Error::Io(IoError::InvalidData));
        }
        let creation_time: u64 = if version == 0 {
            get_u32(b, 4) as u64
        } else {
            get_u64(b, 4)
        };
        let modification_time: u64 = if version == 0 {
            get_u32(b, 8) as u64
        } else {
            get_u64(b, 12)
        };
        let duration: u64 = if version == 0 {
            get_u32(b, 20) as u64
        } else {
            get_u64(b, 28)
        };
        let header = TrackHeaderBox {
            enabled: flags % 2 == 1,
            in_movie: flags / 2 % 2 == 1,
            in_preview: flags / 4 % 2 == 1,
            creation_time,
            modification_time,
            track_id: if version == 0 {
                get_u32(b, 12)
            } else {
                get_u32(b, 20)
            },
            duration,
            layer: get_u16(b, t + 8),
            alternate_group: get_u16(b, t + 10),
            volume: U8F8 { bits: get_u16(b, t + 12) },
            matrix: Matrix::get(b, t + 16),
            width: U16F16 { bits: get_u32(b, t + 52) },
            height: U16F16 { bits: get_u32(b, t + 56) },
        };
        *input = slice_subrange(b, t + 60, b.len());
        Ok(header)
    }
}

impl BoxCodec for TrackHeaderBox {
    open spec fn box_type() -> u32 {
        TKHD
    }

    open spec fn body(v: TrackHeaderBox) -> Seq<u8> {
        Self::body_bytes(v)
    }

    open spec fn canonical(v: TrackHeaderBox) -> bool {
        true
    }

    proof fn lemma_box(v: TrackHeaderBox) {
        assert(Self::box_type() == TKHD);
        assert(Self::body(v) == Self::body_bytes(v));
        assert(Self::encodable(v) == (true));
        assert(Self::bytes(v) == box_bytes(TKHD, Self::body_bytes(v)));
    }

    proof fn lemma_round_trip(v: TrackHeaderBox) {
    }

    open spec fn normal(v: TrackHeaderBox) -> TrackHeaderBox {
        v
    }

    proof fn lemma_normal(v: TrackHeaderBox) {
        assert(Self::normal(v) == v);
    }

    open spec fn shaped(v: TrackHeaderBox) -> bool {
        Self::canonical(v)
    }

    proof fn lemma_decoded(v: TrackHeaderBox) {
        assert(Self::normal(v) == v);
        assert(Self::shaped(v) == Self::canonical(v));
    }
}

/// A piece of the time line of a track: how long it lasts, where in the
/// media it begins, and how fast the media is played in it.
#[derive(Clone, Copy, Debug, PartialEq, Eq, Structural)]
pub struct EditListEntry {
    pub segment_duration: u64,
    pub media_time: u64,
    pub media_rate: U16F16,
}

/// An entry of an edit list as version 0 holds it, with times of 32 bits.
#[derive(Clone, Copy, Debug, PartialEq, Eq, Structural)]
pub struct ShortEdit {
    pub segment_duration: u32,
    pub media_time: u32,
    pub media_rate: u32,
}

/// An entry of an edit list as version 1 holds it, with times of 64 bits.
#[derive(Clone, Copy, Debug, PartialEq, Eq, Structural)]
pub struct LongEdit {
    pub segment_duration: u64,
    pub media_time: u64,
    pub media_rate: u32,
}

impl Record for ShortEdit {
    open spec fn width() -> int {
        12
    }

    open spec fn record_bytes(self) -> Seq<u8> {
        be_u32(self.segment_duration) + be_u32(self.media_time) + be_u32(self.media_rate)
    }

    open spec fn record_at(input: Seq<u8>, offset: int) -> ShortEdit {
        ShortEdit {
            segment_duration: u32_at(input, offset),
            media_time: u32_at(input, offset + 4),
            media_rate: u32_at(input, offset + 8),
        }
    }

    fn exec_width() -> (w: usize) {
        12
    }

    fn put(&self, output: &mut Vec<u8>) {
        put_u32(output, self.segment_duration);
        put_u32(output, self.media_time);
        put_u32(output, self.media_rate);
        assert(output@ =~= old(output)@ + self.record_bytes());
    }

    fn get(input: &[u8], offset: usize) -> (r: ShortEdit) {
        ShortEdit {
            segment_duration: get_u32(input, offset),
            media_time: get_u32(input, offset + 4),
            media_rate: get_u32(input, offset + 8),
        }
    }

    proof fn lemma_width() {
    }

    proof fn lemma_record(self) {
    }

    proof fn lemma_record_at(s: Seq<u8>, t: Seq<u8>, i: int) {
    }
}

impl Record for LongEdit {
    open spec fn width() -> int {
        20
    }

    open spec fn record_bytes(self) -> Seq<u8> {
        be_u64(self.segment_duration) + be_u64(self.media_time) + be_u32(self.media_rate)
    }

    open spec fn record_at(input: Seq<u8>, offset: int) -> LongEdit {
        LongEdit {
            segment_duration: u64_at(input, offset),
            media_time: u64_at(input, offset + 8),
            media_rate: u32_at(input, offset + 16),
        }
    }

    fn exec_width() -> (w: usize) {
        20
    }

    fn put(&self, output: &mut Vec<u8>) {
        put_u64(output, self.segment_duration);
        put_u64(output, self.media_time);
        put_u32(output, self.media_rate);
        assert(output@ =~= old(output)@ + self.record_bytes());
    }

    fn get(input: &[u8], offset: usize) -> (r: LongEdit) {
        LongEdit {
            segment_duration: get_u64(input, offset),
            media_time: get_u64(input, offset + 8),
            media_rate: get_u32(input, offset + 16),
        }
    }

    proof fn lemma_width() {
    }

    proof fn lemma_record(self) {
    }

    proof fn lemma_record_at(s: Seq<u8>, t: Seq<u8>, i: int) {
    }
}

/// The entries as version 0 holds them, with their times in 32 bits.
pub open spec fn shorten(entries: Seq<EditListEntry>) -> Seq<ShortEdit> {
    Seq::new(
        entries.len(),
        |i: int|
            ShortEdit {
                segment_duration: low32(entries[i].segment_duration),
                media_time: low32(entries[i].media_time),
                media_rate: entries[i].media_rate.bits,
            },
    )
}

/// The entries that version 0 holds.
pub open spec fn from_short(records: Seq<ShortEdit>) -> Seq<EditListEntry> {
    Seq::new(
        records.len(),
        |i: int|
            EditListEntry {
                segment_duration: records[i].segment_duration as u64,
                media_time: records[i].media_time as u64,
                media_rate: U16F16 { bits: records[i].media_rate },
            },
    )
}

/// The entries that version 1 holds.
pub open spec fn from_long(records: Seq<LongEdit>) -> Seq<EditListEntry> {
    Seq::new(
        records.len(),
        |i: int|
            EditListEntry {
                segment_duration: records[i].segment_duration,
                media_time: records[i].media_time,
                media_rate: U16F16 { bits: records[i].media_rate },
            },
    )
}

/// The entries as version 1 holds them.
pub open spec fn lengthen(entries: Seq<EditListEntry>) -> Seq<LongEdit> {
    Seq::new(
        entries.len(),
        |i: int|
            LongEdit {
                segment_duration: entries[i].segment_duration,
                media_time: entries[i].media_time,
                media_rate: entries[i].media_rate.bits,
            },
    )
}

/// A body in version 1 decodes to the entries that it holds, whatever
/// their times are.
pub proof fn law_edit_list_long(v: Seq<EditListEntry>)
    requires
        v.len() <= u32::MAX,
    ensures
        EditListBox::parse(EditListBox::long_body_bytes(v)) == Ok::<(Seq<EditListEntry>, int), Error>(
            (v, 8 + v.len() as int * 20),
        ),
{
    let head = be_u32(0x0100_0000) + be_u32(v.len() as u32);
    let records = lengthen(v);
    lemma_table_len(records);
    lemma_table_round_trip(head, records, Seq::<u8>::empty());
    assert(head + table_bytes(records) + Seq::<u8>::empty() =~= EditListBox::long_body_bytes(v));
    assert(from_long(records) =~= v);
}

/// The time line of a track (`elst`), as pieces in their order.
#[derive(Clone, Debug, PartialEq, Eq)]
pub struct EditListBox(pub Vec<EditListEntry>);

impl View for EditListBox {
    type V = Seq<EditListEntry>;

    open spec fn view(&self) -> Seq<EditListEntry> {
        self.0@
    }
}

/// Whether the times of every entry fit in 32 bits, so that version 0 can
/// hold them.
pub open spec fn all_short(entries: Seq<EditListEntry>) -> bool {
    forall|i: int|
        0 <= i < entries.len() ==> (#[trigger] entries[i]).segment_duration <= u32::MAX
            && entries[i].media_time <= u32::MAX
}

impl EditListBox {
    /// The body in version 1: no flags, the number of entries, the entries
    /// with their times in full.
    pub open spec fn long_body_bytes(v: Seq<EditListEntry>) -> Seq<u8> {
        be_u32(0x0100_0000) + be_u32(v.len() as u32) + table_bytes(lengthen(v))
    }

    /// The body in version 0: no flags, the number of entries, the entries
    /// with their times in 32 bits.
    pub open spec fn short_body_bytes(v: Seq<EditListEntry>) -> Seq<u8> {
        be_u32(0) + be_u32(v.len() as u32) + table_bytes(shorten(v))
    }

    /// The body: in version 0 where the times of every entry fit in 32
    /// bits, else in version 1.
    pub open spec fn body_bytes(v: Seq<EditListEntry>) -> Seq<u8> {
        if all_short(v) {
            Self::short_body_bytes(v)
        } else {
            Self::long_body_bytes(v)
        }
    }

    /// Whether the times of every entry fit in 32 bits.
    pub fn is_short(&self) -> (r: bool)
        ensures
            r == all_short(self@),
    {
        let mut i: usize = 0;
        while i < self.0.len()
            invariant
                i <= self.0@.len(),
                forall|j: int|
                    0 <= j < i ==> (#[trigger] self.0@[j]).segment_duration <= u32::MAX
                        && self.0@[j].media_time <= u32::MAX,
            decreases self.0@.len() - i,
        {
            if self.0[i].segment_duration > 0xffff_ffff || self.0[i].media_time > 0xffff_ffff {
                return false;
            }
            i = i + 1;
        }
        true
    }

    /// The entries as version 0 holds them.
    fn short_records(&self) -> (records: Vec<ShortEdit>)
        ensures
            records@ == shorten(self@),
    {
        let mut records: Vec<ShortEdit> = Vec::new();
        let mut i: usize = 0;
        while i < self.0.len()
            invariant
                i <= self.0@.len(),
                records@.len() == i,
                forall|j: int| 0 <= j < i ==> records@[j] == shorten(self.0@)[j],
            decreases self.0@.len() - i,
        {
            let entry = self.0[i];
            records.push(
                ShortEdit {
                    segment_duration: (entry.segment_duration % 0x1_0000_0000) as u32,
                    media_time: (entry.media_time % 0x1_0000_0000) as u32,
                    media_rate: entry.media_rate.bits,
                },
            );
            i = i + 1;
        }
        assert(records@ =~= shorten(self.0@));
        records
    }

    /// The entries as version 1 holds them.
    fn long_records(&self) -> (records: Vec<LongEdit>)
        ensures
            records@ == lengthen(self@),
    {
        let mut records: Vec<LongEdit> = Vec::new();
        let mut i: usize = 0;
        while i < self.0.len()
            invariant
                i <= self.0@.len(),
                records@.len() == i,
                forall|j: int| 0 <= j < i ==> records@[j] == lengthen(self.0@)[j],
            decreases self.0@.len() - i,
        {
            let entry = self.0[i];
            records.push(
                LongEdit {
                    segment_duration: entry.segment_duration,
                    media_time: entry.media_time,
                    media_rate: entry.media_rate.bits,
                },
            );
            i = i + 1;
        }
        assert(records@ =~= lengthen(self.0@));
        records
    }
}

impl Encode for EditListBox {
    open spec fn bytes(v: Seq<EditListEntry>) -> Seq<u8> {
        box_bytes(ELST, Self::body_bytes(v))
    }

    open spec fn encodable(v: Seq<EditListEntry>) -> bool {
        fits(Self::body_bytes(v))
    }

    fn size(&self) -> (n: u64) {
        proof {
            lemma_table_len(shorten(self.0@));
            lemma_table_len(lengthen(self.0@));
        }
        let count: usize = self.0.len();
        if self.is_short() {
            if count as u64 > (u64::MAX - 16) / 12 {
                u64::MAX
            } else {
                16 + count as u64 * 12
            }
        } else {
            if count as u64 > (u64::MAX - 16) / 20 {
                u64::MAX
            } else {
                16 + count as u64 * 20
            }
        }
    }

    /// Writes the list in version 0 where the times of every entry fit in
    /// 32 bits, else in version 1.
    fn encode_with(&self, output: &mut Vec<u8>, framing: Framing) -> (r: Result<(), Error>) {
        let ghost before = output@;
        proof {
            lemma_table_len(shorten(self.0@));
            lemma_table_len(lengthen(self.0@));
        }
        if self.0.len() > 0xffff_ffff {
            return Err(Error::Io(IoError::InvalidInput));
        }
        let short: bool = self.is_short();
        let begin: u64 = open_box(
            output,
            ELST,
            self.size(),
            framing,
            Ghost(Self::body_bytes(self@)),
        )?;
        if short {
            let records = self.short_records();
            put_u32(output, 0);
            put_u32(output, self.0.len() as u32);
            put_table(output, &records);
        } else {
            let records = self.long_records();
            put_u32(output, 0x0100_0000);
            put_u32(output, self.0.len() as u32);
            put_table(output, &records);
        }
        assert(output@ =~= before + be_u32(pending(framing, Self::body_bytes(self@))) + be_u32(
            ELST,
        ) + Self::body_bytes(self@));
        close_box(output, begin, framing, Ghost(before), Ghost(ELST), Ghost(Self::body_bytes(self@)))
    }
}

impl Decode for EditListBox {
    /// An entry takes 12 bytes in version 0 and 20 bytes in version 1. The
    /// entries end the part that is taken.
    open spec fn parse(input: Seq<u8>) -> Result<(Seq<EditListEntry>, int), Error> {
        let version = version_of(input);
        let count = u32_at(input, 4) as int;
        if input.len() < 4 {
            Err(eof())
        } else if version > 1 {
            Err(malformed())
        } else if input.len() < 8 {
            Err(eof())
        } else if version == 0 {
            if input.len() < 8 + count * 12 {
                Err(eof())
            } else {
                Ok((from_short(table_at::<ShortEdit>(input, 8, count)), 8 + count * 12))
            }
        } else {
            if input.len() < 8 + count * 20 {
                Err(eof())
            } else {
                Ok((from_long(table_at::<LongEdit>(input, 8, count)), 8 + count * 20))
            }
        }
    }

    fn decode(input: &mut &[u8]) -> (r: Result<Self, Error>) {
        let b: &[u8] = *input;
        if b.len() < 4 {
            return Err(Error::Io(IoError::UnexpectedEof));
        }
        let version: u32 = get_u32(b, 0) / 0x100_0000;
        if version > 1 {
            return Err(Error::Io(IoError::InvalidData));
        }
        if b.len() < 8 {
            return Err(Error::Io(IoError::UnexpectedEof));
        }
        let count: u32 = get_u32(b, 4);
        let mut entries: Vec<EditListEntry> = Vec::new();
        if version == 0 {
            if count as usize > (b.len() - 8) / 12 {
                return Err(Error::Io(IoError::UnexpectedEof));
            }
            let records = get_table::<ShortEdit>(b, 8, count as usize);
            let mut i: usize = 0;
            while i < records.len()
                invariant
                    i <= records@.len(),
                    entries@.len() == i,
                    forall|j: int| 0 <= j < i ==> entries@[j] == from_short(records@)[j],
                decreases records@.len() - i,
            {
                let record = records[i];
                entries.push(
                    EditListEntry {
                        segment_duration: record.segment_duration as u64,
                        media_time: record.media_time as u64,
                        media_rate: U16F16 { bits: record.media_rate },
                    },
                );
                i = i + 1;
            }
            assert(entries@ =~= from_short(records@));
            *input = slice_subrange(b, 8 + count as usize * 12, b.len());
        } else {
            if count as usize > (b.len() - 8) / 20 {
                return Err(Error::Io(IoError::UnexpectedEof));
            }
            let records = get_table::<LongEdit>(b, 8, count as usize);
            let mut i: usize = 0;
            while i < records.len()
                invariant
                    i <= records@.len(),
                    entries@.len() == i,
                    forall|j: int| 0 <= j < i ==> entries@[j] == from_long(records@)[j],
                decreases records@.len() - i,
            {
                let record = records[i];
                entries.push(
                    EditListEntry {
                        segment_duration: record.segment_duration,
                        media_time: record.media_time,
                        media_rate: U16F16 { bits: record.media_rate },
                    },
                );
                i = i + 1;
            }
            assert(entries@ =~= from_long(records@));
            *input = slice_subrange(b, 8 + count as usize * 20, b.len());
        }
        Ok(EditListBox(entries))
    }
}

impl BoxCodec for EditListBox {
    open spec fn box_type() -> u32 {
        ELST
    }

    open spec fn body(v: Seq<EditListEntry>) -> Seq<u8> {
        Self::body_bytes(v)
    }

    open spec fn canonical(v: Seq<EditListEntry>) -> bool {
        true
    }

    proof fn lemma_box(v: Seq<EditListEntry>) {
        assert(Self::box_type() == ELST);
        assert(Self::body(v) == Self::body_bytes(v));
        assert(Self::encodable(v) == (fits(Self::body_bytes(v))));
        assert(Self::bytes(v) == box_bytes(ELST, Self::body_bytes(v)));
    }

    proof fn lemma_round_trip(v: Seq<EditListEntry>) {
        if all_short(v) {
            let head = be_u32(0) + be_u32(v.len() as u32);
            let records = shorten(v);
            lemma_table_len(records);
            lemma_table_round_trip(head, records, Seq::<u8>::empty());
            assert(head + table_bytes(records) + Seq::<u8>::empty() =~= Self::body_bytes(v));
            assert(from_short(records) =~= v);
        } else {
            lemma_table_len(lengthen(v));
            law_edit_list_long(v);
        }
    }

    open spec fn normal(v: Seq<EditListEntry>) -> Seq<EditListEntry> {
        v
    }

    proof fn lemma_normal(v: Seq<EditListEntry>) {
        assert(Self::normal(v) == v);
    }

    open spec fn shaped(v: Seq<EditListEntry>) -> bool {
        Self::canonical(v)
    }

    proof fn lemma_decoded(v: Seq<EditListEntry>) {
        assert(Self::normal(v) == v);
        assert(Self::shaped(v) == Self::canonical(v));
    }
}

/// How the media of a track is laid on its time line (`edts`).
#[derive(Clone, Debug, PartialEq, Eq)]
pub struct EditBox {
    pub edit_list: Option<EditListBox>,
}

impl View for EditBox {
    type V = Option<Seq<EditListEntry>>;

    open spec fn view(&self) -> Option<Seq<EditListEntry>> {
        option_view(self.edit_list)
    }
}

impl Encode for EditBox {
    open spec fn bytes(v: Option<Seq<EditListEntry>>) -> Seq<u8> {
        box_bytes(EDTS, option_bytes::<EditListBox>(v))
    }

    open spec fn encodable(v: Option<Seq<EditListEntry>>) -> bool {
        fits(option_bytes::<EditListBox>(v))
    }

    fn size(&self) -> (n: u64) {
        add_size(8, size_option(&self.edit_list))
    }

    fn encode_with(&self, output: &mut Vec<u8>, framing: Framing) -> (r: Result<(), Error>) {
        let ghost before = output@;
        let begin: u64 = open_box(output, EDTS, self.size(), framing, Ghost(option_bytes::<EditListBox>(self@)))?;
        put_optional_child(&self.edit_list, output, framing, Ghost(before))?;
        close_box(
            output,
            begin,
            framing,
            Ghost(before),
            Ghost(EDTS),
            Ghost(option_bytes::<EditListBox>(self@)),
        )
    }
}

impl Decode for EditBox {
    /// The whole input is taken: it is told apart into boxes, of which one
    /// may be an `elst`; others are passed over.
    open spec fn parse(input: Seq<u8>) -> Result<(Option<Seq<EditListEntry>>, int), Error> {
        match split_boxes(input) {
            Err(e) => Err(e),
            Ok(boxes) => match optional::<EditListBox>(boxes, ELST) {
                Err(e) => Err(e),
                Ok(v) => Ok((v, input.len() as int)),
            },
        }
    }

    fn decode(input: &mut &[u8]) -> (r: Result<Self, Error>) {
        let b: &[u8] = *input;
        let boxes = split(b)?;
        let edit_list = decode_optional::<EditListBox>(b, &boxes, ELST)?;
        *input = slice_subrange(b, b.len(), b.len());
        Ok(EditBox { edit_list })
    }
}

impl BoxCodec for EditBox {
    open spec fn box_type() -> u32 {
        EDTS
    }

    open spec fn body(v: Option<Seq<EditListEntry>>) -> Seq<u8> {
        option_bytes::<EditListBox>(v)
    }

    open spec fn canonical(v: Option<Seq<EditListEntry>>) -> bool {
        v is Some ==> EditListBox::canonical(v->Some_0)
    }

    proof fn lemma_box(v: Option<Seq<EditListEntry>>) {
        assert(Self::box_type() == EDTS);
        assert(Self::body(v) == option_bytes::<EditListBox>(v));
        assert(Self::encodable(v) == (fits(option_bytes::<EditListBox>(v))));
        assert(Self::bytes(v) == box_bytes(EDTS, option_bytes::<EditListBox>(v)));
    }

    proof fn lemma_round_trip(v: Option<Seq<EditListEntry>>) {
        broadcast use lemma_select_first;

        let all = option_bytes::<EditListBox>(v);
        if v is Some {
            EditListBox::lemma_box(v->Some_0);
        }
        lemma_option_first::<EditListBox>(v, Seq::<u8>::empty());
        assert(all + Seq::<u8>::empty() =~= all);
    }

    open spec fn normal(v: Option<Seq<EditListEntry>>) -> Option<Seq<EditListEntry>> {
        v
    }

    proof fn lemma_normal(v: Option<Seq<EditListEntry>>) {
        assert(Self::normal(v) == v);
    }

    open spec fn shaped(v: Option<Seq<EditListEntry>>) -> bool {
        Self::canonical(v)
    }

    proof fn lemma_decoded(v: Option<Seq<EditListEntry>>) {
        assert(Self::normal(v) == v);
        assert(Self::shaped(v) == Self::canonical(v));
    }
}

/// A track of a movie (`trak`): its header, its media, and how the media is
/// laid on its time line.
#[derive(Clone, Debug, PartialEq, Eq)]
pub struct TrackBox {
    pub header: TrackHeaderBox,
    pub media: MediaBox,
    pub edit: Option<EditBox>,
}

/// A `TrackBox` as a mathematical value.
pub struct TrackView {
    pub header: TrackHeaderBox,
    pub media: MediaView,
    pub edit: Option<Option<Seq<EditListEntry>>>,
}

impl View for TrackBox {
    type V = TrackView;

    open spec fn view(&self) -> TrackView {
        TrackView { header: self.header, media: self.media@, edit: option_view(self.edit) }
    }
}

impl TrackBox {
    /// The body: the header, the media, and the edits where there are any.
    pub open spec fn body_bytes(v: TrackView) -> Seq<u8> {
        TrackHeaderBox::bytes(v.header) + (MediaBox::bytes(v.media) + option_bytes::<EditBox>(
            v.edit,
        ))
    }

    /// The track that the children of the box make up. Each of `tkhd` and
    /// `mdia` must occur once, `edts` may occur once, and other children are
    /// passed over. Of several faults the one of the child that is named
    /// first here is reported.
    pub open spec fn from_children(boxes: Seq<RawBox>) -> Result<TrackView, Error> {
        match (
            required::<TrackHeaderBox>(boxes, TKHD),
            required::<MediaBox>(boxes, MDIA),
            optional::<EditBox>(boxes, EDTS),
        ) {
            (Err(e), _, _) => Err(e),
            (_, Err(e), _) => Err(e),
            (_, _, Err(e)) => Err(e),
            (Ok(header), Ok(media), Ok(edit)) => Ok(TrackView { header, media, edit }),
        }
    }
}

impl Encode for TrackBox {
    open spec fn bytes(v: TrackView) -> Seq<u8> {
        box_bytes(TRAK, Self::body_bytes(v))
    }

    open spec fn encodable(v: TrackView) -> bool {
        fits(Self::body_bytes(v))
    }

    fn size(&self) -> (n: u64) {
        let mut n: u64 = add_size(8, self.header.size());
        n = add_size(n, self.media.size());
        add_size(n, size_option(&self.edit))
    }

    fn encode_with(&self, output: &mut Vec<u8>, framing: Framing) -> (r: Result<(), Error>) {
        let ghost before = output@;
        let begin: u64 = open_box(output, TRAK, self.size(), framing, Ghost(Self::body_bytes(self@)))?;
        put_child(&self.header, output, framing, Ghost(before))?;
        put_child(&self.media, output, framing, Ghost(before))?;
        put_optional_child(&self.edit, output, framing, Ghost(before))?;
        proof {
            lemma_nested_3(
                before + be_u32(pending(framing, Self::body_bytes(self@))) + be_u32(TRAK),
                TrackHeaderBox::bytes(self@.header),
                MediaBox::bytes(self@.media),
                option_bytes::<EditBox>(self@.edit),
            );
        }
        close_box(output, begin, framing, Ghost(before), Ghost(TRAK), Ghost(Self::body_bytes(self@)))
    }
}

impl Decode for TrackBox {
    /// The whole input is taken: it is told apart into boxes, which are the
    /// children.
    open spec fn parse(input: Seq<u8>) -> Result<(TrackView, int), Error> {
        match split_boxes(input) {
            Err(e) => Err(e),
            Ok(boxes) => match Self::from_children(boxes) {
                Err(e) => Err(e),
                Ok(v) => Ok((v, input.len() as int)),
            },
        }
    }

    fn decode(input: &mut &[u8]) -> (r: Result<Self, Error>) {
        let b: &[u8] = *input;
        let boxes = split(b)?;
        let header = decode_required::<TrackHeaderBox>(b, &boxes, TKHD)?;
        let media = decode_required::<MediaBox>(b, &boxes, MDIA)?;
        let edit = decode_optional::<EditBox>(b, &boxes, EDTS)?;
        *input = slice_subrange(b, b.len(), b.len());
        Ok(TrackBox { header, media, edit })
    }
}

impl BoxCodec for TrackBox {
    open spec fn box_type() -> u32 {
        TRAK
    }

    open spec fn body(v: TrackView) -> Seq<u8> {
        Self::body_bytes(v)
    }

    open spec fn canonical(v: TrackView) -> bool {
        &&& TrackHeaderBox::canonical(v.header)
        &&& MediaBox::canonical(v.media)
        &&& v.edit is Some ==> EditBox::canonical(v.edit->Some_0)
    }

    proof fn lemma_box(v: TrackView) {
        assert(Self::box_type() == TRAK);
        assert(Self::body(v) == Self::body_bytes(v));
        assert(Self::encodable(v) == (fits(Self::body_bytes(v))));
        assert(Self::bytes(v) == box_bytes(TRAK, Self::body_bytes(v)));
    }

    proof fn lemma_round_trip(v: TrackView) {
        broadcast use lemma_select_first;

        let r2 = Seq::<u8>::empty();
        let r1 = option_bytes::<EditBox>(v.edit);
        let r0 = MediaBox::bytes(v.media) + r1;
        TrackHeaderBox::lemma_box(v.header);
        MediaBox::lemma_box(v.media);
        if v.edit is Some {
            EditBox::lemma_box(v.edit->Some_0);
        }
        assert(r1 + r2 =~= r1);
        lemma_option_first::<EditBox>(v.edit, r2);
        lemma_child_first::<MediaBox>(v.media, r1);
        lemma_child_first::<TrackHeaderBox>(v.header, r0);
    }

    open spec fn normal(v: TrackView) -> TrackView {
        TrackView { media: MediaBox::normal(v.media), ..v }
    }

    proof fn lemma_normal(v: TrackView) {
        lemma_normal_bytes::<MediaBox>(v.media);
    }

    open spec fn shaped(v: TrackView) -> bool {
        MediaBox::shaped(v.media)
    }

    proof fn lemma_decoded(v: TrackView) {
        broadcast use lemma_select_first;

        let r2 = Seq::<u8>::empty();
        let r1 = option_bytes::<EditBox>(v.edit);
        let r0 = MediaBox::bytes(v.media) + r1;
        TrackHeaderBox::lemma_box(v.header);
        MediaBox::lemma_box(v.media);
        if v.edit is Some {
            EditBox::lemma_box(v.edit->Some_0);
        }
        assert(r1 + r2 =~= r1);
        lemma_option_split::<EditBox>(v.edit, r2);
        lemma_child_split::<MediaBox>(v.media, r1);
        lemma_child_split::<TrackHeaderBox>(v.header, r0);
        assert(child::<MediaBox>(MediaBox::body(v.media)) is Ok);
        MediaBox::lemma_decoded(v.media);
    }
}

} // verus!
