//! Tables of entries of one fixed length, as most boxes of the sample table
//! hold them.

use vstd::prelude::*;
use vstd::slice::slice_subrange;

use crate::bytes::{
    add_size, be_u32, get_u32, group_big_endian, put_u32, saturate, u32_at, version_of, Framing,
};
use crate::error::{eof, malformed, too_large, Error, IoError};
use crate::fourcc::FourCC;
use crate::framing::{box_bytes, close_box, fits, open_box, pending};

verus! {

broadcast use {vstd::slice::group_slice_axioms, group_big_endian};

/// A value with a byte form of one fixed length, as the entries of a table
/// have.
pub trait Record: Sized {
    /// The number of bytes of every value.
    spec fn width() -> int;

    /// The bytes of the value.
    spec fn record_bytes(self) -> Seq<u8>;

    /// The value that the bytes of `input` from `offset` on hold.
    spec fn record_at(input: Seq<u8>, offset: int) -> Self;

    /// The number of bytes of every value.
    fn exec_width() -> (w: usize)
        ensures
            w == Self::width(),
            0 < w <= 64,
    ;

    /// Appends the bytes of the value.
    fn put(&self, output: &mut Vec<u8>)
        ensures
            final(output)@ == old(output)@ + self.record_bytes(),
    ;

    /// Reads the value at `offset`.
    fn get(input: &[u8], offset: usize) -> (r: Self)
        requires
            offset + Self::width() <= input.len(),
        ensures
            r == Self::record_at(input@, offset as int),
    ;

    /// A value has at least one byte.
    proof fn lemma_width()
        ensures
            0 < Self::width(),
    ;

    /// The bytes of a value have the fixed length and hold the value.
    proof fn lemma_record(self)
        ensures
            self.record_bytes().len() == Self::width(),
            Self::record_at(self.record_bytes(), 0) == self,
    ;

    /// A read inside the first part of a concatenation sees only that part,
    /// and one inside the second part only the second.
    proof fn lemma_record_at(s: Seq<u8>, t: Seq<u8>, i: int)
        ensures
            0 <= i && i + Self::width() <= s.len() ==> Self::record_at(s + t, i)
                == Self::record_at(s, i),
            s.len() <= i && i + Self::width() <= s.len() + t.len() ==> Self::record_at(s + t, i)
                == Self::record_at(t, i - s.len()),
    ;
}

impl Record for u32 {
    open spec fn width() -> int {
        4
    }

    open spec fn record_bytes(self) -> Seq<u8> {
        be_u32(self)
    }

    open spec fn record_at(input: Seq<u8>, offset: int) -> u32 {
        u32_at(input, offset)
    }

    fn exec_width() -> (w: usize) {
        4
    }

    fn put(&self, output: &mut Vec<u8>) {
        put_u32(output, *self);
    }

    fn get(input: &[u8], offset: usize) -> (r: u32) {
        get_u32(input, offset)
    }

    proof fn lemma_width() {
    }

    proof fn lemma_record(self) {
    }

    proof fn lemma_record_at(s: Seq<u8>, t: Seq<u8>, i: int) {
    }
}

impl Record for FourCC {
    open spec fn width() -> int {
        4
    }

    open spec fn record_bytes(self) -> Seq<u8> {
        be_u32(self.0)
    }

    open spec fn record_at(input: Seq<u8>, offset: int) -> FourCC {
        FourCC(u32_at(input, offset))
    }

    fn exec_width() -> (w: usize) {
        4
    }

    fn put(&self, output: &mut Vec<u8>) {
        put_u32(output, self.0);
    }

    fn get(input: &[u8], offset: usize) -> (r: FourCC) {
        FourCC(get_u32(input, offset))
    }

    proof fn lemma_width() {
    }

    proof fn lemma_record(self) {
    }

    proof fn lemma_record_at(s: Seq<u8>, t: Seq<u8>, i: int) {
    }
}

/// The bytes of a table: those of its entries, one after the other.
pub open spec fn table_bytes<R: Record>(entries: Seq<R>) -> Seq<u8>
    decreases entries.len(),
{
    if entries.len() == 0 {
        Seq::empty()
    } else {
        table_bytes(entries.drop_last()) + entries.last().record_bytes()
    }
}

/// The table of `count` entries that `input` holds from `offset` on.
pub open spec fn table_at<R: Record>(input: Seq<u8>, offset: int, count: int) -> Seq<R> {
    Seq::new(count as nat, |i: int| R::record_at(input, offset + i * R::width()))
}

/// A table has as many bytes as it has entries, times their length.
pub proof fn lemma_table_len<R: Record>(entries: Seq<R>)
    ensures
        table_bytes(entries).len() == entries.len() * R::width(),
    decreases entries.len(),
{
    if entries.len() > 0 {
        lemma_table_len(entries.drop_last());
        entries.last().lemma_record();
        assert((entries.len() - 1) * R::width() + R::width() == entries.len() * R::width())
            by (nonlinear_arith);
    }
}

/// The entry at index `i` of a table lies `i` entry lengths into its bytes.
pub proof fn lemma_table_entry<R: Record>(entries: Seq<R>, i: int)
    requires
        0 <= i < entries.len(),
    ensures
        0 <= i * R::width(),
        i * R::width() + R::width() <= table_bytes(entries).len(),
        R::record_at(table_bytes(entries), i * R::width()) == entries[i],
    decreases entries.len(),
{
    let w = R::width();
    let init = entries.drop_last();
    let last = entries.last();
    lemma_table_len(entries);
    lemma_table_len(init);
    last.lemma_record();
    R::lemma_width();
    assert(0 <= i * w && i * w + w <= entries.len() * w && (entries.len() - 1) * w + w
        == entries.len() * w) by (nonlinear_arith)
        requires
            0 <= i < entries.len(),
            0 < w,
    ;
    R::lemma_record_at(table_bytes(init), last.record_bytes(), i * w);
    if i < entries.len() - 1 {
        lemma_table_entry(init, i);
    }
}

/// A table that stands between other bytes is read back from where it
/// begins.
pub proof fn lemma_table_round_trip<R: Record>(before: Seq<u8>, entries: Seq<R>, after: Seq<u8>)
    ensures
        table_at::<R>(
            before + table_bytes(entries) + after,
            before.len() as int,
            entries.len() as int,
        ) == entries,
{
    let w = R::width();
    let all = before + table_bytes(entries) + after;
    let read = table_at::<R>(all, before.len() as int, entries.len() as int);
    assert forall|i: int| 0 <= i < entries.len() implies read[i] == entries[i] by {
        lemma_table_entry(entries, i);
        R::lemma_record_at(before + table_bytes(entries), after, before.len() + i * w);
        R::lemma_record_at(before, table_bytes(entries), before.len() + i * w);
    }
    assert(read =~= entries);
}

/// Appends the bytes of a table.
pub fn put_table<R: Record>(output: &mut Vec<u8>, entries: &Vec<R>)
    ensures
        final(output)@ == old(output)@ + table_bytes(entries@),
{
    let mut i: usize = 0;
    assert(entries@.take(0) =~= Seq::empty());
    assert(output@ + Seq::<u8>::empty() =~= output@);
    while i < entries.len()
        invariant
            i <= entries@.len(),
            output@ == old(output)@ + table_bytes(entries@.take(i as int)),
        decreases entries@.len() - i,
    {
        let ghost before = output@;
        entries[i].put(output);
        proof {
            let done = entries@.take(i as int);
            let more = entries@.take(i + 1);
            assert(more.drop_last() =~= done);
            assert(more.last() == entries@[i as int]);
            assert(before + entries@[i as int].record_bytes() =~= old(output)@ + (table_bytes(done)
                + entries@[i as int].record_bytes()));
        }
        i = i + 1;
    }
    assert(entries@.take(i as int) =~= entries@);
}

/// Reads the table of `count` entries at `offset`.
pub fn get_table<R: Record>(input: &[u8], offset: usize, count: usize) -> (r: Vec<R>)
    requires
        offset + count * R::width() <= input.len(),
    ensures
        r@ == table_at::<R>(input@, offset as int, count as int),
{
    let w: usize = R::exec_width();
    let mut entries: Vec<R> = Vec::new();
    let mut i: usize = 0;
    let mut pos: usize = offset;
    while i < count
        invariant
            w == R::width(),
            0 < w,
            i <= count,
            pos == offset + i * w,
            offset + count * w <= input.len(),
            entries@.len() == i,
            forall|j: int| 0 <= j < i ==> entries@[j] == R::record_at(input@, offset + j * w),
        decreases count - i,
    {
        assert(i * w + w <= count * w && (i + 1) * w == i * w + w) by (nonlinear_arith)
            requires
                i < count,
                0 < w,
        ;
        let entry = R::get(input, pos);
        entries.push(entry);
        pos = pos + w;
        i = i + 1;
    }
    assert(entries@ =~= table_at::<R>(input@, offset as int, count as int));
    entries
}

/// The number of bytes of a table, held at the largest 64-bit number where
/// it would pass it.
pub fn table_size<R: Record>(entries: &Vec<R>) -> (n: u64)
    ensures
        n == saturate(table_bytes(entries@).len() as int),
{
    let w: usize = R::exec_width();
    let count: usize = entries.len();
    proof {
        lemma_table_len(entries@);
    }
    if count as u64 > u64::MAX / (w as u64) {
        assert(count * w > u64::MAX) by (nonlinear_arith)
            requires
                count > u64::MAX / (w as u64),
                0 < w,
        ;
        u64::MAX
    } else {
        assert(count * w <= u64::MAX) by (nonlinear_arith)
            requires
                count <= u64::MAX / (w as u64),
                0 < w,
        ;
        count as u64 * w as u64
    }
}

/// The body of a box that holds a counted table: version 0 and no flags,
/// the number of entries, then the entries.
pub open spec fn counted_body<R: Record>(entries: Seq<R>) -> Seq<u8> {
    be_u32(0) + be_u32(entries.len() as u32) + table_bytes(entries)
}

/// What the body of a box that holds a counted table decodes to. Only
/// version 0 is known; the flags are not looked at.
pub open spec fn counted_parse<R: Record>(input: Seq<u8>) -> Result<(Seq<R>, int), Error> {
    if input.len() < 4 {
        Err(eof())
    } else if version_of(input) != 0 {
        Err(malformed())
    } else if input.len() < 8 {
        Err(eof())
    } else if input.len() < 8 + u32_at(input, 4) * R::width() {
        Err(eof())
    } else {
        Ok((table_at::<R>(input, 8, u32_at(input, 4) as int), 8 + u32_at(input, 4) * R::width()))
    }
}

/// The body of a counted table decodes to the table, and all of it is
/// taken.
pub proof fn lemma_counted_round_trip<R: Record>(entries: Seq<R>)
    requires
        fits(counted_body(entries)),
    ensures
        counted_parse::<R>(counted_body(entries)) == Ok::<(Seq<R>, int), Error>(
            (entries, counted_body(entries).len() as int),
        ),
{
    let head = be_u32(0) + be_u32(entries.len() as u32);
    lemma_table_len(entries);
    R::lemma_width();
    assert(entries.len() <= entries.len() * R::width()) by (nonlinear_arith)
        requires
            0 < R::width(),
    ;
    assert(u32_at(counted_body(entries), 4) == entries.len());
    lemma_table_round_trip(head, entries, Seq::<u8>::empty());
    assert(head + table_bytes(entries) + Seq::<u8>::empty() =~= counted_body(entries));
}

/// Writes a box of type `box_type` that holds a counted table.
pub fn encode_counted<R: Record>(
    box_type: u32,
    entries: &Vec<R>,
    output: &mut Vec<u8>,
    framing: Framing,
) -> (r: Result<(), Error>)
    ensures
        r is Ok <==> fits(counted_body(entries@)),
        r is Ok ==> final(output)@ == old(output)@ + box_bytes(box_type, counted_body(entries@)),
        r is Err ==> r == Err::<(), Error>(too_large()) && old(output)@.is_prefix_of(
            final(output)@,
        ),
{
    let ghost before = output@;
    proof {
        lemma_table_len(entries@);
        R::lemma_width();
        assert(entries@.len() <= entries@.len() * R::width()) by (nonlinear_arith)
            requires
                0 < R::width(),
        ;
    }
    if entries.len() > 0xffff_ffff {
        return Err(Error::Io(IoError::InvalidInput));
    }
    let begin: u64 = open_box(
        output,
        box_type,
        add_size(16, table_size(entries)),
        framing,
        Ghost(counted_body(entries@)),
    )?;
    put_u32(output, 0);
    put_u32(output, entries.len() as u32);
    put_table(output, entries);
    assert(output@ =~= before + be_u32(pending(framing, counted_body(entries@))) + be_u32(box_type) + counted_body(entries@));
    close_box(output, begin, framing, Ghost(before), Ghost(box_type), Ghost(counted_body(entries@)))
}

/// Reads the body of a box that holds a counted table, and moves `input`
/// past it.
pub fn decode_counted<R: Record>(input: &mut &[u8]) -> (r: Result<Vec<R>, Error>)
    ensures
        match counted_parse::<R>(old(input)@) {
            Ok((v, n)) => r is Ok && r->Ok_0@ == v && 0 <= n <= old(input)@.len() && final(input)@
                == old(input)@.skip(n),
            Err(e) => r == Err::<Vec<R>, Error>(e) && final(input)@ == old(input)@,
        },
{
    let b: &[u8] = *input;
    let w: usize = R::exec_width();
    if b.len() < 4 {
        return Err(Error::Io(IoError::UnexpectedEof));
    }
    if get_u32(b, 0) / 0x100_0000 != 0 {
        return Err(Error::Io(IoError::InvalidData));
    }
    if b.len() < 8 {
        return Err(Error::Io(IoError::UnexpectedEof));
    }
    let count: u32 = get_u32(b, 4);
    let room: usize = b.len() - 8;
    if count as usize > room / w {
        assert(count * w > room) by (nonlinear_arith)
            requires
                count > room / w,
                0 < w,
        ;
        return Err(Error::Io(IoError::UnexpectedEof));
    }
    assert(count * w <= room) by (nonlinear_arith)
        requires
            count <= room / w,
            0 < w,
    ;
    let entries = get_table::<R>(b, 8, count as usize);
    *input = slice_subrange(b, 8 + count as usize * w, b.len());
    Ok(entries)
}

} // verus!
