//! The primitive layer: big-endian integers as bytes, and the two traits
//! that every value with a byte form has, `Encode` and `Decode`.

use byteorder::ByteOrder;
use vstd::prelude::*;
use vstd::slice::slice_subrange;

use crate::error::{eof, too_large, Error, IoError};

verus! {

broadcast use vstd::slice::group_slice_axioms;

/// The two bytes of `x`, the high byte first.
#[verifier::opaque]
pub open spec fn be_u16(x: u16) -> Seq<u8> {
    seq![(x / 0x100) as u8, (x % 0x100) as u8]
}

/// The four bytes of `x`, the highest byte first.
#[verifier::opaque]
pub open spec fn be_u32(x: u32) -> Seq<u8> {
    seq![
        (x / 0x100_0000) as u8,
        (x / 0x1_0000 % 0x100) as u8,
        (x / 0x100 % 0x100) as u8,
        (x % 0x100) as u8,
    ]
}

/// The eight bytes of `x`, the highest byte first.
#[verifier::opaque]
pub open spec fn be_u64(x: u64) -> Seq<u8> {
    be_u32((x / 0x1_0000_0000) as u32) + be_u32((x % 0x1_0000_0000) as u32)
}

/// The number that the two bytes of `s` from index `i` on stand for.
#[verifier::opaque]
pub open spec fn u16_at(s: Seq<u8>, i: int) -> u16 {
    (s[i] as int * 0x100 + s[i + 1] as int) as u16
}

/// The number that the four bytes of `s` from index `i` on stand for.
#[verifier::opaque]
pub open spec fn u32_at(s: Seq<u8>, i: int) -> u32 {
    (s[i] as int * 0x100_0000 + s[i + 1] as int * 0x1_0000 + s[i + 2] as int * 0x100 + s[i
        + 3] as int) as u32
}

/// The number that the eight bytes of `s` from index `i` on stand for.
#[verifier::opaque]
pub open spec fn u64_at(s: Seq<u8>, i: int) -> u64 {
    (u32_at(s, i) as int * 0x1_0000_0000 + u32_at(s, i + 4) as int) as u64
}

/// The version of a box whose body begins with a version byte and 24 bits
/// of flags.
pub open spec fn version_of(body: Seq<u8>) -> int {
    u32_at(body, 0) as int / 0x100_0000
}

/// The flags of a box whose body begins with a version byte and 24 bits of
/// flags.
pub open spec fn flags_of(body: Seq<u8>) -> u32 {
    (u32_at(body, 0) % 0x100_0000) as u32
}

/// The low 32 bits of `x`.
pub open spec fn low32(x: u64) -> u32 {
    (x % 0x1_0000_0000) as u32
}

/// `n` where it fits in 64 bits, the largest 64-bit number where it does not.
pub open spec fn saturate(n: int) -> u64 {
    if n > u64::MAX {
        u64::MAX
    } else if n < 0 {
        0
    } else {
        n as u64
    }
}

/// A 16-bit number has two bytes.
pub broadcast proof fn lemma_be_u16_len(x: u16)
    ensures
        #[trigger] be_u16(x).len() == 2,
{
    reveal(be_u16);
}

/// A 32-bit number has four bytes.
pub broadcast proof fn lemma_be_u32_len(x: u32)
    ensures
        #[trigger] be_u32(x).len() == 4,
{
    reveal(be_u32);
}

/// A 64-bit number has eight bytes.
pub broadcast proof fn lemma_be_u64_len(x: u64)
    ensures
        #[trigger] be_u64(x).len() == 8,
{
    reveal(be_u64);
    lemma_be_u32_len((x / 0x1_0000_0000) as u32);
    lemma_be_u32_len((x % 0x1_0000_0000) as u32);
}

/// Reading back what was written gives the number that was written.
pub broadcast proof fn lemma_u16_at_be(x: u16)
    ensures
        #[trigger] u16_at(be_u16(x), 0) == x,
{
    reveal(be_u16);
    reveal(u16_at);
}

/// Reading back what was written gives the number that was written.
pub broadcast proof fn lemma_u32_at_be(x: u32)
    ensures
        #[trigger] u32_at(be_u32(x), 0) == x,
{
    reveal(be_u32);
    reveal(u32_at);
}

/// A read inside the first part of a concatenation sees only that part, and
/// one inside the second part only the second.
pub broadcast proof fn lemma_u16_at_concat(s: Seq<u8>, t: Seq<u8>, i: int)
    ensures
        0 <= i && i + 2 <= s.len() ==> #[trigger] u16_at(s + t, i) == u16_at(s, i),
        s.len() <= i && i + 2 <= s.len() + t.len() ==> u16_at(s + t, i) == u16_at(
            t,
            i - s.len(),
        ),
{
    reveal(u16_at);
}

/// A read inside the first part of a concatenation sees only that part, and
/// one inside the second part only the second.
pub broadcast proof fn lemma_u32_at_concat(s: Seq<u8>, t: Seq<u8>, i: int)
    ensures
        0 <= i && i + 4 <= s.len() ==> #[trigger] u32_at(s + t, i) == u32_at(s, i),
        s.len() <= i && i + 4 <= s.len() + t.len() ==> u32_at(s + t, i) == u32_at(
            t,
            i - s.len(),
        ),
{
    reveal(u32_at);
}

/// A read inside the first part of a concatenation sees only that part, and
/// one inside the second part only the second.
pub broadcast proof fn lemma_u64_at_concat(s: Seq<u8>, t: Seq<u8>, i: int)
    ensures
        0 <= i && i + 8 <= s.len() ==> #[trigger] u64_at(s + t, i) == u64_at(s, i),
        s.len() <= i && i + 8 <= s.len() + t.len() ==> u64_at(s + t, i) == u64_at(
            t,
            i - s.len(),
        ),
{
    reveal(u64_at);
    lemma_u32_at_concat(s, t, i);
    lemma_u32_at_concat(s, t, i + 4);
}

/// Reading back what was written gives the number that was written.
pub broadcast proof fn lemma_u64_at_be(x: u64)
    ensures
        #[trigger] u64_at(be_u64(x), 0) == x,
{
    reveal(be_u64);
    reveal(u64_at);
    let hi = (x / 0x1_0000_0000) as u32;
    let lo = (x % 0x1_0000_0000) as u32;
    lemma_be_u32_len(hi);
    lemma_be_u32_len(lo);
    lemma_u32_at_concat(be_u32(hi), be_u32(lo), 0);
    lemma_u32_at_concat(be_u32(hi), be_u32(lo), 4);
    lemma_u32_at_be(hi);
    lemma_u32_at_be(lo);
}

/// A read of a part of a sequence, at an offset within that part, is a read
/// of the sequence at the sum of the offsets.
pub broadcast proof fn lemma_u16_at_subrange(s: Seq<u8>, a: int, b: int, i: int)
    requires
        0 <= a <= b <= s.len(),
        0 <= i,
        i + 2 <= b - a,
    ensures
        #[trigger] u16_at(s.subrange(a, b), i) == u16_at(s, a + i),
{
    reveal(u16_at);
}

/// A read of a part of a sequence, at an offset within that part, is a read
/// of the sequence at the sum of the offsets.
pub broadcast proof fn lemma_u32_at_subrange(s: Seq<u8>, a: int, b: int, i: int)
    requires
        0 <= a <= b <= s.len(),
        0 <= i,
        i + 4 <= b - a,
    ensures
        #[trigger] u32_at(s.subrange(a, b), i) == u32_at(s, a + i),
{
    reveal(u32_at);
}

/// A read of a part of a sequence, at an offset within that part, is a read
/// of the sequence at the sum of the offsets.
pub broadcast proof fn lemma_u64_at_subrange(s: Seq<u8>, a: int, b: int, i: int)
    requires
        0 <= a <= b <= s.len(),
        0 <= i,
        i + 8 <= b - a,
    ensures
        #[trigger] u64_at(s.subrange(a, b), i) == u64_at(s, a + i),
{
    reveal(u64_at);
    lemma_u32_at_subrange(s, a, b, i);
    lemma_u32_at_subrange(s, a, b, i + 4);
}

/// What the proofs about fixed layouts use: the lengths of the encodings,
/// that a read gives back what was written, and how a read moves through a
/// concatenation.
pub broadcast group group_big_endian {
    lemma_be_u16_len,
    lemma_be_u32_len,
    lemma_be_u64_len,
    lemma_u16_at_be,
    lemma_u32_at_be,
    lemma_u64_at_be,
    lemma_u16_at_concat,
    lemma_u32_at_concat,
    lemma_u64_at_concat,
}

/// `byteorder::BigEndian::read_u16`: the number that the first two bytes of
/// `buf` stand for, the high byte first. It panics on a shorter buffer.
#[verifier::external_body]
fn be_read_u16(buf: &[u8]) -> (r: u16)
    requires
        buf@.len() >= 2,
    ensures
        r == u16_at(buf@, 0),
{
    byteorder::BigEndian::read_u16(buf)
}

/// `byteorder::BigEndian::read_u32`: the number that the first four bytes of
/// `buf` stand for, the highest byte first. It panics on a shorter buffer.
#[verifier::external_body]
fn be_read_u32(buf: &[u8]) -> (r: u32)
    requires
        buf@.len() >= 4,
    ensures
        r == u32_at(buf@, 0),
{
    byteorder::BigEndian::read_u32(buf)
}

/// `byteorder::BigEndian::read_u64`: the number that the first eight bytes of
/// `buf` stand for, the highest byte first. It panics on a shorter buffer.
#[verifier::external_body]
fn be_read_u64(buf: &[u8]) -> (r: u64)
    requires
        buf@.len() >= 8,
    ensures
        r == u64_at(buf@, 0),
{
    byteorder::BigEndian::read_u64(buf)
}

/// `byteorder::BigEndian::write_u16` into a buffer of two bytes: the bytes of
/// `n`, the high byte first.
#[verifier::external_body]
fn be_write_u16(n: u16) -> (r: [u8; 2])
    ensures
        r@ == be_u16(n),
{
    let mut buf = [0u8; 2];
    byteorder::BigEndian::write_u16(&mut buf, n);
    buf
}

/// `byteorder::BigEndian::write_u32` into a buffer of four bytes: the bytes
/// of `n`, the highest byte first.
#[verifier::external_body]
fn be_write_u32(n: u32) -> (r: [u8; 4])
    ensures
        r@ == be_u32(n),
{
    let mut buf = [0u8; 4];
    byteorder::BigEndian::write_u32(&mut buf, n);
    buf
}

/// `byteorder::BigEndian::write_u64` into a buffer of eight bytes: the bytes
/// of `n`, the highest byte first.
#[verifier::external_body]
fn be_write_u64(n: u64) -> (r: [u8; 8])
    ensures
        r@ == be_u64(n),
{
    let mut buf = [0u8; 8];
    byteorder::BigEndian::write_u64(&mut buf, n);
    buf
}

/// The four bytes of `n`, the highest byte first.
pub fn u32_bytes(n: u32) -> (r: [u8; 4])
    ensures
        r@ == be_u32(n),
{
    be_write_u32(n)
}

/// Reads the 16-bit number at `offset`.
pub fn get_u16(input: &[u8], offset: usize) -> (r: u16)
    requires
        offset + 2 <= input.len(),
    ensures
        r == u16_at(input@, offset as int),
{
    let part = slice_subrange(input, offset, offset + 2);
    proof {
        lemma_u16_at_subrange(input@, offset as int, offset + 2, 0);
    }
    be_read_u16(part)
}

/// Reads the 32-bit number at `offset`.
pub fn get_u32(input: &[u8], offset: usize) -> (r: u32)
    requires
        offset + 4 <= input.len(),
    ensures
        r == u32_at(input@, offset as int),
{
    let part = slice_subrange(input, offset, offset + 4);
    proof {
        lemma_u32_at_subrange(input@, offset as int, offset + 4, 0);
    }
    be_read_u32(part)
}

/// Reads the 64-bit number at `offset`.
pub fn get_u64(input: &[u8], offset: usize) -> (r: u64)
    requires
        offset + 8 <= input.len(),
    ensures
        r == u64_at(input@, offset as int),
{
    let part = slice_subrange(input, offset, offset + 8);
    proof {
        lemma_u64_at_subrange(input@, offset as int, offset + 8, 0);
    }
    be_read_u64(part)
}

/// Appends the two bytes of `n`.
pub fn put_u16(output: &mut Vec<u8>, n: u16)
    ensures
        final(output)@ == old(output)@ + be_u16(n),
{
    let b = be_write_u16(n);
    output.extend_from_slice(&b);
}

/// Appends the four bytes of `n`.
pub fn put_u32(output: &mut Vec<u8>, n: u32)
    ensures
        final(output)@ == old(output)@ + be_u32(n),
{
    let b = be_write_u32(n);
    output.extend_from_slice(&b);
}

/// Appends the eight bytes of `n`.
pub fn put_u64(output: &mut Vec<u8>, n: u64)
    ensures
        final(output)@ == old(output)@ + be_u64(n),
{
    let b = be_write_u64(n);
    output.extend_from_slice(&b);
}

/// Appends `data` as it is.
pub fn put_bytes(output: &mut Vec<u8>, data: &[u8])
    ensures
        final(output)@ == old(output)@ + data@,
{
    output.extend_from_slice(data);
}

/// The sum of two sizes, held at the largest 64-bit number where it would
/// pass it.
pub fn add_size(a: u64, b: u64) -> (r: u64)
    ensures
        r == saturate(a + b),
{
    if a > u64::MAX - b {
        u64::MAX
    } else {
        a + b
    }
}

/// How the size of a box gets into its header: there are two ways, and they
/// write the same bytes.
#[derive(Clone, Copy, Debug, PartialEq, Eq, Structural)]
pub enum Framing {
    /// The header is written with a size of zero, then the body; then the
    /// size field is set to what was written. The output must allow going
    /// back.
    Backpatch,
    /// The size is computed from the value before anything is written, and
    /// the header is written with it.
    Precomputed,
}

/// A value that has a byte form.
pub trait Encode: View {
    /// The bytes that stand for a value.
    spec fn bytes(v: Self::V) -> Seq<u8>;

    /// Whether a value can be written: every box in it, the value itself
    /// where it is one, is short enough for its 32-bit size field.
    spec fn encodable(v: Self::V) -> bool;

    /// The number of bytes that `encode` writes for the value, computed
    /// without writing them.
    fn size(&self) -> (n: u64)
        ensures
            n == saturate(Self::bytes(self@).len() as int),
    ;

    /// Appends the bytes of the value to `output`, the boxes in it framed
    /// in the given way. A value that cannot be written is refused;
    /// `output` then still begins with what it held.
    fn encode_with(&self, output: &mut Vec<u8>, framing: Framing) -> (r: Result<(), Error>)
        ensures
            r is Ok <==> Self::encodable(self@),
            r is Ok ==> final(output)@ == old(output)@ + Self::bytes(self@),
            r is Err ==> r == Err::<(), Error>(too_large()) && Self::bytes(self@).len()
                > u32::MAX && old(output)@.is_prefix_of(final(output)@),
    ;

    /// Appends the bytes of the value to `output`, the size of every box
    /// set after its body was written.
    fn encode(&self, output: &mut Vec<u8>) -> (r: Result<(), Error>)
        ensures
            r is Ok <==> Self::encodable(self@),
            r is Ok ==> final(output)@ == old(output)@ + Self::bytes(self@),
            r is Err ==> r == Err::<(), Error>(too_large()) && Self::bytes(self@).len()
                > u32::MAX && old(output)@.is_prefix_of(final(output)@),
    {
        self.encode_with(output, Framing::Backpatch)
    }

    /// Appends the bytes of the value to `output`, the size of every box
    /// computed before the box is written.
    fn encode_sized(&self, output: &mut Vec<u8>) -> (r: Result<(), Error>)
        ensures
            r is Ok <==> Self::encodable(self@),
            r is Ok ==> final(output)@ == old(output)@ + Self::bytes(self@),
            r is Err ==> r == Err::<(), Error>(too_large()) && Self::bytes(self@).len()
                > u32::MAX && old(output)@.is_prefix_of(final(output)@),
    {
        self.encode_with(output, Framing::Precomputed)
    }
}

/// A value that can be read from bytes.
pub trait Decode: View + Sized {
    /// What a buffer decodes to: the value and the number of bytes that it
    /// takes from the front of the buffer, or the reason why there is none.
    spec fn parse(input: Seq<u8>) -> Result<(Self::V, int), Error>;

    /// Reads a value from the front of `input` and moves `input` past it. On
    /// an error `input` stays where it was.
    fn decode(input: &mut &[u8]) -> (r: Result<Self, Error>)
        ensures
            match Self::parse(old(input)@) {
                Ok((v, n)) => r is Ok && r->Ok_0@ == v && 0 <= n <= old(input)@.len()
                    && final(input)@ == old(input)@.skip(n),
                Err(e) => r == Err::<Self, Error>(e) && final(input)@ == old(input)@,
            },
    ;
}

impl Encode for u16 {
    open spec fn bytes(v: u16) -> Seq<u8> {
        be_u16(v)
    }

    open spec fn encodable(v: u16) -> bool {
        true
    }

    fn size(&self) -> (n: u64) {
        broadcast use lemma_be_u16_len;

        2
    }

    fn encode_with(&self, output: &mut Vec<u8>, framing: Framing) -> (r: Result<(), Error>) {
        put_u16(output, *self);
        Ok(())
    }
}

impl Decode for u16 {
    open spec fn parse(input: Seq<u8>) -> Result<(u16, int), Error> {
        if input.len() < 2 {
            Err(eof())
        } else {
            Ok((u16_at(input, 0), 2))
        }
    }

    fn decode(input: &mut &[u8]) -> (r: Result<Self, Error>) {
        if input.len() < 2 {
            return Err(Error::Io(IoError::UnexpectedEof));
        }
        let v: u16 = get_u16(*input, 0);
        *input = slice_subrange(*input, 2, input.len());
        Ok(v)
    }
}

impl Encode for u32 {
    open spec fn bytes(v: u32) -> Seq<u8> {
        be_u32(v)
    }

    open spec fn encodable(v: u32) -> bool {
        true
    }

    fn size(&self) -> (n: u64) {
        broadcast use lemma_be_u32_len;

        4
    }

    fn encode_with(&self, output: &mut Vec<u8>, framing: Framing) -> (r: Result<(), Error>) {
        put_u32(output, *self);
        Ok(())
    }
}

impl Decode for u32 {
    open spec fn parse(input: Seq<u8>) -> Result<(u32, int), Error> {
        if input.len() < 4 {
            Err(eof())
        } else {
            Ok((u32_at(input, 0), 4))
        }
    }

    fn decode(input: &mut &[u8]) -> (r: Result<Self, Error>) {
        if input.len() < 4 {
            return Err(Error::Io(IoError::UnexpectedEof));
        }
        let v: u32 = get_u32(*input, 0);
        *input = slice_subrange(*input, 4, input.len());
        Ok(v)
    }
}

impl Encode for u64 {
    open spec fn bytes(v: u64) -> Seq<u8> {
        be_u64(v)
    }

    open spec fn encodable(v: u64) -> bool {
        true
    }

    fn size(&self) -> (n: u64) {
        broadcast use lemma_be_u64_len;

        8
    }

    fn encode_with(&self, output: &mut Vec<u8>, framing: Framing) -> (r: Result<(), Error>) {
        put_u64(output, *self);
        Ok(())
    }
}

impl Decode for u64 {
    open spec fn parse(input: Seq<u8>) -> Result<(u64, int), Error> {
        if input.len() < 8 {
            Err(eof())
        } else {
            Ok((u64_at(input, 0), 8))
        }
    }

    fn decode(input: &mut &[u8]) -> (r: Result<Self, Error>) {
        if input.len() < 8 {
            return Err(Error::Io(IoError::UnexpectedEof));
        }
        let v: u64 = get_u64(*input, 0);
        *input = slice_subrange(*input, 8, input.len());
        Ok(v)
    }
}

} // verus!
