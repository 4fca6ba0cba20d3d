//! Unsigned fixed-point numbers in the three formats that the boxes use,
//! held as their bits.

use vstd::prelude::*;
use vstd::slice::slice_subrange;

use crate::bytes::{
    be_u16, be_u32, get_u16, get_u32, lemma_be_u16_len, lemma_be_u32_len, put_u16, put_u32, u16_at,
    u32_at, Decode, Encode, Framing,
};
use crate::error::{eof, Error, IoError};

verus! {

broadcast use vstd::slice::group_slice_axioms;

/// An unsigned fixed-point number of 8 integer bits and 8 fraction bits,
/// held as its bits: it stands for `bits / 0x100`.
#[derive(Clone, Copy, Debug, PartialEq, Eq, Structural)]
pub struct U8F8 {
    pub bits: u16,
}

impl View for U8F8 {
    type V = U8F8;

    open spec fn view(&self) -> U8F8 {
        *self
    }
}

impl U8F8 {
    /// By how much the bits are larger than the number they stand for.
    pub open spec fn scale() -> int {
        0x100
    }

    /// The number with the given bits.
    pub fn from_bits(bits: u16) -> (r: Self)
        ensures
            r.bits == bits,
    {
        U8F8 { bits }
    }

    /// The bits of the number.
    pub fn to_bits(self) -> (r: u16)
        ensures
            r == self.bits,
    {
        self.bits
    }

    /// The whole number `n`, where the integer bits can hold it.
    pub fn from_int(n: u32) -> (r: Option<Self>)
        ensures
            r is Some <==> n <= 255,
            r is Some ==> r->Some_0.bits == n * Self::scale(),
    {
        if n <= 255 {
            Some(U8F8 { bits: (n as u16) * 0x100 })
        } else {
            None
        }
    }

    /// The integer part of the number.
    pub fn int_part(self) -> (r: u8)
        ensures
            r == self.bits as int / Self::scale(),
    {
        (self.bits / 0x100) as u8
    }

    /// The fraction bits of the number.
    pub fn fraction_bits(self) -> (r: u16)
        ensures
            r == self.bits as int % Self::scale(),
    {
        self.bits % 0x100
    }
}

impl Encode for U8F8 {
    open spec fn bytes(v: U8F8) -> Seq<u8> {
        be_u16(v.bits)
    }

    open spec fn encodable(v: U8F8) -> bool {
        true
    }

    fn size(&self) -> (n: u64) {
        broadcast use lemma_be_u16_len;

        2
    }

    fn encode_with(&self, output: &mut Vec<u8>, framing: Framing) -> (r: Result<(), Error>) {
        put_u16(output, self.bits);
        Ok(())
    }
}

impl Decode for U8F8 {
    open spec fn parse(input: Seq<u8>) -> Result<(U8F8, int), Error> {
        if input.len() < 2 {
            Err(eof())
        } else {
            Ok((U8F8 { bits: u16_at(input, 0) }, 2))
        }
    }

    fn decode(input: &mut &[u8]) -> (r: Result<Self, Error>) {
        if input.len() < 2 {
            return Err(Error::Io(IoError::UnexpectedEof));
        }
        let bits: u16 = get_u16(*input, 0);
        *input = slice_subrange(*input, 2, input.len());
        Ok(U8F8 { bits })
    }
}

/// An unsigned fixed-point number of 16 integer bits and 16 fraction bits,
/// held as its bits: it stands for `bits / 0x10000`.
#[derive(Clone, Copy, Debug, PartialEq, Eq, Structural)]
pub struct U16F16 {
    pub bits: u32,
}

impl View for U16F16 {
    type V = U16F16;

    open spec fn view(&self) -> U16F16 {
        *self
    }
}

impl U16F16 {
    /// By how much the bits are larger than the number they stand for.
    pub open spec fn scale() -> int {
        0x10000
    }

    /// The number with the given bits.
    pub fn from_bits(bits: u32) -> (r: Self)
        ensures
            r.bits == bits,
    {
        U16F16 { bits }
    }

    /// The bits of the number.
    pub fn to_bits(self) -> (r: u32)
        ensures
            r == self.bits,
    {
        self.bits
    }

    /// The whole number `n`, where the integer bits can hold it.
    pub fn from_int(n: u32) -> (r: Option<Self>)
        ensures
            r is Some <==> n <= 65535,
            r is Some ==> r->Some_0.bits == n * Self::scale(),
    {
        if n <= 65535 {
            Some(U16F16 { bits: n * 0x10000 })
        } else {
            None
        }
    }

    /// The integer part of the number.
    pub fn int_part(self) -> (r: u16)
        ensures
            r == self.bits as int / Self::scale(),
    {
        (self.bits / 0x10000) as u16
    }

    /// The fraction bits of the number.
    pub fn fraction_bits(self) -> (r: u32)
        ensures
            r == self.bits as int % Self::scale(),
    {
        self.bits % 0x10000
    }
}

impl Encode for U16F16 {
    open spec fn bytes(v: U16F16) -> Seq<u8> {
        be_u32(v.bits)
    }

    open spec fn encodable(v: U16F16) -> bool {
        true
    }

    fn size(&self) -> (n: u64) {
        broadcast use lemma_be_u32_len;

        4
    }

    fn encode_with(&self, output: &mut Vec<u8>, framing: Framing) -> (r: Result<(), Error>) {
        put_u32(output, self.bits);
        Ok(())
    }
}

impl Decode for U16F16 {
    open spec fn parse(input: Seq<u8>) -> Result<(U16F16, int), Error> {
        if input.len() < 4 {
            Err(eof())
        } else {
            Ok((U16F16 { bits: u32_at(input, 0) }, 4))
        }
    }

    fn decode(input: &mut &[u8]) -> (r: Result<Self, Error>) {
        if input.len() < 4 {
            return Err(Error::Io(IoError::UnexpectedEof));
        }
        let bits: u32 = get_u32(*input, 0);
        *input = slice_subrange(*input, 4, input.len());
        Ok(U16F16 { bits })
    }
}

/// An unsigned fixed-point number of 2 integer bits and 30 fraction bits,
/// held as its bits: it stands for `bits / 0x40000000`.
#[derive(Clone, Copy, Debug, PartialEq, Eq, Structural)]
pub struct U2F30 {
    pub bits: u32,
}

impl View for U2F30 {
    type V = U2F30;

    open spec fn view(&self) -> U2F30 {
        *self
    }
}

impl U2F30 {
    /// By how much the bits are larger than the number they stand for.
    pub open spec fn scale() -> int {
        0x40000000
    }

    /// The number with the given bits.
    pub fn from_bits(bits: u32) -> (r: Self)
        ensures
            r.bits == bits,
    {
        U2F30 { bits }
    }

    /// The bits of the number.
    pub fn to_bits(self) -> (r: u32)
        ensures
            r == self.bits,
    {
        self.bits
    }

    /// The whole number `n`, where the integer bits can hold it.
    pub fn from_int(n: u32) -> (r: Option<Self>)
        ensures
            r is Some <==> n <= 3,
            r is Some ==> r->Some_0.bits == n * Self::scale(),
    {
        if n <= 3 {
            Some(U2F30 { bits: n * 0x40000000 })
        } else {
            None
        }
    }

    /// The integer part of the number.
    pub fn int_part(self) -> (r: u8)
        ensures
            r == self.bits as int / Self::scale(),
    {
        (self.bits / 0x40000000) as u8
    }

    /// The fraction bits of the number.
    pub fn fraction_bits(self) -> (r: u32)
        ensures
            r == self.bits as int % Self::scale(),
    {
        self.bits % 0x40000000
    }
}

impl Encode for U2F30 {
    open spec fn bytes(v: U2F30) -> Seq<u8> {
        be_u32(v.bits)
    }

    open spec fn encodable(v: U2F30) -> bool {
        true
    }

    fn size(&self) -> (n: u64) {
        broadcast use lemma_be_u32_len;

        4
    }

    fn encode_with(&self, output: &mut Vec<u8>, framing: Framing) -> (r: Result<(), Error>) {
        put_u32(output, self.bits);
        Ok(())
    }
}

impl Decode for U2F30 {
    open spec fn parse(input: Seq<u8>) -> Result<(U2F30, int), Error> {
        if input.len() < 4 {
            Err(eof())
        } else {
            Ok((U2F30 { bits: u32_at(input, 0) }, 4))
        }
    }

    fn decode(input: &mut &[u8]) -> (r: Result<Self, Error>) {
        if input.len() < 4 {
            return Err(Error::Io(IoError::UnexpectedEof));
        }
        let bits: u32 = get_u32(*input, 0);
        *input = slice_subrange(*input, 4, input.len());
        Ok(U2F30 { bits })
    }
}

/// Taking the bits of a number and making a number of them gives the same
/// number, bit for bit, in each of the three formats.
pub proof fn law_fixed_bits(a: U8F8, b: U16F16, c: U2F30)
    ensures
        (U8F8 { bits: a.bits }) == a,
        (U16F16 { bits: b.bits }) == b,
        (U2F30 { bits: c.bits }) == c,
{
}

} // verus!
