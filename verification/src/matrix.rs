//! The transformation matrix of the movie header and the track header.

use vstd::prelude::*;
use vstd::slice::slice_subrange;

use crate::bytes::{be_u32, get_u32, group_big_endian, put_u32, u32_at, Decode, Encode, Framing};
use crate::error::{eof, Error, IoError};
use crate::fixed_point::{U16F16, U2F30};

verus! {

broadcast use {vstd::slice::group_slice_axioms, group_big_endian};

/// A transformation of the plane: the matrix
///
/// ```text
/// a b u
/// c d v
/// x y w
/// ```
///
/// whose last column is held with 30 fraction bits and the others with 16.
#[derive(Clone, Copy, Debug, PartialEq, Eq, Structural)]
pub struct Matrix {
    pub a: U16F16,
    pub b: U16F16,
    pub u: U2F30,
    pub c: U16F16,
    pub d: U16F16,
    pub v: U2F30,
    pub x: U16F16,
    pub y: U16F16,
    pub w: U2F30,
}

impl View for Matrix {
    type V = Matrix;

    open spec fn view(&self) -> Matrix {
        *self
    }
}

impl Matrix {
    /// The matrix that changes nothing: ones on the diagonal, zeros
    /// elsewhere.
    pub open spec fn spec_identity() -> Matrix {
        Matrix {
            a: U16F16 { bits: 0x1_0000 },
            b: U16F16 { bits: 0 },
            u: U2F30 { bits: 0 },
            c: U16F16 { bits: 0 },
            d: U16F16 { bits: 0x1_0000 },
            v: U2F30 { bits: 0 },
            x: U16F16 { bits: 0 },
            y: U16F16 { bits: 0 },
            w: U2F30 { bits: 0x4000_0000 },
        }
    }

    /// The matrix that changes nothing.
    pub fn identity() -> (r: Matrix)
        ensures
            r == Matrix::spec_identity(),
    {
        Matrix {
            a: U16F16 { bits: 0x1_0000 },
            b: U16F16 { bits: 0 },
            u: U2F30 { bits: 0 },
            c: U16F16 { bits: 0 },
            d: U16F16 { bits: 0x1_0000 },
            v: U2F30 { bits: 0 },
            x: U16F16 { bits: 0 },
            y: U16F16 { bits: 0 },
            w: U2F30 { bits: 0x4000_0000 },
        }
    }

    /// The matrix that the 36 bytes of `input` from `offset` on hold, row by
    /// row.
    pub open spec fn at(input: Seq<u8>, offset: int) -> Matrix {
        Matrix {
            a: U16F16 { bits: u32_at(input, offset) },
            b: U16F16 { bits: u32_at(input, offset + 4) },
            u: U2F30 { bits: u32_at(input, offset + 8) },
            c: U16F16 { bits: u32_at(input, offset + 12) },
            d: U16F16 { bits: u32_at(input, offset + 16) },
            v: U2F30 { bits: u32_at(input, offset + 20) },
            x: U16F16 { bits: u32_at(input, offset + 24) },
            y: U16F16 { bits: u32_at(input, offset + 28) },
            w: U2F30 { bits: u32_at(input, offset + 32) },
        }
    }

    /// Reads the matrix at `offset`.
    pub fn get(input: &[u8], offset: usize) -> (r: Matrix)
        requires
            offset + 36 <= input.len(),
        ensures
            r == Matrix::at(input@, offset as int),
    {
        Matrix {
            a: U16F16 { bits: get_u32(input, offset) },
            b: U16F16 { bits: get_u32(input, offset + 4) },
            u: U2F30 { bits: get_u32(input, offset + 8) },
            c: U16F16 { bits: get_u32(input, offset + 12) },
            d: U16F16 { bits: get_u32(input, offset + 16) },
            v: U2F30 { bits: get_u32(input, offset + 20) },
            x: U16F16 { bits: get_u32(input, offset + 24) },
            y: U16F16 { bits: get_u32(input, offset + 28) },
            w: U2F30 { bits: get_u32(input, offset + 32) },
        }
    }
}

impl Encode for Matrix {
    open spec fn bytes(m: Matrix) -> Seq<u8> {
        be_u32(m.a.bits) + be_u32(m.b.bits) + be_u32(m.u.bits) + be_u32(m.c.bits) + be_u32(
            m.d.bits,
        ) + be_u32(m.v.bits) + be_u32(m.x.bits) + be_u32(m.y.bits) + be_u32(m.w.bits)
    }

    open spec fn encodable(m: Matrix) -> bool {
        true
    }

    fn size(&self) -> (n: u64) {
        36
    }

    fn encode_with(&self, output: &mut Vec<u8>, framing: Framing) -> (r: Result<(), Error>) {
        put_u32(output, self.a.bits);
        put_u32(output, self.b.bits);
        put_u32(output, self.u.bits);
        put_u32(output, self.c.bits);
        put_u32(output, self.d.bits);
        put_u32(output, self.v.bits);
        put_u32(output, self.x.bits);
        put_u32(output, self.y.bits);
        put_u32(output, self.w.bits);
        assert(output@ =~= old(output)@ + Self::bytes(*self));
        Ok(())
    }
}

impl Decode for Matrix {
    open spec fn parse(input: Seq<u8>) -> Result<(Matrix, int), Error> {
        if input.len() < 36 {
            Err(eof())
        } else {
            Ok((Matrix::at(input, 0), 36))
        }
    }

    fn decode(input: &mut &[u8]) -> (r: Result<Self, Error>) {
        if input.len() < 36 {
            return Err(Error::Io(IoError::UnexpectedEof));
        }
        let m = Matrix::get(*input, 0);
        *input = slice_subrange(*input, 36, input.len());
        Ok(m)
    }
}

/// The bytes of a matrix decode to the matrix, and are all that is taken.
pub proof fn law_matrix_round_trip(m: Matrix)
    ensures
        Matrix::parse(Matrix::bytes(m)) == Ok::<(Matrix, int), Error>((m, 36)),
{
}

} // verus!
