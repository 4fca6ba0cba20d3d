//! Texts that end with a zero byte.

use vstd::prelude::*;
use vstd::slice::{slice_subrange, slice_to_vec};
use vstd::utf8::{
    decode_utf8, encode_scalar, encode_utf8, encode_utf8_decode_utf8, encode_utf8_valid_utf8,
    valid_utf8,
};

use crate::bytes::{add_size, put_bytes, Decode, Encode, Framing};
use crate::error::{malformed, Error, IoError};

verus! {

broadcast use vstd::slice::group_slice_axioms;

/// The bytes of a text: none for the empty text; else its UTF-8 form and a
/// zero byte that ends it.
pub open spec fn text_bytes(text: Seq<char>) -> Seq<u8> {
    if text.len() == 0 {
        Seq::empty()
    } else {
        encode_utf8(text) + seq![0u8]
    }
}

/// The number of bytes before the first zero byte, all of them where there
/// is none.
pub open spec fn text_len(input: Seq<u8>) -> int
    decreases input.len(),
{
    if input.len() == 0 || input[0] == 0 {
        0
    } else {
        1 + text_len(input.drop_first())
    }
}

/// Whether a text holds no NUL character.
pub open spec fn nul_free(text: Seq<char>) -> bool {
    forall|i: int| 0 <= i < text.len() ==> text[i] != '\0'
}

/// Whether no byte is zero.
pub open spec fn no_zero(bytes: Seq<u8>) -> bool {
    forall|i: int| 0 <= i < bytes.len() ==> bytes[i] != 0
}

/// The index that ends a run of bytes that are not zero, at a zero byte or
/// at the end, is the number of bytes before the first zero byte.
pub proof fn lemma_text_len(input: Seq<u8>, n: int)
    requires
        0 <= n <= input.len(),
        forall|j: int| 0 <= j < n ==> input[j] != 0,
        n == input.len() || input[n] == 0,
    ensures
        text_len(input) == n,
    decreases n,
{
    if n > 0 {
        lemma_text_len(input.drop_first(), n - 1);
    }
}

/// The UTF-8 form of a character other than NUL holds no zero byte.
proof fn lemma_scalar_no_zero(c: u32)
    requires
        c != 0,
    ensures
        no_zero(encode_scalar(c)),
{
    assert(c != 0 && c <= 0x7f ==> (c & 0x7f) as u8 != 0) by (bit_vector);
    assert(0xC0u8 | ((c >> 6) & 0x1F) as u8 != 0) by (bit_vector);
    assert(0xE0u8 | ((c >> 12) & 0x0F) as u8 != 0) by (bit_vector);
    assert(0xF0u8 | ((c >> 18) & 0x7) as u8 != 0) by (bit_vector);
    assert(0x80u8 | (c & 0x3F) as u8 != 0) by (bit_vector);
    assert(0x80u8 | ((c >> 6) & 0x3F) as u8 != 0) by (bit_vector);
    assert(0x80u8 | ((c >> 12) & 0x3F) as u8 != 0) by (bit_vector);
}

/// The UTF-8 form of a text without a NUL character holds no zero byte.
pub proof fn lemma_nul_free(text: Seq<char>)
    requires
        nul_free(text),
    ensures
        no_zero(encode_utf8(text)),
        text.len() > 0 ==> encode_utf8(text).len() > 0,
    decreases text.len(),
{
    if text.len() > 0 {
        let c: char = text[0];
        let u: u32 = c as u32;
        vstd::utf8::char_u32_cast(c, u);
        assert(0u32 as char == '\0');
        lemma_scalar_no_zero(u);
        lemma_nul_free(text.drop_first());
    }
}

/// `String::from_utf8`: the text whose UTF-8 form the bytes are, where they
/// are the UTF-8 form of a text.
#[verifier::external_body]
pub(crate) fn string_from_utf8(bytes: Vec<u8>) -> (r: Option<String>)
    ensures
        r is Some <==> valid_utf8(bytes@),
        r is Some ==> r->Some_0@ == decode_utf8(bytes@),
{
    match String::from_utf8(bytes) {
        Ok(text) => Some(text),
        Err(_) => None,
    }
}

impl Encode for String {
    open spec fn bytes(text: Seq<char>) -> Seq<u8> {
        text_bytes(text)
    }

    open spec fn encodable(text: Seq<char>) -> bool {
        true
    }

    fn size(&self) -> (n: u64) {
        let text = self.as_str();
        if text.is_empty() {
            assert(Self::bytes(self@).len() == 0);
            0
        } else {
            let utf8 = text.as_bytes();
            assert(Self::bytes(self@).len() == utf8@.len() + 1);
            add_size(utf8.len() as u64, 1)
        }
    }

    /// Writes nothing for the empty text, and a text with its terminator
    /// else.
    fn encode_with(&self, output: &mut Vec<u8>, framing: Framing) -> (r: Result<(), Error>) {
        let text = self.as_str();
        if !text.is_empty() {
            put_bytes(output, text.as_bytes());
            output.push(0);
            assert(output@ =~= old(output)@ + text_bytes(self@));
        } else {
            assert(output@ =~= old(output)@ + text_bytes(self@));
        }
        Ok(())
    }
}

impl Decode for String {
    /// The text before the first zero byte, which is taken with it. Where
    /// there is no zero byte the text goes to the end of the input, and all
    /// of the input is taken. Bytes that are not the UTF-8 form of a text
    /// are malformed.
    open spec fn parse(input: Seq<u8>) -> Result<(Seq<char>, int), Error> {
        let n = text_len(input);
        if !valid_utf8(input.take(n)) {
            Err(malformed())
        } else if n == input.len() {
            Ok((decode_utf8(input.take(n)), n))
        } else {
            Ok((decode_utf8(input.take(n)), n + 1))
        }
    }

    fn decode(input: &mut &[u8]) -> (r: Result<Self, Error>) {
        let b: &[u8] = *input;
        let mut n: usize = 0;
        while n < b.len() && b[n] != 0
            invariant
                n <= b@.len(),
                forall|j: int| 0 <= j < n ==> b@[j] != 0,
            decreases b@.len() - n,
        {
            n = n + 1;
        }
        proof {
            lemma_text_len(b@, n as int);
        }
        let taken: usize = if n == b.len() {
            n
        } else {
            n + 1
        };
        match string_from_utf8(slice_to_vec(slice_subrange(b, 0, n))) {
            None => Err(Error::Io(IoError::InvalidData)),
            Some(text) => {
                *input = slice_subrange(b, taken, b.len());
                Ok(text)
            },
        }
    }
}

/// A text that holds no NUL character and is not empty decodes from its
/// bytes, whatever follows them; its bytes are what is taken.
pub proof fn law_text_round_trip(text: Seq<char>, rest: Seq<u8>)
    requires
        nul_free(text),
        text.len() > 0,
    ensures
        String::parse(text_bytes(text) + rest) == Ok::<(Seq<char>, int), Error>(
            (text, text_bytes(text).len() as int),
        ),
{
    let utf8 = encode_utf8(text);
    let input = text_bytes(text) + rest;
    lemma_nul_free(text);
    lemma_text_len(input, utf8.len() as int);
    assert(input.take(utf8.len() as int) =~= utf8);
    encode_utf8_valid_utf8(text);
    encode_utf8_decode_utf8(text);
}

/// The empty text is written as no bytes, and no bytes decode to the empty
/// text.
pub proof fn law_empty_text()
    ensures
        text_bytes(Seq::<char>::empty()) == Seq::<u8>::empty(),
        String::parse(Seq::<u8>::empty()) == Ok::<(Seq<char>, int), Error>(
            (Seq::<char>::empty(), 0),
        ),
{
    let none = Seq::<char>::empty();
    let input = Seq::<u8>::empty();
    assert(encode_utf8(none) =~= input);
    assert(input.take(0) =~= input);
    encode_utf8_valid_utf8(none);
    encode_utf8_decode_utf8(none);
}

/// A text that holds no NUL character and whose terminator is missing
/// decodes from the bytes up to the end of the input, which are all taken.
pub proof fn law_text_without_terminator(text: Seq<char>)
    requires
        nul_free(text),
    ensures
        String::parse(encode_utf8(text)) == Ok::<(Seq<char>, int), Error>(
            (text, encode_utf8(text).len() as int),
        ),
{
    let utf8 = encode_utf8(text);
    lemma_nul_free(text);
    lemma_text_len(utf8, utf8.len() as int);
    assert(utf8.take(utf8.len() as int) =~= utf8);
    encode_utf8_valid_utf8(text);
    encode_utf8_decode_utf8(text);
}

} // verus!
