//! Four-character codes, the codes of the boxes that are known, and packed
//! language codes.

use vstd::prelude::*;
use vstd::slice::slice_to_vec;
use vstd::utf8::{decode_utf8, encode_utf8, valid_utf8};

use crate::bytes::{be_u32, get_u32, lemma_be_u32_len, lemma_u32_at_be, u32_at, u32_bytes};
use crate::error::{Error, IoError};
use crate::text::string_from_utf8;

verus! {

/// A four-character code: the four bytes of a box type or a brand, held as
/// one big-endian number. Two codes are equal when their bytes are.
#[derive(Clone, Copy, Debug, PartialEq, Eq, Structural)]
pub struct FourCC(pub u32);

/// The code `ftyp`.
pub const FTYP: u32 = 0x6674_7970;

/// The code `free`.
pub const FREE: u32 = 0x6672_6565;

/// The code `mdat`.
pub const MDAT: u32 = 0x6d64_6174;

/// The code `moov`.
pub const MOOV: u32 = 0x6d6f_6f76;

/// The code `mvhd`.
pub const MVHD: u32 = 0x6d76_6864;

/// The code `trak`.
pub const TRAK: u32 = 0x7472_616b;

/// The code `tkhd`.
pub const TKHD: u32 = 0x746b_6864;

/// The code `edts`.
pub const EDTS: u32 = 0x6564_7473;

/// The code `elst`.
pub const ELST: u32 = 0x656c_7374;

/// The code `mdia`.
pub const MDIA: u32 = 0x6d64_6961;

/// The code `mdhd`.
pub const MDHD: u32 = 0x6d64_6864;

/// The code `hdlr`.
pub const HDLR: u32 = 0x6864_6c72;

/// The code `minf`.
pub const MINF: u32 = 0x6d69_6e66;

/// The code `vmhd`.
pub const VMHD: u32 = 0x766d_6864;

/// The code `smhd`.
pub const SMHD: u32 = 0x736d_6864;

/// The code `dinf`.
pub const DINF: u32 = 0x6469_6e66;

/// The code `dref`.
pub const DREF: u32 = 0x6472_6566;

/// The code `url `.
pub const URL: u32 = 0x7572_6c20;

/// The code `urn `.
pub const URN: u32 = 0x7572_6e20;

/// The code `stbl`.
pub const STBL: u32 = 0x7374_626c;

/// The code `stsd`.
pub const STSD: u32 = 0x7374_7364;

/// The code `stts`.
pub const STTS: u32 = 0x7374_7473;

/// The code `stss`.
pub const STSS: u32 = 0x7374_7373;

/// The code `stsz`.
pub const STSZ: u32 = 0x7374_737a;

/// The code `stsc`.
pub const STSC: u32 = 0x7374_7363;

/// The code `stco`.
pub const STCO: u32 = 0x7374_636f;

/// The code `sbgp`.
pub const SBGP: u32 = 0x7362_6770;

/// The code `av01`.
pub const AV01: u32 = 0x6176_3031;

/// The code `avc1`.
pub const AVC1: u32 = 0x6176_6331;

/// The code `mp4a`.
pub const MP4A: u32 = 0x6d70_3461;

/// The code `isom`.
pub const ISOM: u32 = 0x6973_6f6d;

/// The code `iso2`.
pub const ISO2: u32 = 0x6973_6f32;

/// The code `mp41`.
pub const MP41: u32 = 0x6d70_3431;

/// The code `vide`.
pub const VIDE: u32 = 0x7669_6465;

/// The code `meta`.
pub const META: u32 = 0x6d65_7461;

/// The code `iloc`.
pub const ILOC: u32 = 0x696c_6f63;

impl FourCC {
    /// The four bytes of the code, in the order in which a file holds them.
    pub open spec fn spec_bytes(self) -> Seq<u8> {
        be_u32(self.0)
    }

    /// The code that four bytes spell.
    pub fn from_bytes(bytes: [u8; 4]) -> (r: FourCC)
        ensures
            r.0 == u32_at(bytes@, 0),
    {
        FourCC(get_u32(bytes.as_slice(), 0))
    }

    /// The four bytes of the code.
    pub fn to_bytes(&self) -> (r: [u8; 4])
        ensures
            r@ == self.spec_bytes(),
    {
        u32_bytes(self.0)
    }

    /// The code that a text of four bytes spells; a text of another length
    /// spells none.
    pub fn from_text(text: &str) -> (r: Option<FourCC>)
        ensures
            r is Some <==> encode_utf8(text@).len() == 4,
            r is Some ==> r->Some_0.0 == u32_at(encode_utf8(text@), 0),
    {
        let bytes = text.as_bytes();
        if bytes.len() == 4 {
            Some(FourCC(get_u32(bytes, 0)))
        } else {
            None
        }
    }

    /// The code as a text, where its bytes are one.
    pub fn to_text(&self) -> (r: Option<String>)
        ensures
            r is Some <==> valid_utf8(self.spec_bytes()),
            r is Some ==> r->Some_0@ == decode_utf8(self.spec_bytes()),
    {
        let bytes = self.to_bytes();
        string_from_utf8(slice_to_vec(bytes.as_slice()))
    }
}

impl std::str::FromStr for FourCC {
    type Err = Error;

    /// The code that a text of four bytes spells; a text of another length
    /// is refused as a wrong input.
    fn from_str(text: &str) -> (r: Result<FourCC, Error>)
        ensures
            r is Ok <==> encode_utf8(text@).len() == 4,
            r is Ok ==> r->Ok_0.0 == u32_at(encode_utf8(text@), 0),
            r is Err ==> r == Err::<FourCC, Error>(Error::Io(IoError::InvalidInput)),
    {
        match FourCC::from_text(text) {
            Some(code) => Ok(code),
            None => Err(Error::Io(IoError::InvalidInput)),
        }
    }
}

/// A code that was taken apart into its bytes and put together again is the
/// same code.
pub proof fn law_fourcc_bytes(code: FourCC)
    ensures
        code.spec_bytes().len() == 4,
        u32_at(code.spec_bytes(), 0) == code.0,
{
    lemma_be_u32_len(code.0);
    lemma_u32_at_be(code.0);
}

/// A language code: three lower-case letters packed into 15 bits, five bits
/// a letter, each letter stored as its distance from the character before
/// `a`.
#[derive(Clone, Copy, Debug, PartialEq, Eq, Structural)]
pub struct Language(pub u16);

/// Whether `c` is one of the letters `a` to `z`.
pub open spec fn is_lower(c: u8) -> bool {
    0x61 <= c <= 0x7a
}

/// The packed form of three letters.
pub open spec fn pack_language(c0: u8, c1: u8, c2: u8) -> int {
    (c0 - 0x60) * 1024 + (c1 - 0x60) * 32 + (c2 - 0x60)
}

impl Language {
    /// The three characters that the packed value holds.
    pub open spec fn spec_code(self) -> Seq<u8> {
        seq![
            (self.0 / 1024 % 32 + 0x60) as u8,
            (self.0 / 32 % 32 + 0x60) as u8,
            (self.0 % 32 + 0x60) as u8,
        ]
    }

    /// Packs a code of three lower-case letters; there is no packed form of
    /// anything else.
    pub fn from_code(code: [u8; 3]) -> (r: Option<Language>)
        ensures
            r is Some <==> is_lower(code[0]) && is_lower(code[1]) && is_lower(code[2]),
            r is Some ==> r->Some_0.0 == pack_language(code[0], code[1], code[2]),
    {
        let c0: u8 = code[0];
        let c1: u8 = code[1];
        let c2: u8 = code[2];
        if 0x61 <= c0 && c0 <= 0x7a && 0x61 <= c1 && c1 <= 0x7a && 0x61 <= c2 && c2 <= 0x7a {
            let v0: u16 = (c0 - 0x60) as u16;
            let v1: u16 = (c1 - 0x60) as u16;
            let v2: u16 = (c2 - 0x60) as u16;
            Some(Language(v0 * 1024 + v1 * 32 + v2))
        } else {
            None
        }
    }

    /// The code as a text, where its characters are one.
    pub fn to_text(&self) -> (r: Option<String>)
        ensures
            r is Some <==> valid_utf8(self.spec_code()),
            r is Some ==> r->Some_0@ == decode_utf8(self.spec_code()),
    {
        let code = self.code();
        string_from_utf8(slice_to_vec(code.as_slice()))
    }

    /// The three characters of the code.
    pub fn code(&self) -> (r: [u8; 3])
        ensures
            r@ == self.spec_code(),
    {
        let bits: u16 = self.0;
        let r: [u8; 3] = [
            (bits / 1024 % 32 + 0x60) as u8,
            (bits / 32 % 32 + 0x60) as u8,
            (bits % 32 + 0x60) as u8,
        ];
        assert(r@ =~= self.spec_code());
        r
    }
}

/// Three lower-case letters that were packed come out of the packed value
/// again.
pub proof fn law_language_code(c0: u8, c1: u8, c2: u8)
    requires
        is_lower(c0),
        is_lower(c1),
        is_lower(c2),
    ensures
        0 < pack_language(c0, c1, c2) < 0x8000,
        Language(pack_language(c0, c1, c2) as u16).spec_code() == seq![c0, c1, c2],
{
    let l = Language(pack_language(c0, c1, c2) as u16);
    assert(l.spec_code() =~= seq![c0, c1, c2]);
}

/// A packed value of 15 bits is the packed form of the three characters that
/// it holds.
pub proof fn law_language_bits(language: Language)
    requires
        language.0 < 0x8000,
    ensures
        pack_language(
            language.spec_code()[0],
            language.spec_code()[1],
            language.spec_code()[2],
        ) == language.0,
{
    let b: u16 = language.0;
    assert(b < 0x8000 ==> (b / 1024 % 32) * 1024 + (b / 32 % 32) * 32 + b % 32 == b
        && b / 1024 % 32 < 32 && b / 32 % 32 < 32 && b % 32 < 32) by (bit_vector);
}

} // verus!
