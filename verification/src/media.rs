//! The media of a track: its header, its handler, and its media
//! information with the header of video or of sound.

use vstd::prelude::*;
use vstd::slice::slice_subrange;

use crate::bytes::{
    add_size, be_u16, be_u32, be_u64, get_u16, get_u32, get_u64, group_big_endian, low32, put_u16,
    put_u32, put_u64, u16_at, u32_at, u64_at, version_of, Decode, Encode, Framing,
};
use crate::data::{DataEntryView, DataInformationBox};
use crate::error::{bad_quantity, eof, malformed, Error, IoError};
use crate::fixed_point::U8F8;
use crate::fourcc::{DINF, FourCC, HDLR, Language, MDHD, MDIA, MINF, SMHD, STBL, VMHD};
use crate::framing::{
    box_bytes, child, close_box, decode_optional, decode_required, fits, lemma_child_first,
    lemma_child_split, lemma_nested_3, lemma_normal_bytes, lemma_select_first, open_box, optional,
    pending, put_child, required, split, split_boxes, BoxCodec, RawBox,
};
use crate::sample_table::{SampleTableBox, SampleTableView};
use crate::text::{law_empty_text, law_text_round_trip, nul_free, text_bytes};

verus! {

broadcast use {
    vstd::slice::group_slice_axioms,
    vstd::array::group_array_axioms,
    group_big_endian,
};

/// The header of the media of a track (`mdhd`): when it was made, its time
/// scale and duration, and its language.
#[derive(Clone, Copy, Debug, PartialEq, Eq, Structural)]
pub struct MediaHeaderBox {
    pub creation_time: u64,
    pub modification_time: u64,
    pub timescale: u32,
    pub duration: u64,
    pub language: Language,
}

impl View for MediaHeaderBox {
    type V = MediaHeaderBox;

    open spec fn view(&self) -> MediaHeaderBox {
        *self
    }
}

impl Default for MediaHeaderBox {
    /// A header with every field zero.
    fn default() -> (r: MediaHeaderBox)
        ensures
            r == (MediaHeaderBox {
                creation_time: 0,
                modification_time: 0,
                timescale: 0,
                duration: 0,
                language: Language(0),
            }),
    {
        MediaHeaderBox {
            creation_time: 0,
            modification_time: 0,
            timescale: 0,
            duration: 0,
            language: Language(0),
        }
    }
}

impl MediaHeaderBox {
    /// Where the language begins: the times take 32 bits each in version 0
    /// and 64 bits each in version 1.
    pub open spec fn tail(version: int) -> int {
        if version == 0 {
            20
        } else {
            32
        }
    }

    /// The body in version 1, which holds the times and the duration in
    /// full.
    pub open spec fn long_body_bytes(v: MediaHeaderBox) -> Seq<u8> {
        be_u32(0x0100_0000) + be_u64(v.creation_time) + be_u64(v.modification_time) + be_u32(
            v.timescale,
        ) + be_u64(v.duration) + be_u16(v.language.0) + be_u16(0)
    }

    /// The body in version 0, which holds the times and the duration in
    /// 32 bits.
    pub open spec fn short_body_bytes(v: MediaHeaderBox) -> Seq<u8> {
        be_u32(0) + be_u32(low32(v.creation_time)) + be_u32(low32(v.modification_time)) + be_u32(
            v.timescale,
        ) + be_u32(low32(v.duration)) + be_u16(v.language.0) + be_u16(0)
    }

    /// Whether the times and the duration fit in 32 bits, so that version 0
    /// can hold them.
    pub open spec fn short(v: MediaHeaderBox) -> bool {
        v.creation_time <= u32::MAX && v.modification_time <= u32::MAX && v.duration <= u32::MAX
    }

    /// The body: in version 0 where the times and the duration fit in 32
    /// bits, else in version 1.
    pub open spec fn body_bytes(v: MediaHeaderBox) -> Seq<u8> {
        if Self::short(v) {
            Self::short_body_bytes(v)
        } else {
            Self::long_body_bytes(v)
        }
    }

    /// Whether the times and the duration fit in 32 bits.
    pub fn is_short(&self) -> (r: bool)
        ensures
            r == Self::short(*self),
    {
        self.creation_time <= 0xffff_ffff && self.modification_time <= 0xffff_ffff
            && self.duration <= 0xffff_ffff
    }

    /// Appends the body in version 0.
    fn put_short_body(&self, output: &mut Vec<u8>)
        requires
            Self::short(*self),
        ensures
            final(output)@ == old(output)@ + Self::short_body_bytes(*self),
    {
        put_u32(output, 0);
        put_u32(output, self.creation_time as u32);
        put_u32(output, self.modification_time as u32);
        put_u32(output, self.timescale);
        put_u32(output, self.duration as u32);
        put_u16(output, self.language.0);
        put_u16(output, 0);
        assert(output@ =~= old(output)@ + Self::short_body_bytes(*self));
    }

    /// Appends the body in version 1.
    fn put_long_body(&self, output: &mut Vec<u8>)
        ensures
            final(output)@ == old(output)@ + Self::long_body_bytes(*self),
    {
        put_u32(output, 0x0100_0000);
        put_u64(output, self.creation_time);
        put_u64(output, self.modification_time);
        put_u32(output, self.timescale);
        put_u64(output, self.duration);
        put_u16(output, self.language.0);
        put_u16(output, 0);
        assert(output@ =~= old(output)@ + Self::long_body_bytes(*self));
    }
}

/// A body in version 1 decodes to the header that it holds, whatever its
/// times are.
pub proof fn law_media_header_long(v: MediaHeaderBox)
    ensures
        MediaHeaderBox::parse(MediaHeaderBox::long_body_bytes(v)) == Ok::<
            (MediaHeaderBox, int),
            Error,
        >((v, 36)),
{
}

impl Encode for MediaHeaderBox {
    open spec fn bytes(v: MediaHeaderBox) -> Seq<u8> {
        box_bytes(MDHD, Self::body_bytes(v))
    }

    open spec fn encodable(v: MediaHeaderBox) -> bool {
        true
    }

    fn size(&self) -> (n: u64) {
        if self.is_short() {
            32
        } else {
            44
        }
    }

    /// Writes the header in version 0 where the times and the duration fit
    /// in 32 bits, else in version 1.
    fn encode_with(&self, output: &mut Vec<u8>, framing: Framing) -> (r: Result<(), Error>) {
        let ghost before = output@;
        let begin: u64 = open_box(
            output,
            MDHD,
            self.size(),
            framing,
            Ghost(Self::body_bytes(*self)),
        )?;
        if self.is_short() {
            self.put_short_body(output);
        } else {
            self.put_long_body(output);
        }
        close_box(output, begin, framing, Ghost(before), Ghost(MDHD), Ghost(Self::body_bytes(*self)))
    }
}

impl Decode for MediaHeaderBox {
    /// A body of version 0 has 24 bytes and one of version 1 has 36; what
    /// follows them is left where it is.
    open spec fn parse(input: Seq<u8>) -> Result<(MediaHeaderBox, int), Error> {
        let version = version_of(input);
        let t = Self::tail(version);
        if input.len() < 4 {
            Err(eof())
        } else if version > 1 {
            Err(malformed())
        } else if input.len() < t + 4 {
            Err(eof())
        } else if u16_at(input, t + 2) != 0 {
            Err(malformed())
        } else {
            Ok(
                (
                    MediaHeaderBox {
                        creation_time: if version == 0 {
                            u32_at(input, 4) as u64
                        } else {
                            u64_at(input, 4)
                        },
                        modification_time: if version == 0 {
                            u32_at(input, 8) as u64
                        } else {
                            u64_at(input, 12)
                        },
                        timescale: if version == 0 {
                            u32_at(input, 12)
                        } else {
                            u32_at(input, 20)
                        },
                        duration: if version == 0 {
                            u32_at(input, 16) as u64
                        } else {
                            u64_at(input, 24)
                        },
                        language: Language(u16_at(input, t)),
                    },
                    t + 4,
                ),
            )
        }
    }

    fn decode(input: &mut &[u8]) -> (r: Result<Self, Error>) {
        let b: &[u8] = *input;
        if b.len() < 4 {
            return Err(Error::Io(IoError::UnexpectedEof));
        }
        let version: u32 = get_u32(b, 0) / 0x100_0000;
        if version > 1 {
            return Err(Error::Io(IoError::InvalidData));
        }
        let t: usize = if version == 0 {
            20
        } else {
            32
        };
        if b.len() < t + 4 {
            return Err(Error::Io(IoError::UnexpectedEof));
        }
        if get_u16(b, t + 2) != 0 {
            return Err(Error::Io(IoError::InvalidData));
        }
        let creation_time: u64 = if version == 0 {
            get_u32(b, 4) as u64
        } else {
            get_u64(b, 4)
        };
        let modification_time: u64 = if version == 0 {
            get_u32(b, 8) as u64
        } else {
            get_u64(b, 12)
        };
        let duration: u64 = if version == 0 {
            get_u32(b, 16) as u64
        } else {
            get_u64(b, 24)
        };
        let header = MediaHeaderBox {
            creation_time,
            modification_time,
            timescale: if version == 0 {
                get_u32(b, 12)
            } else {
                get_u32(b, 20)
            },
            duration,
            language: Language(get_u16(b, t)),
        };
        *input = slice_subrange(b, t + 4, b.len());
        Ok(header)
    }
}

impl BoxCodec for MediaHeaderBox {
    open spec fn box_type() -> u32 {
        MDHD
    }

    open spec fn body(v: MediaHeaderBox) -> Seq<u8> {
        Self::body_bytes(v)
    }

    open spec fn canonical(v: MediaHeaderBox) -> bool {
        true
    }

    proof fn lemma_box(v: MediaHeaderBox) {
        assert(Self::box_type() == MDHD);
        assert(Self::body(v) == Self::body_bytes(v));
        assert(Self::encodable(v) == (true));
        assert(Self::bytes(v) == box_bytes(MDHD, Self::body_bytes(v)));
    }

    proof fn lemma_round_trip(v: MediaHeaderBox) {
    }

    open spec fn normal(v: MediaHeaderBox) -> MediaHeaderBox {
        v
    }

    proof fn lemma_normal(v: MediaHeaderBox) {
        assert(Self::normal(v) == v);
    }

    open spec fn shaped(v: MediaHeaderBox) -> bool {
        Self::canonical(v)
    }

    proof fn lemma_decoded(v: MediaHeaderBox) {
        assert(Self::normal(v) == v);
        assert(Self::shaped(v) == Self::canonical(v));
    }
}

/// What kind of media a track holds, and a name for it to show (`hdlr`).
#[derive(Clone, Debug, PartialEq, Eq)]
pub struct HandlerBox {
    pub handler_type: FourCC,
    pub name: String,
}

/// A `HandlerBox` as a mathematical value.
pub struct HandlerView {
    pub handler_type: FourCC,
    pub name: Seq<char>,
}

impl View for HandlerBox {
    type V = HandlerView;

    open spec fn view(&self) -> HandlerView {
        HandlerView { handler_type: self.handler_type, name: self.name@ }
    }
}

impl HandlerBox {
    /// The 24 bytes before the name.
    pub open spec fn fixed_part(v: HandlerView) -> Seq<u8> {
        be_u32(0) + be_u32(0) + be_u32(v.handler_type.0) + be_u32(0) + be_u32(0) + be_u32(0)
    }

    /// The body: version 0 and no flags, a zero, the kind of media, three
    /// zeros, the name.
    pub open spec fn body_bytes(v: HandlerView) -> Seq<u8> {
        Self::fixed_part(v) + text_bytes(v.name)
    }

    /// Whether the fields of the first 24 bytes that must be zero are.
    pub open spec fn reserved_ok(input: Seq<u8>) -> bool {
        &&& u32_at(input, 4) == 0
        &&& u32_at(input, 12) == 0
        &&& u32_at(input, 16) == 0
        &&& u32_at(input, 20) == 0
    }
}

impl Encode for HandlerBox {
    open spec fn bytes(v: HandlerView) -> Seq<u8> {
        box_bytes(HDLR, Self::body_bytes(v))
    }

    open spec fn encodable(v: HandlerView) -> bool {
        fits(Self::body_bytes(v))
    }

    fn size(&self) -> (n: u64) {
        add_size(32, self.name.size())
    }

    fn encode_with(&self, output: &mut Vec<u8>, framing: Framing) -> (r: Result<(), Error>) {
        let ghost before = output@;
        let begin: u64 = open_box(output, HDLR, self.size(), framing, Ghost(Self::body_bytes(self@)))?;
        put_u32(output, 0);
        put_u32(output, 0);
        put_u32(output, self.handler_type.0);
        put_u32(output, 0);
        put_u32(output, 0);
        put_u32(output, 0);
        let _ = self.name.encode(output);
        assert(output@ =~= before + be_u32(pending(framing, Self::body_bytes(self@))) + be_u32(HDLR) + Self::body_bytes(self@));
        close_box(output, begin, framing, Ghost(before), Ghost(HDLR), Ghost(Self::body_bytes(self@)))
    }
}

impl Decode for HandlerBox {
    /// Only version 0 is known. The name begins after 24 bytes and ends the
    /// part that is taken.
    open spec fn parse(input: Seq<u8>) -> Result<(HandlerView, int), Error> {
        if input.len() < 4 {
            Err(eof())
        } else if version_of(input) != 0 {
            Err(malformed())
        } else if input.len() < 24 {
            Err(eof())
        } else if !Self::reserved_ok(input) {
            Err(malformed())
        } else {
            match String::parse(input.skip(24)) {
                Err(e) => Err(e),
                Ok((name, n)) => Ok(
                    (HandlerView { handler_type: FourCC(u32_at(input, 8)), name }, 24 + n),
                ),
            }
        }
    }

    fn decode(input: &mut &[u8]) -> (r: Result<Self, Error>) {
        let b: &[u8] = *input;
        if b.len() < 4 {
            return Err(Error::Io(IoError::UnexpectedEof));
        }
        if get_u32(b, 0) / 0x100_0000 != 0 {
            return Err(Error::Io(IoError::InvalidData));
        }
        if b.len() < 24 {
            return Err(Error::Io(IoError::UnexpectedEof));
        }
        if get_u32(b, 4) != 0 || get_u32(b, 12) != 0 || get_u32(b, 16) != 0 || get_u32(b, 20)
            != 0 {
            return Err(Error::Io(IoError::InvalidData));
        }
        let handler_type = FourCC(get_u32(b, 8));
        let mut rest: &[u8] = slice_subrange(b, 24, b.len());
        let name = String::decode(&mut rest)?;
        assert(rest@ =~= b@.skip(b@.len() - rest@.len()));
        *input = rest;
        Ok(HandlerBox { handler_type, name })
    }
}

impl BoxCodec for HandlerBox {
    open spec fn box_type() -> u32 {
        HDLR
    }

    open spec fn body(v: HandlerView) -> Seq<u8> {
        Self::body_bytes(v)
    }

    /// The name holds no NUL character, which would end it.
    open spec fn canonical(v: HandlerView) -> bool {
        nul_free(v.name)
    }

    proof fn lemma_box(v: HandlerView) {
        assert(Self::box_type() == HDLR);
        assert(Self::body(v) == Self::body_bytes(v));
        assert(Self::encodable(v) == (fits(Self::body_bytes(v))));
        assert(Self::bytes(v) == box_bytes(HDLR, Self::body_bytes(v)));
    }

    proof fn lemma_round_trip(v: HandlerView) {
        let all = Self::body_bytes(v);
        assert(all.skip(24) =~= text_bytes(v.name));
        if v.name.len() > 0 {
            law_text_round_trip(v.name, Seq::<u8>::empty());
            assert(text_bytes(v.name) + Seq::<u8>::empty() =~= text_bytes(v.name));
        } else {
            assert(v.name =~= Seq::<char>::empty());
            law_empty_text();
        }
    }

    open spec fn normal(v: HandlerView) -> HandlerView {
        v
    }

    proof fn lemma_normal(v: HandlerView) {
        assert(Self::normal(v) == v);
    }

    open spec fn shaped(v: HandlerView) -> bool {
        Self::canonical(v)
    }

    proof fn lemma_decoded(v: HandlerView) {
        assert(Self::normal(v) == v);
        assert(Self::shaped(v) == Self::canonical(v));
    }
}

/// The header of the media information of a video track (`vmhd`): how the
/// picture is composed, and with which colour.
#[derive(Clone, Copy, Debug, PartialEq, Eq)]
pub struct VideoMediaHeaderBox {
    pub graphicsmode: u16,
    pub opcolor: [u16; 3],
}

/// A `VideoMediaHeaderBox` as a mathematical value.
pub struct VideoMediaHeaderView {
    pub graphicsmode: u16,
    pub opcolor: Seq<u16>,
}

impl View for VideoMediaHeaderBox {
    type V = VideoMediaHeaderView;

    open spec fn view(&self) -> VideoMediaHeaderView {
        VideoMediaHeaderView { graphicsmode: self.graphicsmode, opcolor: self.opcolor@ }
    }
}

impl Default for VideoMediaHeaderBox {
    /// A header that copies the picture: mode zero, colour black.
    fn default() -> (r: VideoMediaHeaderBox)
        ensures
            r@ == (VideoMediaHeaderView { graphicsmode: 0, opcolor: seq![0u16, 0u16, 0u16] }),
    {
        let r = VideoMediaHeaderBox { graphicsmode: 0, opcolor: [0, 0, 0] };
        assert(r.opcolor@ =~= seq![0u16, 0u16, 0u16]);
        r
    }
}

impl VideoMediaHeaderBox {
    /// The body: version 0 with the flags set to one, the mode, the three
    /// parts of the colour.
    pub open spec fn body_bytes(v: VideoMediaHeaderView) -> Seq<u8> {
        be_u32(1) + be_u16(v.graphicsmode) + be_u16(v.opcolor[0]) + be_u16(v.opcolor[1]) + be_u16(
            v.opcolor[2],
        )
    }
}

impl Encode for VideoMediaHeaderBox {
    open spec fn bytes(v: VideoMediaHeaderView) -> Seq<u8> {
        box_bytes(VMHD, Self::body_bytes(v))
    }

    open spec fn encodable(v: VideoMediaHeaderView) -> bool {
        true
    }

    fn size(&self) -> (n: u64) {
        20
    }

    fn encode_with(&self, output: &mut Vec<u8>, framing: Framing) -> (r: Result<(), Error>) {
        let ghost before = output@;
        let begin: u64 = open_box(output, VMHD, self.size(), framing, Ghost(Self::body_bytes(self@)))?;
        put_u32(output, 1);
        put_u16(output, self.graphicsmode);
        put_u16(output, self.opcolor[0]);
        put_u16(output, self.opcolor[1]);
        put_u16(output, self.opcolor[2]);
        assert(output@ =~= before + be_u32(pending(framing, Self::body_bytes(self@))) + be_u32(VMHD) + Self::body_bytes(self@));
        close_box(output, begin, framing, Ghost(before), Ghost(VMHD), Ghost(Self::body_bytes(self@)))
    }
}

impl Decode for VideoMediaHeaderBox {
    /// Only version 0 is known; the flags are not looked at. The body has 12
    /// bytes; what follows them is left where it is.
    open spec fn parse(input: Seq<u8>) -> Result<(VideoMediaHeaderView, int), Error> {
        if input.len() < 4 {
            Err(eof())
        } else if version_of(input) != 0 {
            Err(malformed())
        } else if input.len() < 12 {
            Err(eof())
        } else {
            Ok(
                (
                    VideoMediaHeaderView {
                        graphicsmode: u16_at(input, 4),
                        opcolor: seq![u16_at(input, 6), u16_at(input, 8), u16_at(input, 10)],
                    },
                    12,
                ),
            )
        }
    }

    fn decode(input: &mut &[u8]) -> (r: Result<Self, Error>) {
        let b: &[u8] = *input;
        if b.len() < 4 {
            return Err(Error::Io(IoError::UnexpectedEof));
        }
        if get_u32(b, 0) / 0x100_0000 != 0 {
            return Err(Error::Io(IoError::InvalidData));
        }
        if b.len() < 12 {
            return Err(Error::Io(IoError::UnexpectedEof));
        }
        let header = VideoMediaHeaderBox {
            graphicsmode: get_u16(b, 4),
            opcolor: [get_u16(b, 6), get_u16(b, 8), get_u16(b, 10)],
        };
        assert(header.opcolor@ =~= seq![u16_at(b@, 6), u16_at(b@, 8), u16_at(b@, 10)]);
        *input = slice_subrange(b, 12, b.len());
        Ok(header)
    }
}

impl BoxCodec for VideoMediaHeaderBox {
    open spec fn box_type() -> u32 {
        VMHD
    }

    open spec fn body(v: VideoMediaHeaderView) -> Seq<u8> {
        Self::body_bytes(v)
    }

    /// A colour has three parts.
    open spec fn canonical(v: VideoMediaHeaderView) -> bool {
        v.opcolor.len() == 3
    }

    proof fn lemma_box(v: VideoMediaHeaderView) {
        assert(Self::box_type() == VMHD);
        assert(Self::body(v) == Self::body_bytes(v));
        assert(Self::encodable(v) == (true));
        assert(Self::bytes(v) == box_bytes(VMHD, Self::body_bytes(v)));
    }

    proof fn lemma_round_trip(v: VideoMediaHeaderView) {
        let all = Self::body_bytes(v);
        assert(seq![u16_at(all, 6), u16_at(all, 8), u16_at(all, 10)] =~= v.opcolor);
    }

    open spec fn normal(v: VideoMediaHeaderView) -> VideoMediaHeaderView {
        v
    }

    proof fn lemma_normal(v: VideoMediaHeaderView) {
        assert(Self::normal(v) == v);
    }

    open spec fn shaped(v: VideoMediaHeaderView) -> bool {
        Self::canonical(v)
    }

    proof fn lemma_decoded(v: VideoMediaHeaderView) {
        assert(Self::normal(v) == v);
        assert(Self::shaped(v) == Self::canonical(v));
    }
}

/// The header of the media information of a sound track (`smhd`): where
/// between left and right the sound is placed.
#[derive(Clone, Copy, Debug, PartialEq, Eq, Structural)]
pub struct SoundMediaHeaderBox {
    pub balance: U8F8,
}

impl View for SoundMediaHeaderBox {
    type V = SoundMediaHeaderBox;

    open spec fn view(&self) -> SoundMediaHeaderBox {
        *self
    }
}

impl SoundMediaHeaderBox {
    /// The body: version 0 and no flags, the balance, a zero.
    pub open spec fn body_bytes(v: SoundMediaHeaderBox) -> Seq<u8> {
        be_u32(0) + be_u16(v.balance.bits) + be_u16(0)
    }
}

impl Encode for SoundMediaHeaderBox {
    open spec fn bytes(v: SoundMediaHeaderBox) -> Seq<u8> {
        box_bytes(SMHD, Self::body_bytes(v))
    }

    open spec fn encodable(v: SoundMediaHeaderBox) -> bool {
        true
    }

    fn size(&self) -> (n: u64) {
        16
    }

    fn encode_with(&self, output: &mut Vec<u8>, framing: Framing) -> (r: Result<(), Error>) {
        let ghost before = output@;
        let begin: u64 = open_box(output, SMHD, self.size(), framing, Ghost(Self::body_bytes(*self)))?;
        put_u32(output, 0);
        put_u16(output, self.balance.bits);
        put_u16(output, 0);
        assert(output@ =~= before + be_u32(pending(framing, Self::body_bytes(*self))) + be_u32(SMHD) + Self::body_bytes(*self));
        close_box(output, begin, framing, Ghost(before), Ghost(SMHD), Ghost(Self::body_bytes(*self)))
    }
}

impl Decode for SoundMediaHeaderBox {
    /// Only version 0 is known. The body has 8 bytes; what follows them is
    /// left where it is.
    open spec fn parse(input: Seq<u8>) -> Result<(SoundMediaHeaderBox, int), Error> {
        if input.len() < 4 {
            Err(eof())
        } else if version_of(input) != 0 {
            Err(malformed())
        } else if input.len() < 8 {
            Err(eof())
        } else if u16_at(input, 6) != 0 {
            Err(malformed())
        } else {
            Ok((SoundMediaHeaderBox { balance: U8F8 { bits: u16_at(input, 4) } }, 8))
        }
    }

    fn decode(input: &mut &[u8]) -> (r: Result<Self, Error>) {
        let b: &[u8] = *input;
        if b.len() < 4 {
            return Err(Error::Io(IoError::UnexpectedEof));
        }
        if get_u32(b, 0) / 0x100_0000 != 0 {
            return Err(Error::Io(IoError::InvalidData));
        }
        if b.len() < 8 {
            return Err(Error::Io(IoError::UnexpectedEof));
        }
        if get_u16(b, 6) != 0 {
            return Err(Error::Io(IoError::InvalidData));
        }
        let header = SoundMediaHeaderBox { balance: U8F8 { bits: get_u16(b, 4) } };
        *input = slice_subrange(b, 8, b.len());
        Ok(header)
    }
}

impl BoxCodec for SoundMediaHeaderBox {
    open spec fn box_type() -> u32 {
        SMHD
    }

    open spec fn body(v: SoundMediaHeaderBox) -> Seq<u8> {
        Self::body_bytes(v)
    }

    open spec fn canonical(v: SoundMediaHeaderBox) -> bool {
        true
    }

    proof fn lemma_box(v: SoundMediaHeaderBox) {
        assert(Self::box_type() == SMHD);
        assert(Self::body(v) == Self::body_bytes(v));
        assert(Self::encodable(v) == (true));
        assert(Self::bytes(v) == box_bytes(SMHD, Self::body_bytes(v)));
    }

    proof fn lemma_round_trip(v: SoundMediaHeaderBox) {
    }

    open spec fn normal(v: SoundMediaHeaderBox) -> SoundMediaHeaderBox {
        v
    }

    proof fn lemma_normal(v: SoundMediaHeaderBox) {
        assert(Self::normal(v) == v);
    }

    open spec fn shaped(v: SoundMediaHeaderBox) -> bool {
        Self::canonical(v)
    }

    proof fn lemma_decoded(v: SoundMediaHeaderBox) {
        assert(Self::normal(v) == v);
        assert(Self::shaped(v) == Self::canonical(v));
    }
}

/// The header of the media information of a track: that of video or that
/// of sound.
#[derive(Clone, Debug, PartialEq, Eq)]
pub enum MediaInformationHeader {
    Video(VideoMediaHeaderBox),
    Sound(SoundMediaHeaderBox),
}

/// A `MediaInformationHeader` as a mathematical value.
pub enum MediaInformationHeaderView {
    Video(VideoMediaHeaderView),
    Sound(SoundMediaHeaderBox),
}

impl View for MediaInformationHeader {
    type V = MediaInformationHeaderView;

    open spec fn view(&self) -> MediaInformationHeaderView {
        match self {
            MediaInformationHeader::Video(header) => MediaInformationHeaderView::Video(header@),
            MediaInformationHeader::Sound(header) => MediaInformationHeaderView::Sound(*header),
        }
    }
}

impl Encode for MediaInformationHeader {
    open spec fn bytes(v: MediaInformationHeaderView) -> Seq<u8> {
        match v {
            MediaInformationHeaderView::Video(header) => VideoMediaHeaderBox::bytes(header),
            MediaInformationHeaderView::Sound(header) => SoundMediaHeaderBox::bytes(header),
        }
    }

    open spec fn encodable(v: MediaInformationHeaderView) -> bool {
        true
    }

    fn size(&self) -> (n: u64) {
        match self {
            MediaInformationHeader::Video(header) => header.size(),
            MediaInformationHeader::Sound(header) => header.size(),
        }
    }

    fn encode_with(&self, output: &mut Vec<u8>, framing: Framing) -> (r: Result<(), Error>) {
        match self {
            MediaInformationHeader::Video(header) => header.encode_with(output, framing),
            MediaInformationHeader::Sound(header) => header.encode_with(output, framing),
        }
    }
}

/// What is known of the media of a track (`minf`): its header, where its
/// data is, and the table of its samples.
#[derive(Clone, Debug, PartialEq, Eq)]
pub struct MediaInformationBox {
    pub header: MediaInformationHeader,
    pub data_information: DataInformationBox,
    pub sample_table: SampleTableBox,
}

/// A `MediaInformationBox` as a mathematical value.
pub struct MediaInformationView {
    pub header: MediaInformationHeaderView,
    pub data_information: Seq<DataEntryView>,
    pub sample_table: SampleTableView,
}

impl View for MediaInformationBox {
    type V = MediaInformationView;

    open spec fn view(&self) -> MediaInformationView {
        MediaInformationView {
            header: self.header@,
            data_information: self.data_information@,
            sample_table: self.sample_table@,
        }
    }
}

impl MediaInformationBox {
    /// The body: the header, where the data is, the table of the samples.
    pub open spec fn body_bytes(v: MediaInformationView) -> Seq<u8> {
        MediaInformationHeader::bytes(v.header) + (DataInformationBox::bytes(v.data_information)
            + SampleTableBox::bytes(v.sample_table))
    }

    /// The one header that a `vmhd` and an `smhd` that may be there make
    /// up: exactly one of the two must be.
    pub open spec fn header_of(
        video: Option<VideoMediaHeaderView>,
        sound: Option<SoundMediaHeaderBox>,
    ) -> Result<MediaInformationHeaderView, Error> {
        match (video, sound) {
            (Some(header), None) => Ok(MediaInformationHeaderView::Video(header)),
            (None, Some(header)) => Ok(MediaInformationHeaderView::Sound(header)),
            (None, None) => Err(bad_quantity(VMHD, 0, 1)),
            (Some(_), Some(_)) => Err(bad_quantity(SMHD, 1, 0)),
        }
    }

    /// The media information that the children of the box make up. Each of
    /// `vmhd` and `smhd` may occur once and exactly one of them must, each
    /// of `dinf` and `stbl` must occur once, and other children are passed
    /// over. Of several faults the first in this order is reported: of the
    /// `vmhd`, of the `smhd`, of the two together, of the `dinf`, of the
    /// `stbl`.
    pub open spec fn from_children(boxes: Seq<RawBox>) -> Result<MediaInformationView, Error> {
        match (
            optional::<VideoMediaHeaderBox>(boxes, VMHD),
            optional::<SoundMediaHeaderBox>(boxes, SMHD),
        ) {
            (Err(e), _) => Err(e),
            (_, Err(e)) => Err(e),
            (Ok(video), Ok(sound)) => match (
                Self::header_of(video, sound),
                required::<DataInformationBox>(boxes, DINF),
                required::<SampleTableBox>(boxes, STBL),
            ) {
                (Err(e), _, _) => Err(e),
                (_, Err(e), _) => Err(e),
                (_, _, Err(e)) => Err(e),
                (Ok(header), Ok(data_information), Ok(sample_table)) => Ok(
                    MediaInformationView { header, data_information, sample_table },
                ),
            },
        }
    }
}

impl Encode for MediaInformationBox {
    open spec fn bytes(v: MediaInformationView) -> Seq<u8> {
        box_bytes(MINF, Self::body_bytes(v))
    }

    open spec fn encodable(v: MediaInformationView) -> bool {
        fits(Self::body_bytes(v))
    }

    fn size(&self) -> (n: u64) {
        let mut n: u64 = add_size(8, self.header.size());
        n = add_size(n, self.data_information.size());
        add_size(n, self.sample_table.size())
    }

    fn encode_with(&self, output: &mut Vec<u8>, framing: Framing) -> (r: Result<(), Error>) {
        let ghost before = output@;
        let begin: u64 = open_box(output, MINF, self.size(), framing, Ghost(Self::body_bytes(self@)))?;
        put_child(&self.header, output, framing, Ghost(before))?;
        put_child(&self.data_information, output, framing, Ghost(before))?;
        put_child(&self.sample_table, output, framing, Ghost(before))?;
        proof {
            lemma_nested_3(
                before + be_u32(pending(framing, Self::body_bytes(self@))) + be_u32(MINF),
                MediaInformationHeader::bytes(self@.header),
                DataInformationBox::bytes(self@.data_information),
                SampleTableBox::bytes(self@.sample_table),
            );
        }
        close_box(output, begin, framing, Ghost(before), Ghost(MINF), Ghost(Self::body_bytes(self@)))
    }
}

impl Decode for MediaInformationBox {
    /// The whole input is taken: it is told apart into boxes, which are the
    /// children.
    open spec fn parse(input: Seq<u8>) -> Result<(MediaInformationView, int), Error> {
        match split_boxes(input) {
            Err(e) => Err(e),
            Ok(boxes) => match Self::from_children(boxes) {
                Err(e) => Err(e),
                Ok(v) => Ok((v, input.len() as int)),
            },
        }
    }

    fn decode(input: &mut &[u8]) -> (r: Result<Self, Error>) {
        let b: &[u8] = *input;
        let boxes = split(b)?;
        let video = decode_optional::<VideoMediaHeaderBox>(b, &boxes, VMHD)?;
        let sound = decode_optional::<SoundMediaHeaderBox>(b, &boxes, SMHD)?;
        let header = match (video, sound) {
            (Some(header), None) => MediaInformationHeader::Video(header),
            (None, Some(header)) => MediaInformationHeader::Sound(header),
            (None, None) => {
                return Err(
                    Error::InvalidBoxQuantity {
                        box_type: FourCC(VMHD),
                        quantity: 0,
                        expected: 1,
                    },
                );
            },
            (Some(_), Some(_)) => {
                return Err(
                    Error::InvalidBoxQuantity {
                        box_type: FourCC(SMHD),
                        quantity: 1,
                        expected: 0,
                    },
                );
            },
        };
        let data_information = decode_required::<DataInformationBox>(b, &boxes, DINF)?;
        let sample_table = decode_required::<SampleTableBox>(b, &boxes, STBL)?;
        *input = slice_subrange(b, b.len(), b.len());
        Ok(MediaInformationBox { header, data_information, sample_table })
    }
}

impl BoxCodec for MediaInformationBox {
    open spec fn box_type() -> u32 {
        MINF
    }

    open spec fn body(v: MediaInformationView) -> Seq<u8> {
        Self::body_bytes(v)
    }

    open spec fn canonical(v: MediaInformationView) -> bool {
        &&& v.header matches MediaInformationHeaderView::Video(header)
            ==> VideoMediaHeaderBox::canonical(header)
        &&& DataInformationBox::canonical(v.data_information)
        &&& SampleTableBox::canonical(v.sample_table)
    }

    proof fn lemma_box(v: MediaInformationView) {
        assert(Self::box_type() == MINF);
        assert(Self::body(v) == Self::body_bytes(v));
        assert(Self::encodable(v) == (fits(Self::body_bytes(v))));
        assert(Self::bytes(v) == box_bytes(MINF, Self::body_bytes(v)));
    }

    proof fn lemma_round_trip(v: MediaInformationView) {
        broadcast use lemma_select_first;

        let r2 = Seq::<u8>::empty();
        let r1 = SampleTableBox::bytes(v.sample_table);
        let r0 = DataInformationBox::bytes(v.data_information) + r1;
        DataInformationBox::lemma_box(v.data_information);
        SampleTableBox::lemma_box(v.sample_table);
        assert(r1 + r2 =~= r1);
        lemma_child_first::<SampleTableBox>(v.sample_table, r2);
        lemma_child_first::<DataInformationBox>(v.data_information, r1);
        match v.header {
            MediaInformationHeaderView::Video(header) => {
                VideoMediaHeaderBox::lemma_box(header);
                lemma_child_first::<VideoMediaHeaderBox>(header, r0);
            },
            MediaInformationHeaderView::Sound(header) => {
                SoundMediaHeaderBox::lemma_box(header);
                lemma_child_first::<SoundMediaHeaderBox>(header, r0);
            },
        }
    }

    open spec fn normal(v: MediaInformationView) -> MediaInformationView {
        MediaInformationView {
            data_information: DataInformationBox::normal(v.data_information),
            sample_table: SampleTableBox::normal(v.sample_table),
            ..v
        }
    }

    proof fn lemma_normal(v: MediaInformationView) {
        lemma_normal_bytes::<DataInformationBox>(v.data_information);
        lemma_normal_bytes::<SampleTableBox>(v.sample_table);
    }

    open spec fn shaped(v: MediaInformationView) -> bool {
        &&& v.header matches MediaInformationHeaderView::Video(header)
            ==> VideoMediaHeaderBox::canonical(header)
        &&& DataInformationBox::shaped(v.data_information)
        &&& SampleTableBox::shaped(v.sample_table)
    }

    proof fn lemma_decoded(v: MediaInformationView) {
        broadcast use lemma_select_first;

        let r2 = Seq::<u8>::empty();
        let r1 = SampleTableBox::bytes(v.sample_table);
        let r0 = DataInformationBox::bytes(v.data_information) + r1;
        DataInformationBox::lemma_box(v.data_information);
        SampleTableBox::lemma_box(v.sample_table);
        assert(r1 + r2 =~= r1);
        lemma_child_split::<SampleTableBox>(v.sample_table, r2);
        lemma_child_split::<DataInformationBox>(v.data_information, r1);
        match v.header {
            MediaInformationHeaderView::Video(header) => {
                VideoMediaHeaderBox::lemma_box(header);
                lemma_child_split::<VideoMediaHeaderBox>(header, r0);
            },
            MediaInformationHeaderView::Sound(header) => {
                SoundMediaHeaderBox::lemma_box(header);
                lemma_child_split::<SoundMediaHeaderBox>(header, r0);
            },
        }
        assert(child::<SampleTableBox>(SampleTableBox::body(v.sample_table)) is Ok);
        SampleTableBox::lemma_decoded(v.sample_table);
        DataInformationBox::lemma_decoded_shaped(v.data_information);
    }
}

/// The media of a track (`mdia`): its header, what kind of media it is, and
/// what is known of it.
#[derive(Clone, Debug, PartialEq, Eq)]
pub struct MediaBox {
    pub header: MediaHeaderBox,
    pub handler: HandlerBox,
    pub information: MediaInformationBox,
}

/// A `MediaBox` as a mathematical value.
pub struct MediaView {
    pub header: MediaHeaderBox,
    pub handler: HandlerView,
    pub information: MediaInformationView,
}

impl View for MediaBox {
    type V = MediaView;

    open spec fn view(&self) -> MediaView {
        MediaView {
            header: self.header,
            handler: self.handler@,
            information: self.information@,
        }
    }
}

impl MediaBox {
    /// The body: the header, the handler, the media information.
    pub open spec fn body_bytes(v: MediaView) -> Seq<u8> {
        MediaHeaderBox::bytes(v.header) + (HandlerBox::bytes(v.handler)
            + MediaInformationBox::bytes(v.information))
    }

    /// The media that the children of the box make up. Each of `mdhd`,
    /// `hdlr` and `minf` must occur once, and other children are passed
    /// over. Of several faults the one of the child that is named first
    /// here is reported.
    pub open spec fn from_children(boxes: Seq<RawBox>) -> Result<MediaView, Error> {
        match (
            required::<MediaHeaderBox>(boxes, MDHD),
            required::<HandlerBox>(boxes, HDLR),
            required::<MediaInformationBox>(boxes, MINF),
        ) {
            (Err(e), _, _) => Err(e),
            (_, Err(e), _) => Err(e),
            (_, _, Err(e)) => Err(e),
            (Ok(header), Ok(handler), Ok(information)) => Ok(
                MediaView { header, handler, information },
            ),
        }
    }
}

impl Encode for MediaBox {
    open spec fn bytes(v: MediaView) -> Seq<u8> {
        box_bytes(MDIA, Self::body_bytes(v))
    }

    open spec fn encodable(v: MediaView) -> bool {
        fits(Self::body_bytes(v))
    }

    fn size(&self) -> (n: u64) {
        let mut n: u64 = add_size(8, self.header.size());
        n = add_size(n, self.handler.size());
        add_size(n, self.information.size())
    }

    fn encode_with(&self, output: &mut Vec<u8>, framing: Framing) -> (r: Result<(), Error>) {
        let ghost before = output@;
        let begin: u64 = open_box(output, MDIA, self.size(), framing, Ghost(Self::body_bytes(self@)))?;
        put_child(&self.header, output, framing, Ghost(before))?;
        put_child(&self.handler, output, framing, Ghost(before))?;
        put_child(&self.information, output, framing, Ghost(before))?;
        proof {
            lemma_nested_3(
                before + be_u32(pending(framing, Self::body_bytes(self@))) + be_u32(MDIA),
                MediaHeaderBox::bytes(self@.header),
                HandlerBox::bytes(self@.handler),
                MediaInformationBox::bytes(self@.information),
            );
        }
        close_box(output, begin, framing, Ghost(before), Ghost(MDIA), Ghost(Self::body_bytes(self@)))
    }
}

impl Decode for MediaBox {
    /// The whole input is taken: it is told apart into boxes, which are the
    /// children.
    open spec fn parse(input: Seq<u8>) -> Result<(MediaView, int), Error> {
        match split_boxes(input) {
            Err(e) => Err(e),
            Ok(boxes) => match Self::from_children(boxes) {
                Err(e) => Err(e),
                Ok(v) => Ok((v, input.len() as int)),
            },
        }
    }

    fn decode(input: &mut &[u8]) -> (r: Result<Self, Error>) {
        let b: &[u8] = *input;
        let boxes = split(b)?;
        let header = decode_required::<MediaHeaderBox>(b, &boxes, MDHD)?;
        let handler = decode_required::<HandlerBox>(b, &boxes, HDLR)?;
        let information = decode_required::<MediaInformationBox>(b, &boxes, MINF)?;
        *input = slice_subrange(b, b.len(), b.len());
        Ok(MediaBox { header, handler, information })
    }
}

impl BoxCodec for MediaBox {
    open spec fn box_type() -> u32 {
        MDIA
    }

    open spec fn body(v: MediaView) -> Seq<u8> {
        Self::body_bytes(v)
    }

    open spec fn canonical(v: MediaView) -> bool {
        &&& MediaHeaderBox::canonical(v.header)
        &&& HandlerBox::canonical(v.handler)
        &&& MediaInformationBox::canonical(v.information)
    }

    proof fn lemma_box(v: MediaView) {
        assert(Self::box_type() == MDIA);
        assert(Self::body(v) == Self::body_bytes(v));
        assert(Self::encodable(v) == (fits(Self::body_bytes(v))));
        assert(Self::bytes(v) == box_bytes(MDIA, Self::body_bytes(v)));
    }

    proof fn lemma_round_trip(v: MediaView) {
        broadcast use lemma_select_first;

        let r2 = Seq::<u8>::empty();
        let r1 = MediaInformationBox::bytes(v.information);
        let r0 = HandlerBox::bytes(v.handler) + r1;
        MediaHeaderBox::lemma_box(v.header);
        HandlerBox::lemma_box(v.handler);
        MediaInformationBox::lemma_box(v.information);
        assert(r1 + r2 =~= r1);
        lemma_child_first::<MediaInformationBox>(v.information, r2);
        lemma_child_first::<HandlerBox>(v.handler, r1);
        lemma_child_first::<MediaHeaderBox>(v.header, r0);
    }

    open spec fn normal(v: MediaView) -> MediaView {
        MediaView { information: MediaInformationBox::normal(v.information), ..v }
    }

    proof fn lemma_normal(v: MediaView) {
        lemma_normal_bytes::<MediaInformationBox>(v.information);
    }

    open spec fn shaped(v: MediaView) -> bool {
        HandlerBox::canonical(v.handler) && MediaInformationBox::shaped(v.information)
    }

    proof fn lemma_decoded(v: MediaView) {
        broadcast use lemma_select_first;

        let r2 = Seq::<u8>::empty();
        let r1 = MediaInformationBox::bytes(v.information);
        let r0 = HandlerBox::bytes(v.handler) + r1;
        MediaHeaderBox::lemma_box(v.header);
        HandlerBox::lemma_box(v.handler);
        MediaInformationBox::lemma_box(v.information);
        assert(r1 + r2 =~= r1);
        lemma_child_split::<MediaInformationBox>(v.information, r2);
        lemma_child_split::<HandlerBox>(v.handler, r1);
        lemma_child_split::<MediaHeaderBox>(v.header, r0);
        assert(child::<MediaInformationBox>(MediaInformationBox::body(v.information)) is Ok);
        MediaInformationBox::lemma_decoded(v.information);
    }
}

} // verus!
