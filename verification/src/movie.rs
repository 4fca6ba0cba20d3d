//! The movie box and its header.

use vstd::prelude::*;
use vstd::slice::slice_subrange;

use crate::bytes::{
    add_size, be_u16, be_u32, be_u64, get_u16, get_u32, get_u64, group_big_endian, low32, put_u16,
    put_u32, put_u64, u16_at, u32_at, u64_at, version_of, Decode, Encode, Framing,
};
use crate::error::{bad_quantity, eof, malformed, Error, IoError};
use crate::fixed_point::{U16F16, U8F8};
use crate::fourcc::{FourCC, MOOV, MVHD, TRAK};
use crate::framing::{
    all_bytes, all_canonical, bodies, box_bytes, children, close_box, decode_multiple,
    decode_required, fits, lemma_all_fit, lemma_child_first, lemma_child_split,
    lemma_children_decoded, lemma_children_first, lemma_children_round_trip, lemma_children_split,
    lemma_nested_2, lemma_normals_bytes, lemma_select_children, lemma_select_first, multiple,
    normals, open_box, pending, put_child, put_children, raw_children, required, size_all, split,
    split_boxes, views, BoxCodec, RawBox,
};
use crate::matrix::Matrix;
use crate::track::{TrackBox, TrackView};

verus! {

broadcast use {vstd::slice::group_slice_axioms, group_big_endian};

/// The header of a movie (`mvhd`): when it was made, its time scale and
/// duration, how it is played, and the next free track number.
#[derive(Clone, Copy, Debug, PartialEq, Eq, Structural)]
pub struct MovieHeaderBox {
    pub creation_time: u64,
    pub modification_time: u64,
    pub timescale: u32,
    pub duration: u64,
    pub rate: U16F16,
    pub volume: U8F8,
    pub matrix: Matrix,
    pub next_track_id: u32,
}

impl View for MovieHeaderBox {
    type V = MovieHeaderBox;

    open spec fn view(&self) -> MovieHeaderBox {
        *self
    }
}

impl Default for MovieHeaderBox {
    /// A header with all times zero, played at normal rate and full volume,
    /// not transformed.
    fn default() -> (r: MovieHeaderBox)
        ensures
            r == (MovieHeaderBox {
                creation_time: 0,
                modification_time: 0,
                timescale: 0,
                duration: 0,
                rate: U16F16 { bits: 0x1_0000 },
                volume: U8F8 { bits: 0x100 },
                matrix: Matrix::spec_identity(),
                next_track_id: 0,
            }),
    {
        MovieHeaderBox {
            creation_time: 0,
            modification_time: 0,
            timescale: 0,
            duration: 0,
            rate: U16F16 { bits: 0x1_0000 },
            volume: U8F8 { bits: 0x100 },
            matrix: Matrix::identity(),
            next_track_id: 0,
        }
    }
}

impl MovieHeaderBox {
    /// Where the fields after the times begin: the times take 32 bits each
    /// in version 0 and 64 bits each in version 1.
    pub open spec fn tail(version: int) -> int {
        if version == 0 {
            20
        } else {
            32
        }
    }

    /// Whether the times and the duration fit in 32 bits, so that version 0
    /// can hold them.
    pub open spec fn short(v: MovieHeaderBox) -> bool {
        v.creation_time <= u32::MAX && v.modification_time <= u32::MAX && v.duration <= u32::MAX
    }

    /// The body: in version 0 where the times and the duration fit in 32
    /// bits, else in version 1.
    pub open spec fn body_bytes(v: MovieHeaderBox) -> Seq<u8> {
        if Self::short(v) {
            Self::short_body_bytes(v)
        } else {
            Self::long_body_bytes(v)
        }
    }

    /// What follows the times in both versions: rate and volume, ten
    /// bytes of zero, the matrix, 24 bytes of zero, the next track number.
    pub open spec fn tail_bytes(v: MovieHeaderBox) -> Seq<u8> {
        be_u32(v.rate.bits) + be_u16(v.volume.bits) + be_u16(0) + be_u32(0) + be_u32(0)
            + Matrix::bytes(v.matrix) + be_u32(0) + be_u32(0) + be_u32(0) + be_u32(0) + be_u32(0)
            + be_u32(0) + be_u32(v.next_track_id)
    }

    /// The body in version 0, which holds the times and the duration in
    /// 32 bits.
    pub open spec fn short_body_bytes(v: MovieHeaderBox) -> Seq<u8> {
        be_u32(0) + be_u32(low32(v.creation_time)) + be_u32(low32(v.modification_time)) + be_u32(
            v.timescale,
        ) + be_u32(low32(v.duration)) + Self::tail_bytes(v)
    }

    /// The body in version 1, which holds the times and the duration in
    /// full.
    pub open spec fn long_body_bytes(v: MovieHeaderBox) -> Seq<u8> {
        be_u32(0x0100_0000) + be_u64(v.creation_time) + be_u64(v.modification_time) + be_u32(
            v.timescale,
        ) + be_u64(v.duration) + Self::tail_bytes(v)
    }

    /// Whether the fields that must be zero are.
    pub open spec fn reserved_ok(body: Seq<u8>, t: int) -> bool {
        &&& u16_at(body, t + 6) == 0
        &&& u32_at(body, t + 8) == 0
        &&& u32_at(body, t + 12) == 0
        &&& u32_at(body, t + 52) == 0
        &&& u32_at(body, t + 56) == 0
        &&& u32_at(body, t + 60) == 0
        &&& u32_at(body, t + 64) == 0
        &&& u32_at(body, t + 68) == 0
        &&& u32_at(body, t + 72) == 0
    }
}

impl MovieHeaderBox {
    /// Whether the times and the duration fit in 32 bits.
    pub fn is_short(&self) -> (r: bool)
        ensures
            r == Self::short(*self),
    {
        self.creation_time <= 0xffff_ffff && self.modification_time <= 0xffff_ffff
            && self.duration <= 0xffff_ffff
    }

    /// Appends what follows the times in both versions.
    fn put_tail(&self, output: &mut Vec<u8>)
        ensures
            final(output)@ == old(output)@ + Self::tail_bytes(*self),
    {
        put_u32(output, self.rate.bits);
        put_u16(output, self.volume.bits);
        put_u16(output, 0);
        put_u32(output, 0);
        put_u32(output, 0);
        let _ = self.matrix.encode(output);
        put_u32(output, 0);
        put_u32(output, 0);
        put_u32(output, 0);
        put_u32(output, 0);
        put_u32(output, 0);
        put_u32(output, 0);
        put_u32(output, self.next_track_id);
        assert(output@ =~= old(output)@ + Self::tail_bytes(*self));
    }

    /// Appends the body in version 0.
    fn put_short_body(&self, output: &mut Vec<u8>)
        requires
            Self::short(*self),
        ensures
            final(output)@ == old(output)@ + Self::short_body_bytes(*self),
    {
        put_u32(output, 0);
        put_u32(output, self.creation_time as u32);
        put_u32(output, self.modification_time as u32);
        put_u32(output, self.timescale);
        put_u32(output, self.duration as u32);
        self.put_tail(output);
        assert(output@ =~= old(output)@ + Self::short_body_bytes(*self));
    }

    /// Appends the body in version 1.
    fn put_long_body(&self, output: &mut Vec<u8>)
        ensures
            final(output)@ == old(output)@ + Self::long_body_bytes(*self),
    {
        put_u32(output, 0x0100_0000);
        put_u64(output, self.creation_time);
        put_u64(output, self.modification_time);
        put_u32(output, self.timescale);
        put_u64(output, self.duration);
        self.put_tail(output);
        assert(output@ =~= old(output)@ + Self::long_body_bytes(*self));
    }
}

impl Encode for MovieHeaderBox {
    open spec fn bytes(v: MovieHeaderBox) -> Seq<u8> {
        box_bytes(MVHD, Self::body_bytes(v))
    }

    open spec fn encodable(v: MovieHeaderBox) -> bool {
        true
    }

    fn size(&self) -> (n: u64) {
        if self.is_short() {
            108
        } else {
            120
        }
    }

    /// Writes the header in version 0 where the times and the duration fit
    /// in 32 bits, else in version 1.
    fn encode_with(&self, output: &mut Vec<u8>, framing: Framing) -> (r: Result<(), Error>) {
        let ghost before = output@;
        let begin: u64 = open_box(
            output,
            MVHD,
            self.size(),
            framing,
            Ghost(Self::body_bytes(*self)),
        )?;
        if self.is_short() {
            self.put_short_body(output);
        } else {
            self.put_long_body(output);
        }
        close_box(output, begin, framing, Ghost(before), Ghost(MVHD), Ghost(Self::body_bytes(*self)))
    }
}

impl Decode for MovieHeaderBox {
    /// A body of version 0 has 100 bytes and one of version 1 has 112; what
    /// follows them is left where it is.
    open spec fn parse(input: Seq<u8>) -> Result<(MovieHeaderBox, int), Error> {
        let version = version_of(input);
        let t = Self::tail(version);
        if input.len() < 4 {
            Err(eof())
        } else if version > 1 {
            Err(malformed())
        } else if input.len() < t + 80 {
            Err(eof())
        } else if !Self::reserved_ok(input, t) {
            Err(malformed())
        } else {
            Ok(
                (
                    MovieHeaderBox {
                        creation_time: if version == 0 {
                            u32_at(input, 4) as u64
                        } else {
                            u64_at(input, 4)
                        },
                        modification_time: if version == 0 {
                            u32_at(input, 8) as u64
                        } else {
                            u64_at(input, 12)
                        },
                        timescale: if version == 0 {
                            u32_at(input, 12)
                        } else {
                            u32_at(input, 20)
                        },
                        duration: if version == 0 {
                            u32_at(input, 16) as u64
                        } else {
                            u64_at(input, 24)
                        },
                        rate: U16F16 { bits: u32_at(input, t) },
                        volume: U8F8 { bits: u16_at(input, t + 4) },
                        matrix: Matrix::at(input, t + 16),
                        next_track_id: u32_at(input, t + 76),
                    },
                    t + 80,
                ),
            )
        }
    }

    fn decode(input: &mut &[u8]) -> (r: Result<Self, Error>) {
        let b: &[u8] = *input;
        if b.len() < 4 {
            return Err(Error::Io(IoError::UnexpectedEof));
        }
        let version: u32 = get_u32(b, 0) / 0x100_0000;
        if version > 1 {
            return Err(Error::Io(IoError::InvalidData));
        }
        let t: usize = if version == 0 {
            20
        } else {
            32
        };
        if b.len() < t + 80 {
            return Err(Error::Io(IoError::UnexpectedEof));
        }
        if get_u16(b, t + 6) != 0 || get_u32(b, t + 8) != 0 || get_u32(b, t + 12) != 0 || get_u32(
            b,
            t + 52,
        ) != 0 || get_u32(b, t + 56) != 0 || get_u32(b, t + 60) != 0 || get_u32(b, t + 64) != 0
            || get_u32(b, t + 68) != 0 || get_u32(b, t + 72) != 0 {
            return Err(Error::Io(IoError::InvalidData));
        }
        let creation_time: u64 = if version == 0 {
            get_u32(b, 4) as u64
        } else {
            get_u64(b, 4)
        };
        let modification_time: u64 = if version == 0 {
            get_u32(b, 8) as u64
        } else {
            get_u64(b, 12)
        };
        let duration: u64 = if version == 0 {
            get_u32(b, 16) as u64
        } else {
            get_u64(b, 24)
        };
        let header = MovieHeaderBox {
            creation_time,
            modification_time,
            timescale: if version == 0 {
                get_u32(b, 12)
            } else {
                get_u32(b, 20)
            },
            duration,
            rate: U16F16 { bits: get_u32(b, t) },
            volume: U8F8 { bits: get_u16(b, t + 4) },
            matrix: Matrix::get(b, t + 16),
            next_track_id: get_u32(b, t + 76),
        };
        *input = slice_subrange(b, t + 80, b.len());
        Ok(header)
    }
}

impl BoxCodec for MovieHeaderBox {
    open spec fn box_type() -> u32 {
        MVHD
    }

    open spec fn body(v: MovieHeaderBox) -> Seq<u8> {
        Self::body_bytes(v)
    }

    open spec fn canonical(v: MovieHeaderBox) -> bool {
        true
    }

    proof fn lemma_box(v: MovieHeaderBox) {
        assert(Self::box_type() == MVHD);
        assert(Self::body(v) == Self::body_bytes(v));
        assert(Self::encodable(v) == (true));
        assert(Self::bytes(v) == box_bytes(MVHD, Self::body_bytes(v)));
    }

    proof fn lemma_round_trip(v: MovieHeaderBox) {
    }

    open spec fn normal(v: MovieHeaderBox) -> MovieHeaderBox {
        v
    }

    proof fn lemma_normal(v: MovieHeaderBox) {
        assert(Self::normal(v) == v);
    }

    open spec fn shaped(v: MovieHeaderBox) -> bool {
        Self::canonical(v)
    }

    proof fn lemma_decoded(v: MovieHeaderBox) {
        assert(Self::normal(v) == v);
        assert(Self::shaped(v) == Self::canonical(v));
    }
}

/// A body in version 1 decodes to the header that it holds, whatever its
/// times are.
pub proof fn law_movie_header_long(v: MovieHeaderBox)
    ensures
        MovieHeaderBox::parse(MovieHeaderBox::long_body_bytes(v)) == Ok::<
            (MovieHeaderBox, int),
            Error,
        >((v, 112)),
{
}

/// A movie (`moov`): its header and its tracks.
#[derive(Clone, Debug, PartialEq, Eq)]
pub struct MovieBox {
    pub header: MovieHeaderBox,
    pub tracks: Vec<TrackBox>,
}

/// A `MovieBox` as a mathematical value.
pub struct MovieView {
    pub header: MovieHeaderBox,
    pub tracks: Seq<TrackView>,
}

impl View for MovieBox {
    type V = MovieView;

    open spec fn view(&self) -> MovieView {
        MovieView { header: self.header, tracks: views(self.tracks@) }
    }
}

impl MovieBox {
    /// The body: the header, then the tracks in their order.
    pub open spec fn body_bytes(v: MovieView) -> Seq<u8> {
        MovieHeaderBox::bytes(v.header) + all_bytes::<TrackBox>(v.tracks)
    }

    /// The movie that the children of the box make up. An `mvhd` must occur
    /// once and a `trak` at least once, and other children are passed over.
    /// Of several faults the first in this order is reported: of the
    /// `mvhd`, of a `trak`, of there being no `trak`.
    pub open spec fn from_children(boxes: Seq<RawBox>) -> Result<MovieView, Error> {
        match (required::<MovieHeaderBox>(boxes, MVHD), multiple::<TrackBox>(boxes, TRAK)) {
            (Err(e), _) => Err(e),
            (_, Err(e)) => Err(e),
            (Ok(header), Ok(tracks)) => if tracks.len() == 0 {
                Err(bad_quantity(TRAK, 0, 1))
            } else {
                Ok(MovieView { header, tracks })
            },
        }
    }
}

impl Encode for MovieBox {
    open spec fn bytes(v: MovieView) -> Seq<u8> {
        box_bytes(MOOV, Self::body_bytes(v))
    }

    open spec fn encodable(v: MovieView) -> bool {
        fits(Self::body_bytes(v))
    }

    fn size(&self) -> (n: u64) {
        add_size(add_size(8, self.header.size()), size_all(&self.tracks))
    }

    fn encode_with(&self, output: &mut Vec<u8>, framing: Framing) -> (r: Result<(), Error>) {
        let ghost before = output@;
        let begin: u64 = open_box(output, MOOV, self.size(), framing, Ghost(Self::body_bytes(self@)))?;
        put_child(&self.header, output, framing, Ghost(before))?;
        put_children(&self.tracks, output, framing, Ghost(before))?;
        proof {
            lemma_nested_2(
                before + be_u32(pending(framing, Self::body_bytes(self@))) + be_u32(MOOV),
                MovieHeaderBox::bytes(self@.header),
                all_bytes::<TrackBox>(self@.tracks),
            );
        }
        close_box(output, begin, framing, Ghost(before), Ghost(MOOV), Ghost(Self::body_bytes(self@)))
    }
}

impl Decode for MovieBox {
    /// The whole input is taken: it is told apart into boxes, which are the
    /// children.
    open spec fn parse(input: Seq<u8>) -> Result<(MovieView, int), Error> {
        match split_boxes(input) {
            Err(e) => Err(e),
            Ok(boxes) => match Self::from_children(boxes) {
                Err(e) => Err(e),
                Ok(v) => Ok((v, input.len() as int)),
            },
        }
    }

    fn decode(input: &mut &[u8]) -> (r: Result<Self, Error>) {
        let b: &[u8] = *input;
        let boxes = split(b)?;
        let header = decode_required::<MovieHeaderBox>(b, &boxes, MVHD)?;
        let tracks = decode_multiple::<TrackBox>(b, &boxes, TRAK)?;
        if tracks.len() == 0 {
            return Err(
                Error::InvalidBoxQuantity { box_type: FourCC(TRAK), quantity: 0, expected: 1 },
            );
        }
        *input = slice_subrange(b, b.len(), b.len());
        Ok(MovieBox { header, tracks })
    }
}

impl BoxCodec for MovieBox {
    open spec fn box_type() -> u32 {
        MOOV
    }

    open spec fn body(v: MovieView) -> Seq<u8> {
        Self::body_bytes(v)
    }

    /// There is a track, and header and tracks are such that decoding
    /// their bytes gives them back.
    open spec fn canonical(v: MovieView) -> bool {
        &&& MovieHeaderBox::canonical(v.header)
        &&& v.tracks.len() > 0
        &&& forall|i: int| 0 <= i < v.tracks.len() ==> TrackBox::canonical(#[trigger] v.tracks[i])
    }

    proof fn lemma_box(v: MovieView) {
        assert(Self::box_type() == MOOV);
        assert(Self::body(v) == Self::body_bytes(v));
        assert(Self::encodable(v) == (fits(Self::body_bytes(v))));
        assert(Self::bytes(v) == box_bytes(MOOV, Self::body_bytes(v)));
    }

    proof fn lemma_round_trip(v: MovieView) {
        broadcast use lemma_select_first;

        let none = Seq::<u8>::empty();
        let tracks = all_bytes::<TrackBox>(v.tracks);
        let raw = raw_children::<TrackBox>(v.tracks);
        let no_boxes = Seq::<RawBox>::empty();
        lemma_all_fit::<TrackBox>(v.tracks);
        assert(all_canonical::<TrackBox>(v.tracks));
        assert(tracks + none =~= tracks);
        assert(raw + no_boxes =~= raw);
        lemma_children_first::<TrackBox>(v.tracks, none);
        lemma_child_first::<MovieHeaderBox>(v.header, tracks);
        lemma_select_children::<TrackBox>(v.tracks, no_boxes, MVHD);
        lemma_select_children::<TrackBox>(v.tracks, no_boxes, TRAK);
        assert(bodies::<TrackBox>(v.tracks) + Seq::<Seq<u8>>::empty() =~= bodies::<TrackBox>(
            v.tracks,
        ));
        lemma_children_round_trip::<TrackBox>(v.tracks);
    }

    open spec fn normal(v: MovieView) -> MovieView {
        MovieView { tracks: normals::<TrackBox>(v.tracks), ..v }
    }

    proof fn lemma_normal(v: MovieView) {
        lemma_normals_bytes::<TrackBox>(v.tracks);
    }

    open spec fn shaped(v: MovieView) -> bool {
        forall|i: int| 0 <= i < v.tracks.len() ==> TrackBox::shaped(#[trigger] v.tracks[i])
    }

    /// A movie without a track does not decode, and a movie decodes only
    /// where each of its tracks does.
    proof fn lemma_decoded(v: MovieView) {
        broadcast use lemma_select_first;

        let none = Seq::<u8>::empty();
        let tracks = all_bytes::<TrackBox>(v.tracks);
        let raw = raw_children::<TrackBox>(v.tracks);
        let no_boxes = Seq::<RawBox>::empty();
        lemma_all_fit::<TrackBox>(v.tracks);
        assert(tracks + none =~= tracks);
        assert(raw + no_boxes =~= raw);
        lemma_children_split::<TrackBox>(v.tracks, none);
        lemma_child_split::<MovieHeaderBox>(v.header, tracks);
        lemma_select_children::<TrackBox>(v.tracks, no_boxes, MVHD);
        lemma_select_children::<TrackBox>(v.tracks, no_boxes, TRAK);
        assert(bodies::<TrackBox>(v.tracks) + Seq::<Seq<u8>>::empty() =~= bodies::<TrackBox>(
            v.tracks,
        ));
        assert(children::<TrackBox>(bodies::<TrackBox>(v.tracks)) is Ok);
        lemma_children_decoded::<TrackBox>(v.tracks);
        let n = Self::normal(v);
        assert(n.tracks.len() == v.tracks.len());
        assert forall|i: int| 0 <= i < n.tracks.len() implies TrackBox::canonical(
            #[trigger] n.tracks[i],
        ) by {
            assert(TrackBox::shaped(v.tracks[i]));
            assert(n.tracks[i] == TrackBox::normal(v.tracks[i]));
            TrackBox::lemma_decoded(v.tracks[i]);
        }
    }
}

} // verus!
