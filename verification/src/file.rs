//! The top of the box tree: the file type, the media data, and the file as
//! a whole.

use vstd::prelude::*;
use vstd::slice::{slice_subrange, slice_to_vec};

use crate::bytes::{
    add_size, be_u32, get_u32, group_big_endian, put_bytes, put_u32, u32_at, Decode, Encode,
    Framing,
};
use crate::error::{eof, malformed, Error, IoError};
use crate::fourcc::{FourCC, FREE, FTYP, MDAT, MOOV};
use crate::framing::{
    all_bytes, all_canonical, bodies, box_bytes, child, close_box, decode_multiple, decode_required,
    fits, lemma_child_first, lemma_child_split, lemma_children_first, lemma_children_round_trip,
    lemma_children_split, lemma_nested_4, lemma_normal_bytes, lemma_select_children,
    lemma_select_first, lemma_split_first, multiple, open_box, pending, put_child, put_children,
    raw_children, required, select, size_all, split, split_boxes, views, BoxCodec, RawBox,
};
use crate::movie::{MovieBox, MovieView};
use crate::table::{
    get_table, lemma_table_len, lemma_table_round_trip, put_table, table_at, table_bytes,
    table_size,
};

verus! {

broadcast use {vstd::slice::group_slice_axioms, group_big_endian};

/// What kind of file this is (`ftyp`): the brand that it follows best, the
/// version of that brand, and the brands that it can be read as.
#[derive(Clone, Debug, PartialEq, Eq)]
pub struct FileTypeBox {
    pub major_brand: FourCC,
    pub minor_version: u32,
    pub compatible_brands: Vec<FourCC>,
}

/// A `FileTypeBox` as a mathematical value.
pub struct FileTypeView {
    pub major_brand: FourCC,
    pub minor_version: u32,
    pub compatible_brands: Seq<FourCC>,
}

impl View for FileTypeBox {
    type V = FileTypeView;

    open spec fn view(&self) -> FileTypeView {
        FileTypeView {
            major_brand: self.major_brand,
            minor_version: self.minor_version,
            compatible_brands: self.compatible_brands@,
        }
    }
}

impl FileTypeBox {
    /// The body: the brand, its version, and the other brands to the end.
    pub open spec fn body_bytes(v: FileTypeView) -> Seq<u8> {
        be_u32(v.major_brand.0) + be_u32(v.minor_version) + table_bytes(v.compatible_brands)
    }
}

impl Encode for FileTypeBox {
    open spec fn bytes(v: FileTypeView) -> Seq<u8> {
        box_bytes(FTYP, Self::body_bytes(v))
    }

    open spec fn encodable(v: FileTypeView) -> bool {
        fits(Self::body_bytes(v))
    }

    fn size(&self) -> (n: u64) {
        add_size(16, table_size(&self.compatible_brands))
    }

    fn encode_with(&self, output: &mut Vec<u8>, framing: Framing) -> (r: Result<(), Error>) {
        let ghost before = output@;
        let begin: u64 = open_box(output, FTYP, self.size(), framing, Ghost(Self::body_bytes(self@)))?;
        put_u32(output, self.major_brand.0);
        put_u32(output, self.minor_version);
        put_table(output, &self.compatible_brands);
        assert(output@ =~= before + be_u32(pending(framing, Self::body_bytes(self@))) + be_u32(FTYP) + Self::body_bytes(self@));
        close_box(output, begin, framing, Ghost(before), Ghost(FTYP), Ghost(Self::body_bytes(self@)))
    }
}

impl Decode for FileTypeBox {
    /// The whole input is taken: after the brand and its version, every
    /// four bytes are one more brand, and fewer than four at the end are
    /// malformed.
    open spec fn parse(input: Seq<u8>) -> Result<(FileTypeView, int), Error> {
        if input.len() < 8 {
            Err(eof())
        } else if (input.len() - 8) % 4 != 0 {
            Err(malformed())
        } else {
            Ok(
                (
                    FileTypeView {
                        major_brand: FourCC(u32_at(input, 0)),
                        minor_version: u32_at(input, 4),
                        compatible_brands: table_at::<FourCC>(input, 8, (input.len() - 8) / 4),
                    },
                    input.len() as int,
                ),
            )
        }
    }

    fn decode(input: &mut &[u8]) -> (r: Result<Self, Error>) {
        let b: &[u8] = *input;
        if b.len() < 8 {
            return Err(Error::Io(IoError::UnexpectedEof));
        }
        if (b.len() - 8) % 4 != 0 {
            return Err(Error::Io(IoError::InvalidData));
        }
        let file_type = FileTypeBox {
            major_brand: FourCC(get_u32(b, 0)),
            minor_version: get_u32(b, 4),
            compatible_brands: get_table::<FourCC>(b, 8, (b.len() - 8) / 4),
        };
        *input = slice_subrange(b, b.len(), b.len());
        Ok(file_type)
    }
}

impl BoxCodec for FileTypeBox {
    open spec fn box_type() -> u32 {
        FTYP
    }

    open spec fn body(v: FileTypeView) -> Seq<u8> {
        Self::body_bytes(v)
    }

    open spec fn canonical(v: FileTypeView) -> bool {
        true
    }

    proof fn lemma_box(v: FileTypeView) {
        assert(Self::box_type() == FTYP);
        assert(Self::body(v) == Self::body_bytes(v));
        assert(Self::encodable(v) == (fits(Self::body_bytes(v))));
        assert(Self::bytes(v) == box_bytes(FTYP, Self::body_bytes(v)));
    }

    proof fn lemma_round_trip(v: FileTypeView) {
        let head = be_u32(v.major_brand.0) + be_u32(v.minor_version);
        lemma_table_len(v.compatible_brands);
        lemma_table_round_trip(head, v.compatible_brands, Seq::<u8>::empty());
        assert(head + table_bytes(v.compatible_brands) + Seq::<u8>::empty() =~= Self::body_bytes(
            v,
        ));
    }

    open spec fn normal(v: FileTypeView) -> FileTypeView {
        v
    }

    proof fn lemma_normal(v: FileTypeView) {
        assert(Self::normal(v) == v);
    }

    open spec fn shaped(v: FileTypeView) -> bool {
        Self::canonical(v)
    }

    proof fn lemma_decoded(v: FileTypeView) {
        assert(Self::normal(v) == v);
        assert(Self::shaped(v) == Self::canonical(v));
    }
}

/// The media data (`mdat`): the bytes of the samples, as they are.
#[derive(Clone, Debug, PartialEq, Eq)]
pub struct MediaDataBox(pub Vec<u8>);

impl View for MediaDataBox {
    type V = Seq<u8>;

    open spec fn view(&self) -> Seq<u8> {
        self.0@
    }
}

impl Encode for MediaDataBox {
    open spec fn bytes(v: Seq<u8>) -> Seq<u8> {
        box_bytes(MDAT, v)
    }

    open spec fn encodable(v: Seq<u8>) -> bool {
        fits(v)
    }

    fn size(&self) -> (n: u64) {
        add_size(8, self.0.len() as u64)
    }

    fn encode_with(&self, output: &mut Vec<u8>, framing: Framing) -> (r: Result<(), Error>) {
        let ghost before = output@;
        let begin: u64 = open_box(output, MDAT, self.size(), framing, Ghost(self@))?;
        put_bytes(output, self.0.as_slice());
        close_box(output, begin, framing, Ghost(before), Ghost(MDAT), Ghost(self@))
    }
}

impl Decode for MediaDataBox {
    /// The whole input is taken as it is.
    open spec fn parse(input: Seq<u8>) -> Result<(Seq<u8>, int), Error> {
        Ok((input, input.len() as int))
    }

    fn decode(input: &mut &[u8]) -> (r: Result<Self, Error>) {
        let b: &[u8] = *input;
        let data = slice_to_vec(b);
        *input = slice_subrange(b, b.len(), b.len());
        Ok(MediaDataBox(data))
    }
}

impl BoxCodec for MediaDataBox {
    open spec fn box_type() -> u32 {
        MDAT
    }

    open spec fn body(v: Seq<u8>) -> Seq<u8> {
        v
    }

    open spec fn canonical(v: Seq<u8>) -> bool {
        true
    }

    proof fn lemma_box(v: Seq<u8>) {
        assert(Self::box_type() == MDAT);
        assert(Self::body(v) == v);
        assert(Self::encodable(v) == (fits(v)));
        assert(Self::bytes(v) == box_bytes(MDAT, v));
    }

    proof fn lemma_round_trip(v: Seq<u8>) {
    }

    open spec fn normal(v: Seq<u8>) -> Seq<u8> {
        v
    }

    proof fn lemma_normal(v: Seq<u8>) {
        assert(Self::normal(v) == v);
    }

    open spec fn shaped(v: Seq<u8>) -> bool {
        Self::canonical(v)
    }

    proof fn lemma_decoded(v: Seq<u8>) {
        assert(Self::normal(v) == v);
        assert(Self::shaped(v) == Self::canonical(v));
    }
}

/// A whole file: what kind of file it is, the movie, and the media data.
#[derive(Clone, Debug, PartialEq, Eq)]
pub struct File {
    pub file_type: FileTypeBox,
    pub movie: MovieBox,
    pub media_data: Vec<MediaDataBox>,
}

/// A `File` as a mathematical value.
pub struct FileView {
    pub file_type: FileTypeView,
    pub movie: MovieView,
    pub media_data: Seq<Seq<u8>>,
}

impl View for File {
    type V = FileView;

    open spec fn view(&self) -> FileView {
        FileView {
            file_type: self.file_type@,
            movie: self.movie@,
            media_data: views(self.media_data@),
        }
    }
}

impl File {
    /// The empty `free` box that stands behind the file type.
    pub open spec fn free_bytes() -> Seq<u8> {
        box_bytes(FREE, Seq::empty())
    }

    /// The file that boxes make up. Each of `ftyp` and `moov` must occur
    /// once, `mdat` may occur any number of times, and other boxes are
    /// passed over. Of several faults the one of the box that is named
    /// first here is reported.
    pub open spec fn from_children(boxes: Seq<RawBox>) -> Result<FileView, Error> {
        match (
            required::<FileTypeBox>(boxes, FTYP),
            required::<MovieBox>(boxes, MOOV),
            multiple::<MediaDataBox>(boxes, MDAT),
        ) {
            (Err(e), _, _) => Err(e),
            (_, Err(e), _) => Err(e),
            (_, _, Err(e)) => Err(e),
            (Ok(file_type), Ok(movie), Ok(media_data)) => Ok(
                FileView { file_type, movie, media_data },
            ),
        }
    }

    /// Whether decoding the bytes of the file gives the file back: it does
    /// where it does so for the movie.
    pub open spec fn canonical(v: FileView) -> bool {
        MovieBox::canonical(v.movie)
    }

    /// The boxes of a file, undecoded.
    pub open spec fn raw(v: FileView) -> Seq<RawBox> {
        seq![RawBox { box_type: FTYP, body: FileTypeBox::body(v.file_type) }] + (seq![
            RawBox { box_type: FREE, body: Seq::empty() },
        ] + (raw_children::<MediaDataBox>(v.media_data) + (seq![
            RawBox { box_type: MOOV, body: MovieBox::body(v.movie) },
        ] + Seq::<RawBox>::empty())))
    }

    /// The bytes of a file are told apart into its boxes.
    proof fn lemma_split(v: FileView)
        requires
            File::canonical(v),
            File::encodable(v),
        ensures
            split_boxes(File::bytes(v)) == Ok::<Seq<RawBox>, Error>(File::raw(v)),
            child::<FileTypeBox>(FileTypeBox::body(v.file_type)) == Ok::<FileTypeView, Error>(
                v.file_type,
            ),
            child::<MovieBox>(MovieBox::body(v.movie)) == Ok::<MovieView, Error>(v.movie),
    {
        let none = Seq::<u8>::empty();
        let moov = MovieBox::bytes(v.movie);
        let r2 = all_bytes::<MediaDataBox>(v.media_data) + moov;
        let r1 = File::free_bytes() + r2;
        MovieBox::lemma_box(v.movie);
        FileTypeBox::lemma_box(v.file_type);
        assert(all_canonical::<MediaDataBox>(v.media_data)) by {
            assert forall|i: int| 0 <= i < v.media_data.len() implies MediaDataBox::canonical(
                #[trigger] v.media_data[i],
            ) && fits(MediaDataBox::body(v.media_data[i])) by {
                assert(MediaDataBox::encodable(v.media_data[i]));
            }
        }
        assert(moov + none =~= moov);
        lemma_child_first::<MovieBox>(v.movie, none);
        lemma_children_first::<MediaDataBox>(v.media_data, moov);
        lemma_split_first(FREE, none, r2);
        lemma_child_first::<FileTypeBox>(v.file_type, r1);
    }

    /// Of the boxes of a file, those of each type are the ones that the
    /// file was made of.
    proof fn lemma_select(v: FileView)
        ensures
            select(File::raw(v), FTYP) == seq![FileTypeBox::body(v.file_type)],
            select(File::raw(v), MOOV) == seq![MovieBox::body(v.movie)],
            select(File::raw(v), MDAT) == bodies::<MediaDataBox>(v.media_data),
    {
        let no_boxes = Seq::<RawBox>::empty();
        let moov_raw = RawBox { box_type: MOOV, body: MovieBox::body(v.movie) };
        let free_raw = RawBox { box_type: FREE, body: Seq::empty() };
        let ftyp_raw = RawBox { box_type: FTYP, body: FileTypeBox::body(v.file_type) };
        let tail = seq![moov_raw] + no_boxes;
        let mid = raw_children::<MediaDataBox>(v.media_data) + tail;
        let more = seq![free_raw] + mid;
        lemma_select_first(moov_raw, no_boxes, FTYP);
        lemma_select_first(moov_raw, no_boxes, MOOV);
        lemma_select_first(moov_raw, no_boxes, MDAT);
        lemma_select_children::<MediaDataBox>(v.media_data, tail, FTYP);
        lemma_select_children::<MediaDataBox>(v.media_data, tail, MOOV);
        lemma_select_children::<MediaDataBox>(v.media_data, tail, MDAT);
        lemma_select_first(free_raw, mid, FTYP);
        lemma_select_first(free_raw, mid, MOOV);
        lemma_select_first(free_raw, mid, MDAT);
        lemma_select_first(ftyp_raw, more, FTYP);
        lemma_select_first(ftyp_raw, more, MOOV);
        lemma_select_first(ftyp_raw, more, MDAT);
        assert(select(no_boxes, FTYP) =~= Seq::<Seq<u8>>::empty());
        assert(select(no_boxes, MOOV) =~= Seq::<Seq<u8>>::empty());
        assert(select(no_boxes, MDAT) =~= Seq::<Seq<u8>>::empty());
        assert(seq![FileTypeBox::body(v.file_type)] + Seq::<Seq<u8>>::empty() =~= seq![
            FileTypeBox::body(v.file_type),
        ]);
        assert(seq![MovieBox::body(v.movie)] + Seq::<Seq<u8>>::empty() =~= seq![
            MovieBox::body(v.movie),
        ]);
        assert(bodies::<MediaDataBox>(v.media_data) + Seq::<Seq<u8>>::empty() =~= bodies::<
            MediaDataBox,
        >(v.media_data));
    }

    /// The file that the bytes of a file decode to: the file itself, but
    /// for the few values in it that share their bytes with another one.
    pub open spec fn normal(v: FileView) -> FileView {
        FileView { movie: MovieBox::normal(v.movie), ..v }
    }

    /// A file and its normal form have the same bytes, and the one can be
    /// written where the other can.
    pub proof fn lemma_normal(v: FileView)
        ensures
            File::bytes(File::normal(v)) == File::bytes(v),
            File::encodable(File::normal(v)) == File::encodable(v),
    {
        let n = File::normal(v);
        let a = MovieBox::bytes(v.movie);
        let b = MovieBox::bytes(n.movie);
        assert(a == b && MovieBox::encodable(n.movie) == MovieBox::encodable(v.movie)) by {
            lemma_normal_bytes::<MovieBox>(v.movie);
        }
        assert(File::bytes(n) == FileTypeBox::bytes(v.file_type) + (File::free_bytes() + (
        all_bytes::<MediaDataBox>(v.media_data) + b)));
        assert(File::bytes(v) == FileTypeBox::bytes(v.file_type) + (File::free_bytes() + (
        all_bytes::<MediaDataBox>(v.media_data) + a)));
    }

    /// The bytes of a file are told apart into its boxes, whatever the
    /// boxes decode to.
    proof fn lemma_structure(v: FileView)
        requires
            File::encodable(v),
        ensures
            split_boxes(File::bytes(v)) == Ok::<Seq<RawBox>, Error>(File::raw(v)),
    {
        let none = Seq::<u8>::empty();
        let moov = MovieBox::bytes(v.movie);
        let r2 = all_bytes::<MediaDataBox>(v.media_data) + moov;
        let r1 = File::free_bytes() + r2;
        MovieBox::lemma_box(v.movie);
        FileTypeBox::lemma_box(v.file_type);
        assert forall|i: int| 0 <= i < v.media_data.len() implies fits(
            MediaDataBox::body(#[trigger] v.media_data[i]),
        ) by {
            assert(MediaDataBox::encodable(v.media_data[i]));
        }
        assert(moov + none =~= moov);
        lemma_child_split::<MovieBox>(v.movie, none);
        lemma_children_split::<MediaDataBox>(v.media_data, moov);
        lemma_split_first(FREE, none, r2);
        lemma_child_split::<FileTypeBox>(v.file_type, r1);
    }

    /// What of `canonical` does not show in whether the bytes of the file
    /// decode: that its texts hold no NUL character and that its arrays
    /// have their length.
    pub open spec fn shaped(v: FileView) -> bool {
        MovieBox::shaped(v.movie)
    }

    /// Where the bytes of such a file decode, decoding them gives back its
    /// normal form.
    pub proof fn lemma_decoded(v: FileView)
        requires
            File::shaped(v),
            File::encodable(v),
            File::parse(File::bytes(v)) is Ok,
        ensures
            File::canonical(File::normal(v)),
    {
        File::lemma_structure(v);
        File::lemma_select(v);
        MovieBox::lemma_box(v.movie);
        assert(child::<MovieBox>(MovieBox::body(v.movie)) is Ok);
        MovieBox::lemma_decoded(v.movie);
    }

    /// The bytes of a file decode to the file.
    pub proof fn lemma_round_trip(v: FileView)
        requires
            File::canonical(v),
            File::encodable(v),
        ensures
            File::parse(File::bytes(v)) == Ok::<(FileView, int), Error>(
                (v, File::bytes(v).len() as int),
            ),
    {
        File::lemma_split(v);
        File::lemma_select(v);
        assert(all_canonical::<MediaDataBox>(v.media_data)) by {
            assert forall|i: int| 0 <= i < v.media_data.len() implies MediaDataBox::canonical(
                #[trigger] v.media_data[i],
            ) && fits(MediaDataBox::body(v.media_data[i])) by {
                assert(MediaDataBox::encodable(v.media_data[i]));
            }
        }
        lemma_children_round_trip::<MediaDataBox>(v.media_data);
    }
}

impl Encode for File {
    /// The file type, an empty `free` box, the media data, the movie.
    open spec fn bytes(v: FileView) -> Seq<u8> {
        FileTypeBox::bytes(v.file_type) + (File::free_bytes() + (all_bytes::<MediaDataBox>(
            v.media_data,
        ) + MovieBox::bytes(v.movie)))
    }

    open spec fn encodable(v: FileView) -> bool {
        &&& FileTypeBox::encodable(v.file_type)
        &&& forall|i: int|
            0 <= i < v.media_data.len() ==> MediaDataBox::encodable(#[trigger] v.media_data[i])
        &&& MovieBox::encodable(v.movie)
    }

    fn size(&self) -> (n: u64) {
        let mut n: u64 = add_size(self.file_type.size(), 8);
        n = add_size(n, size_all(&self.media_data));
        add_size(n, self.movie.size())
    }

    fn encode_with(&self, output: &mut Vec<u8>, framing: Framing) -> (r: Result<(), Error>) {
        let ghost before = output@;
        put_child(&self.file_type, output, framing, Ghost(before))?;
        let ghost typed = output@;
        put_u32(output, 8);
        put_u32(output, FREE);
        assert(output@ =~= typed + File::free_bytes());
        proof {
            if File::encodable(self@) {
                assert forall|i: int| 0 <= i < self.media_data@.len() implies MediaDataBox::encodable(
                    #[trigger] self.media_data@[i]@,
                ) by {
                    assert(self@.media_data[i] == self.media_data@[i]@);
                }
            }
        }
        put_children(&self.media_data, output, framing, Ghost(before))?;
        put_child(&self.movie, output, framing, Ghost(before))?;
        proof {
            lemma_nested_4(
                before,
                FileTypeBox::bytes(self@.file_type),
                File::free_bytes(),
                all_bytes::<MediaDataBox>(self@.media_data),
                MovieBox::bytes(self@.movie),
            );
        }
        Ok(())
    }
}

impl Decode for File {
    /// The whole input is taken: it is told apart into boxes.
    open spec fn parse(input: Seq<u8>) -> Result<(FileView, int), Error> {
        match split_boxes(input) {
            Err(e) => Err(e),
            Ok(boxes) => match Self::from_children(boxes) {
                Err(e) => Err(e),
                Ok(v) => Ok((v, input.len() as int)),
            },
        }
    }

    fn decode(input: &mut &[u8]) -> (r: Result<Self, Error>) {
        let b: &[u8] = *input;
        let boxes = split(b)?;
        let file_type = decode_required::<FileTypeBox>(b, &boxes, FTYP)?;
        let movie = decode_required::<MovieBox>(b, &boxes, MOOV)?;
        let media_data = decode_multiple::<MediaDataBox>(b, &boxes, MDAT)?;
        *input = slice_subrange(b, b.len(), b.len());
        Ok(File { file_type, movie, media_data })
    }
}

} // verus!
