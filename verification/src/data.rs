//! Where the media data of a track is: the data information box, the data
//! reference box and its entries.

use vstd::prelude::*;
use vstd::slice::slice_subrange;

use crate::bytes::{
    add_size, be_u32, flags_of, get_u32, group_big_endian, put_u32, u32_at, version_of, Decode,
    Encode, Framing,
};
use crate::error::{eof, malformed, Error, IoError};
use crate::fourcc::{DINF, DREF, URL, URN};
use crate::framing::{
    all_bytes, box_bytes, child, close_box, decode_required, fits, lemma_child_first,
    lemma_normal_bytes, lemma_select_first, open_box, pending, put_child, put_children, required,
    size_all, split, split_boxes, views, BoxCodec,
};
use crate::text::{law_empty_text, law_text_round_trip, nul_free, text_bytes};

verus! {

broadcast use {vstd::slice::group_slice_axioms, group_big_endian};

/// Where the media data is, as a location (`url `); no location says that
/// the data is in the file itself.
#[derive(Clone, Debug, PartialEq, Eq)]
pub struct DataEntryUrlBox {
    pub location: Option<String>,
}

impl View for DataEntryUrlBox {
    type V = Option<Seq<char>>;

    open spec fn view(&self) -> Option<Seq<char>> {
        match self.location {
            Some(location) => Some(location@),
            None => None,
        }
    }
}

impl Default for DataEntryUrlBox {
    /// The entry for data in the file itself.
    fn default() -> (r: DataEntryUrlBox)
        ensures
            r@ is None,
    {
        DataEntryUrlBox { location: None }
    }
}

impl DataEntryUrlBox {
    /// The body: version 0, then the flag for data in the file itself, or no
    /// flag and the location.
    pub open spec fn body_bytes(v: Option<Seq<char>>) -> Seq<u8> {
        match v {
            Some(location) => be_u32(0) + text_bytes(location),
            None => be_u32(1),
        }
    }
}

impl Encode for DataEntryUrlBox {
    open spec fn bytes(v: Option<Seq<char>>) -> Seq<u8> {
        box_bytes(URL, Self::body_bytes(v))
    }

    open spec fn encodable(v: Option<Seq<char>>) -> bool {
        fits(Self::body_bytes(v))
    }

    fn size(&self) -> (n: u64) {
        match &self.location {
            Some(location) => add_size(12, location.size()),
            None => 12,
        }
    }

    fn encode_with(&self, output: &mut Vec<u8>, framing: Framing) -> (r: Result<(), Error>) {
        let ghost before = output@;
        let begin: u64 = open_box(output, URL, self.size(), framing, Ghost(Self::body_bytes(self@)))?;
        match &self.location {
            Some(location) => {
                put_u32(output, 0);
                let _ = location.encode(output);
            },
            None => {
                put_u32(output, 1);
            },
        }
        assert(output@ =~= before + be_u32(pending(framing, Self::body_bytes(self@))) + be_u32(URL) + Self::body_bytes(self@));
        close_box(output, begin, framing, Ghost(before), Ghost(URL), Ghost(Self::body_bytes(self@)))
    }
}

impl Decode for DataEntryUrlBox {
    /// Only version 0 is known. With the lowest flag set there is no
    /// location; else the location follows and ends the part that is taken.
    open spec fn parse(input: Seq<u8>) -> Result<(Option<Seq<char>>, int), Error> {
        if input.len() < 4 {
            Err(eof())
        } else if version_of(input) != 0 {
            Err(malformed())
        } else if flags_of(input) % 2 == 1 {
            Ok((None, 4))
        } else {
            match String::parse(input.skip(4)) {
                Err(e) => Err(e),
                Ok((location, n)) => Ok((Some(location), 4 + n)),
            }
        }
    }

    fn decode(input: &mut &[u8]) -> (r: Result<Self, Error>) {
        let b: &[u8] = *input;
        if b.len() < 4 {
            return Err(Error::Io(IoError::UnexpectedEof));
        }
        let word: u32 = get_u32(b, 0);
        if word / 0x100_0000 != 0 {
            return Err(Error::Io(IoError::InvalidData));
        }
        if word % 2 == 1 {
            *input = slice_subrange(b, 4, b.len());
            return Ok(DataEntryUrlBox { location: None });
        }
        let mut rest: &[u8] = slice_subrange(b, 4, b.len());
        let location = String::decode(&mut rest)?;
        assert(rest@ =~= b@.skip(b@.len() - rest@.len()));
        *input = rest;
        Ok(DataEntryUrlBox { location: Some(location) })
    }
}

impl BoxCodec for DataEntryUrlBox {
    open spec fn box_type() -> u32 {
        URL
    }

    open spec fn body(v: Option<Seq<char>>) -> Seq<u8> {
        Self::body_bytes(v)
    }

    /// The location holds no NUL character, which would end it.
    open spec fn canonical(v: Option<Seq<char>>) -> bool {
        v is Some ==> nul_free(v->Some_0)
    }

    proof fn lemma_box(v: Option<Seq<char>>) {
        assert(Self::box_type() == URL);
        assert(Self::body(v) == Self::body_bytes(v));
        assert(Self::encodable(v) == (fits(Self::body_bytes(v))));
        assert(Self::bytes(v) == box_bytes(URL, Self::body_bytes(v)));
    }

    proof fn lemma_round_trip(v: Option<Seq<char>>) {
        let all = Self::body_bytes(v);
        match v {
            Some(location) => {
                assert(all.skip(4) =~= text_bytes(location));
                if location.len() > 0 {
                    law_text_round_trip(location, Seq::<u8>::empty());
                    assert(text_bytes(location) + Seq::<u8>::empty() =~= text_bytes(location));
                } else {
                    assert(location =~= Seq::<char>::empty());
                    law_empty_text();
                }
            },
            None => {},
        }
    }

    open spec fn normal(v: Option<Seq<char>>) -> Option<Seq<char>> {
        v
    }

    proof fn lemma_normal(v: Option<Seq<char>>) {
        assert(Self::normal(v) == v);
    }

    open spec fn shaped(v: Option<Seq<char>>) -> bool {
        Self::canonical(v)
    }

    proof fn lemma_decoded(v: Option<Seq<char>>) {
        assert(Self::normal(v) == v);
        assert(Self::shaped(v) == Self::canonical(v));
    }
}

/// Where the media data is, as a name and a location (`urn `).
#[derive(Clone, Debug, PartialEq, Eq)]
pub struct DataEntryUrnBox {
    pub name: String,
    pub location: String,
}

/// A `DataEntryUrnBox` as a mathematical value.
pub struct DataEntryUrnView {
    pub name: Seq<char>,
    pub location: Seq<char>,
}

impl View for DataEntryUrnBox {
    type V = DataEntryUrnView;

    open spec fn view(&self) -> DataEntryUrnView {
        DataEntryUrnView { name: self.name@, location: self.location@ }
    }
}

impl DataEntryUrnBox {
    /// The body: version 0 and no flags, the name, the location.
    pub open spec fn body_bytes(v: DataEntryUrnView) -> Seq<u8> {
        be_u32(0) + text_bytes(v.name) + text_bytes(v.location)
    }
}

impl Encode for DataEntryUrnBox {
    open spec fn bytes(v: DataEntryUrnView) -> Seq<u8> {
        box_bytes(URN, Self::body_bytes(v))
    }

    open spec fn encodable(v: DataEntryUrnView) -> bool {
        fits(Self::body_bytes(v))
    }

    fn size(&self) -> (n: u64) {
        add_size(add_size(12, self.name.size()), self.location.size())
    }

    fn encode_with(&self, output: &mut Vec<u8>, framing: Framing) -> (r: Result<(), Error>) {
        let ghost before = output@;
        let begin: u64 = open_box(output, URN, self.size(), framing, Ghost(Self::body_bytes(self@)))?;
        put_u32(output, 0);
        let _ = self.name.encode(output);
        let _ = self.location.encode(output);
        assert(output@ =~= before + be_u32(pending(framing, Self::body_bytes(self@))) + be_u32(URN) + Self::body_bytes(self@));
        close_box(output, begin, framing, Ghost(before), Ghost(URN), Ghost(Self::body_bytes(self@)))
    }
}

impl Decode for DataEntryUrnBox {
    /// Only version 0 is known. The name follows, and after it the
    /// location, which ends the part that is taken.
    open spec fn parse(input: Seq<u8>) -> Result<(DataEntryUrnView, int), Error> {
        if input.len() < 4 {
            Err(eof())
        } else if version_of(input) != 0 {
            Err(malformed())
        } else {
            match String::parse(input.skip(4)) {
                Err(e) => Err(e),
                Ok((name, n)) => match String::parse(input.skip(4 + n)) {
                    Err(e) => Err(e),
                    Ok((location, m)) => Ok((DataEntryUrnView { name, location }, 4 + n + m)),
                },
            }
        }
    }

    fn decode(input: &mut &[u8]) -> (r: Result<Self, Error>) {
        let b: &[u8] = *input;
        if b.len() < 4 {
            return Err(Error::Io(IoError::UnexpectedEof));
        }
        if get_u32(b, 0) / 0x100_0000 != 0 {
            return Err(Error::Io(IoError::InvalidData));
        }
        let mut rest: &[u8] = slice_subrange(b, 4, b.len());
        let name = String::decode(&mut rest)?;
        assert(rest@ =~= b@.skip(b@.len() - rest@.len()));
        let location = String::decode(&mut rest)?;
        assert(rest@ =~= b@.skip(b@.len() - rest@.len()));
        *input = rest;
        Ok(DataEntryUrnBox { name, location })
    }
}

impl BoxCodec for DataEntryUrnBox {
    open spec fn box_type() -> u32 {
        URN
    }

    open spec fn body(v: DataEntryUrnView) -> Seq<u8> {
        Self::body_bytes(v)
    }

    /// Neither text holds a NUL character, which would end it, and a
    /// location stands behind a name: an empty name takes no bytes, so that
    /// a location behind it would be read as the name.
    open spec fn canonical(v: DataEntryUrnView) -> bool {
        nul_free(v.name) && nul_free(v.location) && (v.name.len() > 0 || v.location.len() == 0)
    }

    proof fn lemma_box(v: DataEntryUrnView) {
        assert(Self::box_type() == URN);
        assert(Self::body(v) == Self::body_bytes(v));
        assert(Self::encodable(v) == (fits(Self::body_bytes(v))));
        assert(Self::bytes(v) == box_bytes(URN, Self::body_bytes(v)));
    }

    proof fn lemma_round_trip(v: DataEntryUrnView) {
        let all = Self::body_bytes(v);
        let name = text_bytes(v.name);
        let location = text_bytes(v.location);
        assert(all.skip(4) =~= name + location);
        assert(all.skip(4 + name.len() as int) =~= location);
        assert(location + Seq::<u8>::empty() =~= location);
        if v.name.len() > 0 {
            law_text_round_trip(v.name, location);
        } else {
            assert(v.name =~= Seq::<char>::empty());
            law_empty_text();
        }
        if v.location.len() > 0 {
            law_text_round_trip(v.location, Seq::<u8>::empty());
        } else {
            assert(v.location =~= Seq::<char>::empty());
            law_empty_text();
        }
    }

    /// An entry without a name is written as the entry that has its
    /// location for a name and no location.
    open spec fn normal(v: DataEntryUrnView) -> DataEntryUrnView {
        if v.name.len() == 0 {
            DataEntryUrnView { name: v.location, location: Seq::empty() }
        } else {
            v
        }
    }

    proof fn lemma_normal(v: DataEntryUrnView) {
        if v.name.len() == 0 {
            assert(text_bytes(v.name) =~= Seq::<u8>::empty());
            assert(text_bytes(Seq::<char>::empty()) =~= Seq::<u8>::empty());
            assert(Self::body_bytes(Self::normal(v)) =~= Self::body_bytes(v));
        }
    }

    /// Neither text holds a NUL character.
    open spec fn shaped(v: DataEntryUrnView) -> bool {
        nul_free(v.name) && nul_free(v.location)
    }

    proof fn lemma_decoded(v: DataEntryUrnView) {
        Self::lemma_shaped(v);
    }
}

/// One of the places where the media data of a track is.
#[derive(Clone, Debug, PartialEq, Eq)]
pub enum DataEntry {
    Url(DataEntryUrlBox),
    Urn(DataEntryUrnBox),
}

/// A `DataEntry` as a mathematical value.
pub enum DataEntryView {
    Url(Option<Seq<char>>),
    Urn(DataEntryUrnView),
}

impl View for DataEntry {
    type V = DataEntryView;

    open spec fn view(&self) -> DataEntryView {
        match self {
            DataEntry::Url(entry) => DataEntryView::Url(entry@),
            DataEntry::Urn(entry) => DataEntryView::Urn(entry@),
        }
    }
}

impl DataEntry {
    /// Whether decoding the bytes of the entry gives the entry back.
    pub open spec fn canonical(v: DataEntryView) -> bool {
        match v {
            DataEntryView::Url(entry) => DataEntryUrlBox::canonical(entry),
            DataEntryView::Urn(entry) => DataEntryUrnBox::canonical(entry),
        }
    }

    /// The type of the box of the entry.
    pub open spec fn type_of(v: DataEntryView) -> u32 {
        match v {
            DataEntryView::Url(_) => URL,
            DataEntryView::Urn(_) => URN,
        }
    }

    /// The body of the box of the entry.
    pub open spec fn body_of(v: DataEntryView) -> Seq<u8> {
        match v {
            DataEntryView::Url(entry) => DataEntryUrlBox::body_bytes(entry),
            DataEntryView::Urn(entry) => DataEntryUrnBox::body_bytes(entry),
        }
    }

    /// What a box of the given type and body is as an entry: nothing where
    /// the type is not one of an entry.
    pub open spec fn from_box(box_type: u32, body: Seq<u8>) -> Result<Option<DataEntryView>, Error> {
        if box_type == URL {
            match child::<DataEntryUrlBox>(body) {
                Ok(entry) => Ok(Some(DataEntryView::Url(entry))),
                Err(e) => Err(e),
            }
        } else if box_type == URN {
            match child::<DataEntryUrnBox>(body) {
                Ok(entry) => Ok(Some(DataEntryView::Urn(entry))),
                Err(e) => Err(e),
            }
        } else {
            Ok(None)
        }
    }
}

impl DataEntryUrnBox {
    /// The normal form of an entry whose texts hold no NUL character
    /// comes back from its bytes.
    pub proof fn lemma_shaped(v: DataEntryUrnView)
        requires
            nul_free(v.name),
            nul_free(v.location),
        ensures
            <DataEntryUrnBox as BoxCodec>::canonical(<DataEntryUrnBox as BoxCodec>::normal(v)),
    {
        let n = <DataEntryUrnBox as BoxCodec>::normal(v);
        if v.name.len() == 0 {
            assert(n.name == v.location);
            assert(n.location.len() == 0);
        } else {
            assert(n == v);
        }
    }
}

impl DataInformationBox {
    /// The normal forms of entries whose texts hold no NUL character come
    /// back from their bytes.
    pub proof fn lemma_decoded_shaped(v: Seq<DataEntryView>)
        requires
            <DataInformationBox as BoxCodec>::shaped(v),
        ensures
            <DataInformationBox as BoxCodec>::canonical(
                <DataInformationBox as BoxCodec>::normal(v),
            ),
    {
        DataReferenceBox::lemma_shaped(v);
    }
}

impl DataReferenceBox {
    /// The normal forms of entries whose texts hold no NUL character come
    /// back from their bytes.
    pub proof fn lemma_shaped(v: Seq<DataEntryView>)
        requires
            forall|i: int| 0 <= i < v.len() ==> DataEntry::shaped(#[trigger] v[i]),
        ensures
            DataReferenceBox::all_canonical(<DataReferenceBox as BoxCodec>::normal(v)),
    {
        let n = <DataReferenceBox as BoxCodec>::normal(v);
        assert forall|i: int| 0 <= i < n.len() implies DataEntry::canonical(#[trigger] n[i]) by {
            assert(DataEntry::shaped(v[i]));
            assert(n[i] == DataEntry::normal(v[i]));
            match v[i] {
                DataEntryView::Url(_) => {},
                DataEntryView::Urn(entry) => {
                    DataEntryUrnBox::lemma_shaped(entry);
                },
            }
        }
    }
}

impl DataEntry {
    /// Whether the texts of the entry hold no NUL character.
    pub open spec fn shaped(v: DataEntryView) -> bool {
        match v {
            DataEntryView::Url(entry) => DataEntryUrlBox::canonical(entry),
            DataEntryView::Urn(entry) => DataEntryUrnBox::shaped(entry),
        }
    }

    /// The entry that the bytes of an entry decode to.
    pub open spec fn normal(v: DataEntryView) -> DataEntryView {
        match v {
            DataEntryView::Url(entry) => DataEntryView::Url(entry),
            DataEntryView::Urn(entry) => DataEntryView::Urn(DataEntryUrnBox::normal(entry)),
        }
    }

    /// Entries and their normal forms have the same bytes.
    pub proof fn lemma_normal_all(v: Seq<DataEntryView>)
        ensures
            all_bytes::<DataEntry>(Seq::new(v.len(), |i: int| DataEntry::normal(v[i])))
                == all_bytes::<DataEntry>(v),
        decreases v.len(),
    {
        let normal = Seq::new(v.len(), |i: int| DataEntry::normal(v[i]));
        if v.len() > 0 {
            let rest = v.drop_first();
            DataEntry::lemma_normal_all(rest);
            assert(normal.drop_first() =~= Seq::new(rest.len(), |i: int| DataEntry::normal(rest[i])));
            match v[0] {
                DataEntryView::Url(_) => {},
                DataEntryView::Urn(entry) => {
                    DataEntryUrnBox::lemma_normal(entry);
                },
            }
            assert(DataEntry::bytes(normal[0]) == DataEntry::bytes(v[0]));
        }
    }
}

impl Encode for DataEntry {
    open spec fn bytes(v: DataEntryView) -> Seq<u8> {
        box_bytes(DataEntry::type_of(v), DataEntry::body_of(v))
    }

    open spec fn encodable(v: DataEntryView) -> bool {
        fits(DataEntry::body_of(v))
    }

    fn size(&self) -> (n: u64) {
        match self {
            DataEntry::Url(entry) => entry.size(),
            DataEntry::Urn(entry) => entry.size(),
        }
    }

    fn encode_with(&self, output: &mut Vec<u8>, framing: Framing) -> (r: Result<(), Error>) {
        match self {
            DataEntry::Url(entry) => entry.encode_with(output, framing),
            DataEntry::Urn(entry) => entry.encode_with(output, framing),
        }
    }
}

/// The places where the media data of a track is (`dref`).
#[derive(Clone, Debug, PartialEq, Eq)]
pub struct DataReferenceBox(pub Vec<DataEntry>);

impl View for DataReferenceBox {
    type V = Seq<DataEntryView>;

    open spec fn view(&self) -> Seq<DataEntryView> {
        views(self.0@)
    }
}

impl Default for DataReferenceBox {
    /// The one place that is the file itself.
    fn default() -> (r: DataReferenceBox)
        ensures
            r@ == seq![DataEntryView::Url(None)],
    {
        let mut entries: Vec<DataEntry> = Vec::new();
        entries.push(DataEntry::Url(DataEntryUrlBox { location: None }));
        let r = DataReferenceBox(entries);
        assert(r@ =~= seq![DataEntryView::Url(None)]);
        r
    }
}

impl DataReferenceBox {
    /// The body: version 0 and no flags, the number of entries, the
    /// entries, each a box.
    pub open spec fn body_bytes(v: Seq<DataEntryView>) -> Seq<u8> {
        be_u32(0) + be_u32(v.len() as u32) + all_bytes::<DataEntry>(v)
    }

    /// What `count` boxes at the front of `input` are as entries, and the
    /// number of bytes that they take. A box of another type is passed over.
    pub open spec fn parse_entries(input: Seq<u8>, count: int) -> Result<
        (Seq<DataEntryView>, int),
        Error,
    >
        decreases count,
    {
        let size = u32_at(input, 0) as int;
        if count <= 0 {
            Ok((Seq::empty(), 0))
        } else if input.len() < 8 {
            Err(eof())
        } else if size < 8 {
            Err(malformed())
        } else if size > input.len() {
            Err(eof())
        } else {
            match DataEntry::from_box(u32_at(input, 4), input.subrange(8, size)) {
                Err(e) => Err(e),
                Ok(first) => match Self::parse_entries(input.skip(size), count - 1) {
                    Err(e) => Err(e),
                    Ok((rest, n)) => Ok(
                        (
                            match first {
                                Some(entry) => seq![entry] + rest,
                                None => rest,
                            },
                            size + n,
                        ),
                    ),
                },
            }
        }
    }

    /// Entries take no more bytes than there are.
    pub proof fn lemma_entries_bound(input: Seq<u8>, count: int)
        ensures
            Self::parse_entries(input, count) is Ok ==> 0 <= Self::parse_entries(
                input,
                count,
            )->Ok_0.1 <= input.len(),
        decreases count,
    {
        let size = u32_at(input, 0) as int;
        if count > 0 && input.len() >= 8 && 8 <= size <= input.len() {
            Self::lemma_entries_bound(input.skip(size), count - 1);
        }
    }

    /// Whether decoding the bytes of every entry gives the entry back.
    pub open spec fn all_canonical(v: Seq<DataEntryView>) -> bool {
        forall|i: int| 0 <= i < v.len() ==> DataEntry::canonical(#[trigger] v[i])
    }

    /// The bytes of entries, whatever follows them, decode to the entries.
    proof fn lemma_entries(v: Seq<DataEntryView>, rest: Seq<u8>)
        requires
            Self::all_canonical(v),
            all_bytes::<DataEntry>(v).len() <= u32::MAX,
        ensures
            Self::parse_entries(all_bytes::<DataEntry>(v) + rest, v.len() as int) == Ok::<
                (Seq<DataEntryView>, int),
                Error,
            >((v, all_bytes::<DataEntry>(v).len() as int)),
        decreases v.len(),
    {
        if v.len() == 0 {
            assert(v =~= Seq::empty());
        } else {
            let first = v[0];
            let others = v.drop_first();
            let input = all_bytes::<DataEntry>(v) + rest;
            let body = DataEntry::body_of(first);
            let size = 8 + body.len();
            assert(DataEntry::canonical(first));
            assert(Self::all_canonical(others)) by {
                assert forall|i: int| 0 <= i < others.len() implies DataEntry::canonical(
                    #[trigger] others[i],
                ) by {
                    assert(others[i] == v[i + 1]);
                }
            }
            assert(input =~= DataEntry::bytes(first) + (all_bytes::<DataEntry>(others) + rest));
            assert(u32_at(input, 0) == size);
            assert(u32_at(input, 4) == DataEntry::type_of(first));
            assert(input.subrange(8, size as int) =~= body);
            assert(input.skip(size as int) =~= all_bytes::<DataEntry>(others) + rest);
            match first {
                DataEntryView::Url(entry) => {
                    DataEntryUrlBox::lemma_round_trip(entry);
                },
                DataEntryView::Urn(entry) => {
                    DataEntryUrnBox::lemma_round_trip(entry);
                },
            }
            Self::lemma_entries(others, rest);
            assert(seq![first] + others =~= v);
        }
    }
}

impl Encode for DataReferenceBox {
    open spec fn bytes(v: Seq<DataEntryView>) -> Seq<u8> {
        box_bytes(DREF, Self::body_bytes(v))
    }

    open spec fn encodable(v: Seq<DataEntryView>) -> bool {
        fits(Self::body_bytes(v))
    }

    fn size(&self) -> (n: u64) {
        add_size(16, size_all(&self.0))
    }

    fn encode_with(&self, output: &mut Vec<u8>, framing: Framing) -> (r: Result<(), Error>) {
        let ghost before = output@;
        proof {
            lemma_entries_len(self@);
        }
        if self.0.len() > 0xffff_ffff {
            return Err(Error::Io(IoError::InvalidInput));
        }
        let begin: u64 = open_box(output, DREF, self.size(), framing, Ghost(Self::body_bytes(self@)))?;
        put_u32(output, 0);
        put_u32(output, self.0.len() as u32);
        put_children(&self.0, output, framing, Ghost(before))?;
        assert(output@ =~= before + be_u32(pending(framing, Self::body_bytes(self@))) + be_u32(DREF) + Self::body_bytes(self@));
        close_box(output, begin, framing, Ghost(before), Ghost(DREF), Ghost(Self::body_bytes(self@)))
    }
}

/// Entries have at least as many bytes as they are.
pub proof fn lemma_entries_len(v: Seq<DataEntryView>)
    ensures
        all_bytes::<DataEntry>(v).len() >= 8 * v.len(),
    decreases v.len(),
{
    if v.len() > 0 {
        lemma_entries_len(v.drop_first());
    }
}

impl Decode for DataReferenceBox {
    /// Only version 0 is known. As many boxes as the count says follow and
    /// end the part that is taken.
    open spec fn parse(input: Seq<u8>) -> Result<(Seq<DataEntryView>, int), Error> {
        if input.len() < 4 {
            Err(eof())
        } else if version_of(input) != 0 {
            Err(malformed())
        } else if input.len() < 8 {
            Err(eof())
        } else {
            match Self::parse_entries(input.skip(8), u32_at(input, 4) as int) {
                Err(e) => Err(e),
                Ok((entries, n)) => Ok((entries, 8 + n)),
            }
        }
    }

    fn decode(input: &mut &[u8]) -> (r: Result<Self, Error>) {
        let b: &[u8] = *input;
        if b.len() < 4 {
            return Err(Error::Io(IoError::UnexpectedEof));
        }
        if get_u32(b, 0) / 0x100_0000 != 0 {
            return Err(Error::Io(IoError::InvalidData));
        }
        if b.len() < 8 {
            return Err(Error::Io(IoError::UnexpectedEof));
        }
        let count: u32 = get_u32(b, 4);
        let len: usize = b.len();
        let ghost all = b@.skip(8);
        let mut entries: Vec<DataEntry> = Vec::new();
        let mut pos: usize = 8;
        let mut i: u32 = 0;
        proof {
            Self::lemma_entries_bound(all, count as int);
            match Self::parse_entries(all, count as int) {
                Ok((rest, _)) => {
                    assert(views(entries@) + rest =~= rest);
                },
                Err(_) => {},
            }
        }
        while i < count
            invariant
                b@ == old(input)@,
                *input == b,
                version_of(b@) == 0,
                count == u32_at(b@, 4),
                len == b@.len(),
                all == b@.skip(8),
                8 <= pos <= len,
                i <= count,
                match Self::parse_entries(b@.skip(pos as int), count - i) {
                    Ok((rest, n)) => Self::parse_entries(all, count as int) == Ok::<
                        (Seq<DataEntryView>, int),
                        Error,
                    >((views(entries@) + rest, pos - 8 + n)) && pos + n <= len,
                    Err(e) => Self::parse_entries(all, count as int) == Err::<
                        (Seq<DataEntryView>, int),
                        Error,
                    >(e),
                },
            decreases count - i,
        {
            let ghost tail = b@.skip(pos as int);
            let ghost before = views(entries@);
            if len - pos < 8 {
                assert(Self::parse_entries(tail, count - i) == Err::<
                    (Seq<DataEntryView>, int),
                    Error,
                >(eof()));
                return Err(Error::Io(IoError::UnexpectedEof));
            }
            proof {
                Self::lemma_entries_bound(b@.skip(pos + u32_at(tail, 0)), count - i - 1);
                crate::bytes::lemma_u32_at_subrange(b@, pos as int, len as int, 0);
                crate::bytes::lemma_u32_at_subrange(b@, pos as int, len as int, 4);
            }
            let size: u32 = get_u32(b, pos);
            let box_type: u32 = get_u32(b, pos + 4);
            if size < 8 {
                return Err(Error::Io(IoError::InvalidData));
            }
            if size as usize > len - pos {
                return Err(Error::Io(IoError::UnexpectedEof));
            }
            let mut body: &[u8] = slice_subrange(b, pos + 8, pos + size as usize);
            proof {
                assert(tail.subrange(8, size as int) =~= body@);
                assert(tail.skip(size as int) =~= b@.skip(pos + size));
            }
            if box_type == URL {
                let entry = DataEntryUrlBox::decode(&mut body)?;
                entries.push(DataEntry::Url(entry));
                assert(views(entries@) =~= before + seq![DataEntryView::Url(entry@)]);
            } else if box_type == URN {
                let entry = DataEntryUrnBox::decode(&mut body)?;
                entries.push(DataEntry::Urn(entry));
                assert(views(entries@) =~= before + seq![DataEntryView::Urn(entry@)]);
            }
            proof {
                match Self::parse_entries(b@.skip(pos + size), count - i - 1) {
                    Ok((rest, n)) => {
                        assert(before + rest =~= before + rest);
                        if box_type == URL || box_type == URN {
                            let entry = views(entries@).last();
                            assert(before + (seq![entry] + rest) =~= before + seq![entry] + rest);
                        }
                    },
                    Err(_) => {},
                }
            }
            pos = pos + size as usize;
            i = i + 1;
        }
        assert(views(entries@) + Seq::<DataEntryView>::empty() =~= views(entries@));
        *input = slice_subrange(b, pos, len);
        Ok(DataReferenceBox(entries))
    }
}

impl BoxCodec for DataReferenceBox {
    open spec fn box_type() -> u32 {
        DREF
    }

    open spec fn body(v: Seq<DataEntryView>) -> Seq<u8> {
        Self::body_bytes(v)
    }

    open spec fn canonical(v: Seq<DataEntryView>) -> bool {
        Self::all_canonical(v)
    }

    proof fn lemma_box(v: Seq<DataEntryView>) {
        assert(Self::box_type() == DREF);
        assert(Self::body(v) == Self::body_bytes(v));
        assert(Self::encodable(v) == (fits(Self::body_bytes(v))));
        assert(Self::bytes(v) == box_bytes(DREF, Self::body_bytes(v)));
    }

    proof fn lemma_round_trip(v: Seq<DataEntryView>) {
        let all = Self::body_bytes(v);
        let entries = all_bytes::<DataEntry>(v);
        lemma_entries_len(v);
        Self::lemma_entries(v, Seq::<u8>::empty());
        assert(all.skip(8) =~= entries + Seq::<u8>::empty());
        assert(u32_at(all, 4) == v.len());
    }

    open spec fn normal(v: Seq<DataEntryView>) -> Seq<DataEntryView> {
        Seq::new(v.len(), |i: int| DataEntry::normal(v[i]))
    }

    proof fn lemma_normal(v: Seq<DataEntryView>) {
        DataEntry::lemma_normal_all(v);
    }

    open spec fn shaped(v: Seq<DataEntryView>) -> bool {
        forall|i: int| 0 <= i < v.len() ==> DataEntry::shaped(#[trigger] v[i])
    }

    proof fn lemma_decoded(v: Seq<DataEntryView>) {
        Self::lemma_shaped(v);
    }
}

/// Where the media data of a track is (`dinf`).
#[derive(Clone, Debug, PartialEq, Eq)]
pub struct DataInformationBox {
    pub reference: DataReferenceBox,
}

impl View for DataInformationBox {
    type V = Seq<DataEntryView>;

    open spec fn view(&self) -> Seq<DataEntryView> {
        self.reference@
    }
}

impl Default for DataInformationBox {
    /// Data in the file itself.
    fn default() -> (r: DataInformationBox)
        ensures
            r@ == seq![DataEntryView::Url(None)],
    {
        DataInformationBox { reference: DataReferenceBox::default() }
    }
}

impl Encode for DataInformationBox {
    open spec fn bytes(v: Seq<DataEntryView>) -> Seq<u8> {
        box_bytes(DINF, DataReferenceBox::bytes(v))
    }

    open spec fn encodable(v: Seq<DataEntryView>) -> bool {
        fits(DataReferenceBox::bytes(v))
    }

    fn size(&self) -> (n: u64) {
        add_size(8, self.reference.size())
    }

    fn encode_with(&self, output: &mut Vec<u8>, framing: Framing) -> (r: Result<(), Error>) {
        let ghost before = output@;
        let begin: u64 = open_box(output, DINF, self.size(), framing, Ghost(DataReferenceBox::bytes(self@)))?;
        put_child(&self.reference, output, framing, Ghost(before))?;
        assert(output@ =~= before + be_u32(pending(framing, DataReferenceBox::bytes(self@))) + be_u32(DINF) + DataReferenceBox::bytes(self@));
        close_box(output, begin, framing, Ghost(before), Ghost(DINF), Ghost(DataReferenceBox::bytes(self@)))
    }
}

impl Decode for DataInformationBox {
    /// The whole input is taken: it is told apart into boxes, of which one
    /// must be a `dref`; others are passed over.
    open spec fn parse(input: Seq<u8>) -> Result<(Seq<DataEntryView>, int), Error> {
        match split_boxes(input) {
            Err(e) => Err(e),
            Ok(boxes) => match required::<DataReferenceBox>(boxes, DREF) {
                Err(e) => Err(e),
                Ok(v) => Ok((v, input.len() as int)),
            },
        }
    }

    fn decode(input: &mut &[u8]) -> (r: Result<Self, Error>) {
        let b: &[u8] = *input;
        let boxes = split(b)?;
        let reference = decode_required::<DataReferenceBox>(b, &boxes, DREF)?;
        *input = slice_subrange(b, b.len(), b.len());
        Ok(DataInformationBox { reference })
    }
}

impl BoxCodec for DataInformationBox {
    open spec fn box_type() -> u32 {
        DINF
    }

    open spec fn body(v: Seq<DataEntryView>) -> Seq<u8> {
        DataReferenceBox::bytes(v)
    }

    open spec fn canonical(v: Seq<DataEntryView>) -> bool {
        DataReferenceBox::canonical(v)
    }

    proof fn lemma_box(v: Seq<DataEntryView>) {
        assert(Self::box_type() == DINF);
        assert(Self::body(v) == DataReferenceBox::bytes(v));
        assert(Self::encodable(v) == (fits(DataReferenceBox::bytes(v))));
        assert(Self::bytes(v) == box_bytes(DINF, DataReferenceBox::bytes(v)));
    }

    proof fn lemma_round_trip(v: Seq<DataEntryView>) {
        broadcast use lemma_select_first;

        DataReferenceBox::lemma_box(v);
        lemma_child_first::<DataReferenceBox>(v, Seq::<u8>::empty());
        assert(DataReferenceBox::bytes(v) + Seq::<u8>::empty() =~= DataReferenceBox::bytes(v));
    }

    open spec fn normal(v: Seq<DataEntryView>) -> Seq<DataEntryView> {
        DataReferenceBox::normal(v)
    }

    proof fn lemma_normal(v: Seq<DataEntryView>) {
        lemma_normal_bytes::<DataReferenceBox>(v);
    }

    open spec fn shaped(v: Seq<DataEntryView>) -> bool {
        DataReferenceBox::shaped(v)
    }

    proof fn lemma_decoded(v: Seq<DataEntryView>) {
        DataReferenceBox::lemma_shaped(v);
    }
}

} // verus!
