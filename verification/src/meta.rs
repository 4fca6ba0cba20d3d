//! The meta box and the item location box in it.

use vstd::prelude::*;
use vstd::slice::slice_subrange;

use crate::bytes::{
    add_size, be_u32, get_u16, get_u32, get_u64, group_big_endian, put_u32, u16_at, u32_at, u64_at,
    version_of, Decode, Encode, Framing,
};
use crate::error::{eof, malformed, Error, IoError};
use crate::fourcc::{HDLR, ILOC, META};
use crate::framing::{
    box_bytes, close_box, decode_optional, decode_required, fits, lemma_child_first, lemma_nested_3,
    lemma_select_first, open_box, option_bytes, option_view, optional, pending, put_child,
    put_optional_child, required, size_option, split, split_boxes, BoxCodec, RawBox,
};
use crate::media::{HandlerBox, HandlerView};

verus! {

broadcast use {vstd::slice::group_slice_axioms, group_big_endian};

/// A piece of an item: where it begins and how long it is.
#[derive(Clone, Copy, Debug, PartialEq, Eq, Structural)]
pub struct ItemLocationEntryExtent {
    pub extent_offset: u64,
    pub extent_length: u64,
}

/// Where an item lies: its number, the number of the place that holds its
/// data, the offset from which its pieces are counted, and its pieces.
#[derive(Clone, Debug, PartialEq, Eq)]
pub struct ItemLocationEntry {
    pub item_id: u16,
    pub data_reference_index: u16,
    pub base_offset: u64,
    pub extents: Vec<ItemLocationEntryExtent>,
}

/// An `ItemLocationEntry` as a mathematical value.
pub struct ItemLocationEntryView {
    pub item_id: u16,
    pub data_reference_index: u16,
    pub base_offset: u64,
    pub extents: Seq<ItemLocationEntryExtent>,
}

impl View for ItemLocationEntry {
    type V = ItemLocationEntryView;

    open spec fn view(&self) -> ItemLocationEntryView {
        ItemLocationEntryView {
            item_id: self.item_id,
            data_reference_index: self.data_reference_index,
            base_offset: self.base_offset,
            extents: self.extents@,
        }
    }
}

/// The number in a field of `size` bytes at `at`: a field of no bytes holds
/// zero, one of four or eight bytes holds a number, and there is no field of
/// another size.
pub open spec fn sized_at(input: Seq<u8>, at: int, size: int) -> Result<u64, Error> {
    if size == 0 {
        Ok(0)
    } else if size == 4 {
        if at + 4 > input.len() {
            Err(eof())
        } else {
            Ok(u32_at(input, at) as u64)
        }
    } else if size == 8 {
        if at + 8 > input.len() {
            Err(eof())
        } else {
            Ok(u64_at(input, at))
        }
    } else {
        Err(malformed())
    }
}

/// The `count` pieces that begin at `at`, and where they end. Of each, the
/// offset is a field of `offset_size` bytes and the length one of
/// `length_size` bytes.
pub open spec fn parse_extents(
    input: Seq<u8>,
    at: int,
    count: int,
    offset_size: int,
    length_size: int,
) -> Result<(Seq<ItemLocationEntryExtent>, int), Error>
    decreases count,
{
    if count <= 0 {
        Ok((Seq::empty(), at))
    } else {
        match (
            sized_at(input, at, offset_size),
            sized_at(input, at + offset_size, length_size),
        ) {
            (Err(e), _) => Err(e),
            (_, Err(e)) => Err(e),
            (Ok(extent_offset), Ok(extent_length)) => match parse_extents(
                input,
                at + offset_size + length_size,
                count - 1,
                offset_size,
                length_size,
            ) {
                Err(e) => Err(e),
                Ok((rest, end)) => Ok(
                    (seq![ItemLocationEntryExtent { extent_offset, extent_length }] + rest, end),
                ),
            },
        }
    }
}

/// The `count` items that begin at `at`, and where they end. Of each, the
/// base offset is a field of `base_size` bytes.
pub open spec fn parse_items(
    input: Seq<u8>,
    at: int,
    count: int,
    base_size: int,
    offset_size: int,
    length_size: int,
) -> Result<(Seq<ItemLocationEntryView>, int), Error>
    decreases count,
{
    if count <= 0 {
        Ok((Seq::empty(), at))
    } else if at + 4 > input.len() {
        Err(eof())
    } else {
        match sized_at(input, at + 4, base_size) {
            Err(e) => Err(e),
            Ok(base_offset) => if at + 6 + base_size > input.len() {
                Err(eof())
            } else {
                match parse_extents(
                    input,
                    at + 6 + base_size,
                    u16_at(input, at + 4 + base_size) as int,
                    offset_size,
                    length_size,
                ) {
                    Err(e) => Err(e),
                    Ok((extents, next)) => match parse_items(
                        input,
                        next,
                        count - 1,
                        base_size,
                        offset_size,
                        length_size,
                    ) {
                        Err(e) => Err(e),
                        Ok((rest, end)) => Ok(
                            (
                                seq![
                                    ItemLocationEntryView {
                                        item_id: u16_at(input, at),
                                        data_reference_index: u16_at(input, at + 2),
                                        base_offset,
                                        extents,
                                    },
                                ] + rest,
                                end,
                            ),
                        ),
                    },
                }
            },
        }
    }
}

/// Pieces end where they begin or behind it, within the input.
pub proof fn lemma_extents_end(
    input: Seq<u8>,
    at: int,
    count: int,
    offset_size: int,
    length_size: int,
)
    requires
        0 <= at <= input.len(),
    ensures
        parse_extents(input, at, count, offset_size, length_size) matches Ok((_, end)) ==> at
            <= end <= input.len(),
    decreases count,
{
    if count > 0 && sized_at(input, at, offset_size) is Ok && sized_at(
        input,
        at + offset_size,
        length_size,
    ) is Ok {
        lemma_extents_end(
            input,
            at + offset_size + length_size,
            count - 1,
            offset_size,
            length_size,
        );
    }
}

/// Items end where they begin or behind it, within the input.
pub proof fn lemma_items_end(
    input: Seq<u8>,
    at: int,
    count: int,
    base_size: int,
    offset_size: int,
    length_size: int,
)
    requires
        0 <= at <= input.len(),
    ensures
        parse_items(input, at, count, base_size, offset_size, length_size) matches Ok((_, end))
            ==> at <= end <= input.len(),
    decreases count,
{
    if count > 0 && at + 4 <= input.len() && sized_at(input, at + 4, base_size) is Ok && at + 6
        + base_size <= input.len() {
        let extents = u16_at(input, at + 4 + base_size) as int;
        lemma_extents_end(input, at + 6 + base_size, extents, offset_size, length_size);
        match parse_extents(input, at + 6 + base_size, extents, offset_size, length_size) {
            Ok((_, next)) => {
                lemma_items_end(input, next, count - 1, base_size, offset_size, length_size);
            },
            Err(_) => {},
        }
    }
}

/// Reads the number in a field of `size` bytes at `at`.
fn read_sized(input: &[u8], at: usize, size: u8) -> (r: Result<u64, Error>)
    requires
        at <= input.len(),
    ensures
        r == sized_at(input@, at as int, size as int),
{
    if size == 0 {
        Ok(0)
    } else if size == 4 {
        if input.len() - at < 4 {
            Err(Error::Io(IoError::UnexpectedEof))
        } else {
            Ok(get_u32(input, at) as u64)
        }
    } else if size == 8 {
        if input.len() - at < 8 {
            Err(Error::Io(IoError::UnexpectedEof))
        } else {
            Ok(get_u64(input, at))
        }
    } else {
        Err(Error::Io(IoError::InvalidData))
    }
}

/// Reads the `count` pieces that begin at `at`.
fn decode_extents(input: &[u8], at: usize, count: u16, offset_size: u8, length_size: u8) -> (r:
    Result<(Vec<ItemLocationEntryExtent>, usize), Error>)
    requires
        at <= input.len(),
    ensures
        match parse_extents(
            input@,
            at as int,
            count as int,
            offset_size as int,
            length_size as int,
        ) {
            Ok((extents, end)) => r is Ok && r->Ok_0.0@ == extents && r->Ok_0.1 == end && end
                <= input.len(),
            Err(e) => r == Err::<(Vec<ItemLocationEntryExtent>, usize), Error>(e),
        },
{
    let ghost all = parse_extents(
        input@,
        at as int,
        count as int,
        offset_size as int,
        length_size as int,
    );
    let mut extents: Vec<ItemLocationEntryExtent> = Vec::new();
    let mut pos: usize = at;
    let mut i: u16 = 0;
    proof {
        match all {
            Ok((rest, _)) => {
                assert(extents@ + rest =~= rest);
            },
            Err(_) => {},
        }
    }
    while i < count
        invariant
            i <= count,
            at <= pos <= input.len(),
            all == parse_extents(
                input@,
                at as int,
                count as int,
                offset_size as int,
                length_size as int,
            ),
            match parse_extents(
                input@,
                pos as int,
                count - i,
                offset_size as int,
                length_size as int,
            ) {
                Ok((rest, end)) => all == Ok::<(Seq<ItemLocationEntryExtent>, int), Error>(
                    (extents@ + rest, end),
                ),
                Err(e) => all == Err::<(Seq<ItemLocationEntryExtent>, int), Error>(e),
            },
        decreases count - i,
    {
        let ghost before = extents@;
        let extent_offset: u64 = read_sized(input, pos, offset_size)?;
        let mid: usize = pos + offset_size as usize;
        let extent_length: u64 = read_sized(input, mid, length_size)?;
        let next: usize = mid + length_size as usize;
        let extent = ItemLocationEntryExtent { extent_offset, extent_length };
        extents.push(extent);
        proof {
            match parse_extents(
                input@,
                next as int,
                count - i - 1,
                offset_size as int,
                length_size as int,
            ) {
                Ok((rest, _)) => {
                    assert(before + (seq![extent] + rest) =~= extents@ + rest);
                },
                Err(_) => {},
            }
        }
        pos = next;
        i = i + 1;
    }
    proof {
        assert(extents@ + Seq::<ItemLocationEntryExtent>::empty() =~= extents@);
    }
    Ok((extents, pos))
}

/// Where the items of a file lie (`iloc`).
#[derive(Clone, Debug, PartialEq, Eq)]
pub struct ItemLocationBox(pub Vec<ItemLocationEntry>);

impl View for ItemLocationBox {
    type V = Seq<ItemLocationEntryView>;

    open spec fn view(&self) -> Seq<ItemLocationEntryView> {
        crate::framing::views(self.0@)
    }
}

impl Encode for ItemLocationBox {
    /// The bytes of the box hold its version and flags and none of the
    /// items.
    open spec fn bytes(v: Seq<ItemLocationEntryView>) -> Seq<u8> {
        box_bytes(ILOC, be_u32(0))
    }

    open spec fn encodable(v: Seq<ItemLocationEntryView>) -> bool {
        true
    }

    fn size(&self) -> (n: u64) {
        12
    }

    /// Writes the box with its version and flags; the items are not
    /// written.
    fn encode_with(&self, output: &mut Vec<u8>, framing: Framing) -> (r: Result<(), Error>) {
        let ghost before = output@;
        let begin: u64 = open_box(output, ILOC, 12, framing, Ghost(be_u32(0)))?;
        put_u32(output, 0);
        close_box(output, begin, framing, Ghost(before), Ghost(ILOC), Ghost(be_u32(0)))
    }
}

impl Decode for ItemLocationBox {
    /// Only version 0 is known. Behind version and flags stand a byte whose
    /// low half says how many bytes the offset of a piece has and whose
    /// high half says how many its length has, a byte whose low half says
    /// how many bytes a base offset has, and the number of items; then the
    /// items, which end the part that is taken.
    open spec fn parse(input: Seq<u8>) -> Result<(Seq<ItemLocationEntryView>, int), Error> {
        if input.len() < 4 {
            Err(eof())
        } else if version_of(input) != 0 {
            Err(malformed())
        } else if input.len() < 8 {
            Err(eof())
        } else {
            parse_items(
                input,
                8,
                u16_at(input, 6) as int,
                input[5] as int % 16,
                input[4] as int % 16,
                input[4] as int / 16,
            )
        }
    }

    fn decode(input: &mut &[u8]) -> (r: Result<Self, Error>) {
        let b: &[u8] = *input;
        if b.len() < 4 {
            return Err(Error::Io(IoError::UnexpectedEof));
        }
        if get_u32(b, 0) / 0x100_0000 != 0 {
            return Err(Error::Io(IoError::InvalidData));
        }
        if b.len() < 8 {
            return Err(Error::Io(IoError::UnexpectedEof));
        }
        let offset_size: u8 = b[4] % 16;
        let length_size: u8 = b[4] / 16;
        let base_size: u8 = b[5] % 16;
        let count: u16 = get_u16(b, 6);
        let ghost all = parse_items(
            b@,
            8,
            count as int,
            base_size as int,
            offset_size as int,
            length_size as int,
        );
        let mut items: Vec<ItemLocationEntry> = Vec::new();
        let mut pos: usize = 8;
        let mut i: u16 = 0;
        proof {
            lemma_items_end(
                b@,
                8,
                count as int,
                base_size as int,
                offset_size as int,
                length_size as int,
            );
            match all {
                Ok((rest, _)) => {
                    assert(crate::framing::views(items@) + rest =~= rest);
                },
                Err(_) => {},
            }
        }
        while i < count
            invariant
                b@ == old(input)@,
                *input == b,
                i <= count,
                8 <= pos <= b.len(),
                base_size < 16,
                offset_size < 16,
                length_size < 16,
                all == parse_items(
                    b@,
                    8,
                    count as int,
                    base_size as int,
                    offset_size as int,
                    length_size as int,
                ),
                Self::parse(b@) == all,
                match parse_items(
                    b@,
                    pos as int,
                    count - i,
                    base_size as int,
                    offset_size as int,
                    length_size as int,
                ) {
                    Ok((rest, end)) => all == Ok::<(Seq<ItemLocationEntryView>, int), Error>(
                        (crate::framing::views(items@) + rest, end),
                    ) && end <= b.len(),
                    Err(e) => all == Err::<(Seq<ItemLocationEntryView>, int), Error>(e),
                },
            decreases count - i,
        {
            let ghost before = crate::framing::views(items@);
            if b.len() - pos < 4 {
                return Err(Error::Io(IoError::UnexpectedEof));
            }
            let item_id: u16 = get_u16(b, pos);
            let data_reference_index: u16 = get_u16(b, pos + 2);
            let base_offset: u64 = read_sized(b, pos + 4, base_size)?;
            if b.len() - pos - 4 < base_size as usize + 2 {
                return Err(Error::Io(IoError::UnexpectedEof));
            }
            let extent_count: u16 = get_u16(b, pos + 4 + base_size as usize);
            let (extents, next) = decode_extents(
                b,
                pos + 6 + base_size as usize,
                extent_count,
                offset_size,
                length_size,
            )?;
            proof {
                lemma_extents_end(
                    b@,
                    pos + 6 + base_size,
                    extent_count as int,
                    offset_size as int,
                    length_size as int,
                );
                lemma_items_end(
                    b@,
                    next as int,
                    count - i - 1,
                    base_size as int,
                    offset_size as int,
                    length_size as int,
                );
            }
            let item = ItemLocationEntry { item_id, data_reference_index, base_offset, extents };
            items.push(item);
            proof {
                let entry = crate::framing::views(items@).last();
                assert(crate::framing::views(items@) =~= before + seq![entry]);
                match parse_items(
                    b@,
                    next as int,
                    count - i - 1,
                    base_size as int,
                    offset_size as int,
                    length_size as int,
                ) {
                    Ok((rest, _)) => {
                        assert(before + (seq![entry] + rest) =~= before + seq![entry] + rest);
                    },
                    Err(_) => {},
                }
            }
            pos = next;
            i = i + 1;
        }
        proof {
            assert(crate::framing::views(items@) + Seq::<ItemLocationEntryView>::empty()
                =~= crate::framing::views(items@));
        }
        *input = slice_subrange(b, pos, b.len());
        Ok(ItemLocationBox(items))
    }
}

/// Data about the file as a whole (`meta`): what kind of data it is, and
/// where its items lie.
#[derive(Clone, Debug, PartialEq, Eq)]
pub struct MetaBox {
    pub handler: HandlerBox,
    pub item_location: Option<ItemLocationBox>,
}

/// A `MetaBox` as a mathematical value.
pub struct MetaView {
    pub handler: HandlerView,
    pub item_location: Option<Seq<ItemLocationEntryView>>,
}

impl View for MetaBox {
    type V = MetaView;

    open spec fn view(&self) -> MetaView {
        MetaView { handler: self.handler@, item_location: option_view(self.item_location) }
    }
}

impl MetaBox {
    /// The body: version 0 and no flags, the handler, and the item
    /// locations where there are any.
    pub open spec fn body_bytes(v: MetaView) -> Seq<u8> {
        be_u32(0) + (HandlerBox::bytes(v.handler) + option_bytes::<ItemLocationBox>(
            v.item_location,
        ))
    }

    /// The meta data that the children of the box make up. An `hdlr` must
    /// occur once, an `iloc` may occur once, and other children are passed
    /// over. Of several faults the one of the child that is named first
    /// here is reported.
    pub open spec fn from_children(boxes: Seq<RawBox>) -> Result<MetaView, Error> {
        match (
            required::<HandlerBox>(boxes, HDLR),
            optional::<ItemLocationBox>(boxes, ILOC),
        ) {
            (Err(e), _) => Err(e),
            (_, Err(e)) => Err(e),
            (Ok(handler), Ok(item_location)) => Ok(MetaView { handler, item_location }),
        }
    }
}

impl Encode for MetaBox {
    open spec fn bytes(v: MetaView) -> Seq<u8> {
        box_bytes(META, Self::body_bytes(v))
    }

    open spec fn encodable(v: MetaView) -> bool {
        fits(Self::body_bytes(v))
    }

    fn size(&self) -> (n: u64) {
        add_size(add_size(12, self.handler.size()), size_option(&self.item_location))
    }

    fn encode_with(&self, output: &mut Vec<u8>, framing: Framing) -> (r: Result<(), Error>) {
        let ghost before = output@;
        let begin: u64 = open_box(
            output,
            META,
            self.size(),
            framing,
            Ghost(Self::body_bytes(self@)),
        )?;
        put_u32(output, 0);
        put_child(&self.handler, output, framing, Ghost(before))?;
        put_optional_child(&self.item_location, output, framing, Ghost(before))?;
        proof {
            lemma_nested_3(
                before + be_u32(pending(framing, Self::body_bytes(self@))) + be_u32(META),
                be_u32(0),
                HandlerBox::bytes(self@.handler),
                option_bytes::<ItemLocationBox>(self@.item_location),
            );
        }
        close_box(output, begin, framing, Ghost(before), Ghost(META), Ghost(Self::body_bytes(self@)))
    }
}

impl Decode for MetaBox {
    /// Only version 0 is known. The whole input is taken: behind version
    /// and flags it is told apart into boxes, which are the children.
    open spec fn parse(input: Seq<u8>) -> Result<(MetaView, int), Error> {
        if input.len() < 4 {
            Err(eof())
        } else if version_of(input) != 0 {
            Err(malformed())
        } else {
            match split_boxes(input.skip(4)) {
                Err(e) => Err(e),
                Ok(boxes) => match Self::from_children(boxes) {
                    Err(e) => Err(e),
                    Ok(v) => Ok((v, input.len() as int)),
                },
            }
        }
    }

    fn decode(input: &mut &[u8]) -> (r: Result<Self, Error>) {
        let b: &[u8] = *input;
        if b.len() < 4 {
            return Err(Error::Io(IoError::UnexpectedEof));
        }
        if get_u32(b, 0) / 0x100_0000 != 0 {
            return Err(Error::Io(IoError::InvalidData));
        }
        let rest: &[u8] = slice_subrange(b, 4, b.len());
        let boxes = split(rest)?;
        let handler = decode_required::<HandlerBox>(rest, &boxes, HDLR)?;
        let item_location = decode_optional::<ItemLocationBox>(rest, &boxes, ILOC)?;
        *input = slice_subrange(b, b.len(), b.len());
        Ok(MetaBox { handler, item_location })
    }
}

impl BoxCodec for MetaBox {
    open spec fn box_type() -> u32 {
        META
    }

    open spec fn body(v: MetaView) -> Seq<u8> {
        Self::body_bytes(v)
    }

    /// The name of the handler holds no NUL character, and there are no
    /// item locations, which are not written.
    open spec fn canonical(v: MetaView) -> bool {
        HandlerBox::canonical(v.handler) && v.item_location is None
    }

    proof fn lemma_box(v: MetaView) {
        assert(Self::box_type() == META);
        assert(Self::body(v) == Self::body_bytes(v));
        assert(Self::encodable(v) == (fits(Self::body_bytes(v))));
        assert(Self::bytes(v) == box_bytes(META, Self::body_bytes(v)));
    }

    proof fn lemma_round_trip(v: MetaView) {
        broadcast use lemma_select_first;

        let none = Seq::<u8>::empty();
        let handler = HandlerBox::bytes(v.handler);
        HandlerBox::lemma_box(v.handler);
        assert(Self::body_bytes(v).skip(4) =~= handler + none);
        lemma_child_first::<HandlerBox>(v.handler, none);
    }

    open spec fn normal(v: MetaView) -> MetaView {
        v
    }

    proof fn lemma_normal(v: MetaView) {
        assert(Self::normal(v) == v);
    }

    open spec fn shaped(v: MetaView) -> bool {
        Self::canonical(v)
    }

    proof fn lemma_decoded(v: MetaView) {
        assert(Self::normal(v) == v);
        assert(Self::shaped(v) == Self::canonical(v));
    }
}

} // verus!
