//! How boxes are framed and told apart: the header of a box with its size
//! and type, the two ways of getting the size into it, and finding the
//! children of a parent by their type and the number of times that each may
//! occur.

use vstd::prelude::*;
use vstd::slice::slice_subrange;

use crate::bytes::{
    add_size, be_u32, get_u32, group_big_endian, lemma_u32_at_subrange, put_bytes, put_u32,
    saturate, u32_at, u32_bytes, Decode, Encode, Framing,
};
use crate::error::{bad_quantity, eof, malformed, too_large, Error, IoError};
use crate::fourcc::FourCC;

verus! {

broadcast use {vstd::slice::group_slice_axioms, group_big_endian};

/// The bytes of a box: its size, which counts the eight bytes of the header
/// and the body, its type, then the body.
pub open spec fn box_bytes(box_type: u32, body: Seq<u8>) -> Seq<u8> {
    be_u32((8 + body.len()) as u32) + be_u32(box_type) + body
}

/// Whether a body is short enough for the size field of its box.
pub open spec fn fits(body: Seq<u8>) -> bool {
    8 + body.len() <= u32::MAX
}

/// A box as it is found when the children of a parent are told apart: its
/// type, and its body still undecoded.
pub struct RawBox {
    /// The type of the box.
    pub box_type: u32,
    /// The bytes behind the header of the box, up to its end.
    pub body: Seq<u8>,
}

/// The boxes that a buffer holds one after the other. The buffer must end
/// with the end of a box. A size below eight is malformed, and a box that
/// runs past the end of the buffer was cut short.
pub open spec fn split_boxes(input: Seq<u8>) -> Result<Seq<RawBox>, Error>
    decreases input.len(),
{
    if input.len() == 0 {
        Ok(Seq::empty())
    } else if input.len() < 8 {
        Err(eof())
    } else if u32_at(input, 0) < 8 {
        Err(malformed())
    } else if u32_at(input, 0) > input.len() {
        Err(eof())
    } else {
        let size = u32_at(input, 0) as int;
        match split_boxes(input.skip(size)) {
            Err(e) => Err(e),
            Ok(rest) => Ok(
                seq![RawBox { box_type: u32_at(input, 4), body: input.subrange(8, size) }] + rest,
            ),
        }
    }
}

/// The bodies of the boxes of one type, in the order of the boxes.
pub open spec fn select(boxes: Seq<RawBox>, box_type: u32) -> Seq<Seq<u8>>
    decreases boxes.len(),
{
    if boxes.len() == 0 {
        Seq::empty()
    } else if boxes[0].box_type == box_type {
        seq![boxes[0].body] + select(boxes.drop_first(), box_type)
    } else {
        select(boxes.drop_first(), box_type)
    }
}

/// What the body of a child box decodes to.
pub open spec fn child<T: Decode>(body: Seq<u8>) -> Result<T::V, Error> {
    match T::parse(body) {
        Ok((v, _)) => Ok(v),
        Err(e) => Err(e),
    }
}

/// The one child of a type that must occur exactly once: the first is
/// decoded; none, or a second one, is a wrong quantity.
pub open spec fn required<T: Decode>(boxes: Seq<RawBox>, box_type: u32) -> Result<T::V, Error> {
    let found = select(boxes, box_type);
    if found.len() == 0 {
        Err(bad_quantity(box_type, 0, 1))
    } else {
        match child::<T>(found[0]) {
            Err(e) => Err(e),
            Ok(v) => if found.len() > 1 {
                Err(bad_quantity(box_type, 2, 1))
            } else {
                Ok(v)
            },
        }
    }
}

/// The child of a type that may occur once: the first is decoded, and a
/// second one is a wrong quantity.
pub open spec fn optional<T: Decode>(boxes: Seq<RawBox>, box_type: u32) -> Result<
    Option<T::V>,
    Error,
> {
    let found = select(boxes, box_type);
    if found.len() == 0 {
        Ok(None)
    } else {
        match child::<T>(found[0]) {
            Err(e) => Err(e),
            Ok(v) => if found.len() > 1 {
                Err(bad_quantity(box_type, 2, 1))
            } else {
                Ok(Some(v))
            },
        }
    }
}

/// What a sequence of bodies decodes to, each as a `T`, in their order; the
/// first that fails to decode fails the whole.
pub open spec fn children<T: Decode>(bodies: Seq<Seq<u8>>) -> Result<Seq<T::V>, Error>
    decreases bodies.len(),
{
    if bodies.len() == 0 {
        Ok(Seq::empty())
    } else {
        match child::<T>(bodies[0]) {
            Err(e) => Err(e),
            Ok(v) => match children::<T>(bodies.drop_first()) {
                Err(e) => Err(e),
                Ok(rest) => Ok(seq![v] + rest),
            },
        }
    }
}

/// The children of a type that may occur any number of times, in the order
/// of the boxes.
pub open spec fn multiple<T: Decode>(boxes: Seq<RawBox>, box_type: u32) -> Result<
    Seq<T::V>,
    Error,
> {
    children::<T>(select(boxes, box_type))
}

/// Begins a box: appends a size of zero, to be set by `update_box_header`
/// once the body is written, and the type. Returns where the box begins.
pub fn encode_box_header(output: &mut Vec<u8>, box_type: [u8; 4]) -> (r: Result<u64, Error>)
    ensures
        r is Ok,
        r->Ok_0 == old(output)@.len(),
        final(output)@ == old(output)@ + be_u32(0) + box_type@,
{
    let begin: usize = output.len();
    put_u32(output, 0);
    put_bytes(output, box_type.as_slice());
    Ok(begin as u64)
}

/// Ends the box that begins at `begin`: sets its size field to the number of
/// bytes from `begin` to the end of `output`. A box of more bytes than the
/// field can say is refused, and `output` stays as it was.
pub fn update_box_header(output: &mut Vec<u8>, begin: u64) -> (r: Result<(), Error>)
    requires
        begin + 8 <= old(output)@.len(),
    ensures
        r is Ok <==> old(output)@.len() - begin <= u32::MAX,
        r is Ok ==> final(output)@ == old(output)@.take(begin as int) + be_u32(
            (old(output)@.len() - begin) as u32,
        ) + old(output)@.skip(begin + 4),
        r is Err ==> r == Err::<(), Error>(too_large()) && final(output)@ == old(output)@,
{
    let end: usize = output.len();
    let at: usize = begin as usize;
    let size: usize = end - at;
    if size > 0xffff_ffff {
        return Err(Error::Io(IoError::InvalidInput));
    }
    let field: [u8; 4] = u32_bytes(size as u32);
    output[at] = field[0];
    output[at + 1] = field[1];
    output[at + 2] = field[2];
    output[at + 3] = field[3];
    assert(output@ =~= old(output)@.take(begin as int) + be_u32(size as u32) + old(output)@.skip(
        begin + 4,
    ));
    Ok(())
}

/// What the size field of a box holds while its body is written: zero
/// where the size is set afterwards, else the size.
pub open spec fn pending(framing: Framing, body: Seq<u8>) -> u32 {
    match framing {
        Framing::Backpatch => 0,
        Framing::Precomputed => (8 + body.len()) as u32,
    }
}

/// Begins a box whose size is known: appends the size and the type.
/// Returns where the box begins.
pub fn encode_sized_box_header(output: &mut Vec<u8>, box_type: [u8; 4], size: u32) -> (r: Result<
    u64,
    Error,
>)
    ensures
        r is Ok,
        r->Ok_0 == old(output)@.len(),
        final(output)@ == old(output)@ + be_u32(size) + box_type@,
{
    let begin: usize = output.len();
    put_u32(output, size);
    put_bytes(output, box_type.as_slice());
    Ok(begin as u64)
}

/// Begins a box of a value whose body is `body` and whose size was computed
/// as `size`. Where the size is written first, a box too long for its size
/// field is refused here.
pub(crate) fn open_box(
    output: &mut Vec<u8>,
    box_type: u32,
    size: u64,
    framing: Framing,
    Ghost(body): Ghost<Seq<u8>>,
) -> (r: Result<u64, Error>)
    requires
        size == saturate(8 + body.len() as int),
    ensures
        r is Ok <==> (framing == Framing::Precomputed ==> fits(body)),
        r is Ok ==> r->Ok_0 == old(output)@.len() && final(output)@ == old(output)@ + be_u32(
            pending(framing, body),
        ) + be_u32(box_type),
        r is Err ==> r == Err::<u64, Error>(too_large()) && final(output)@ == old(output)@,
{
    match framing {
        Framing::Backpatch => encode_box_header(output, FourCC(box_type).to_bytes()),
        Framing::Precomputed => {
            if size > 0xffff_ffff {
                return Err(Error::Io(IoError::InvalidInput));
            }
            encode_sized_box_header(output, FourCC(box_type).to_bytes(), size as u32)
        },
    }
}

/// Ends a box whose header and body were appended to `before`.
pub(crate) fn close_box(
    output: &mut Vec<u8>,
    begin: u64,
    framing: Framing,
    Ghost(before): Ghost<Seq<u8>>,
    Ghost(box_type): Ghost<u32>,
    Ghost(body): Ghost<Seq<u8>>,
) -> (r: Result<(), Error>)
    requires
        old(output)@ == before + be_u32(pending(framing, body)) + be_u32(box_type) + body,
        begin == before.len(),
        framing == Framing::Precomputed ==> fits(body),
    ensures
        r is Ok <==> fits(body),
        r is Ok ==> final(output)@ == before + box_bytes(box_type, body),
        r is Err ==> r == Err::<(), Error>(too_large()) && final(output)@ == old(output)@,
{
    match framing {
        Framing::Backpatch => {
            let r = update_box_header(output, begin);
            proof {
                if r is Ok {
                    assert(output@ =~= before + box_bytes(box_type, body));
                }
            }
            r
        },
        Framing::Precomputed => {
            assert(output@ =~= before + box_bytes(box_type, body));
            Ok(())
        },
    }
}

/// Where a box lies in a buffer: its type, and the range of its body.
#[derive(Clone, Copy, Debug)]
pub struct BoxRef {
    /// The type of the box.
    pub box_type: u32,
    /// Where its body begins.
    pub start: usize,
    /// Where its body ends.
    pub end: usize,
}

/// Whether every range lies in a buffer of `len` bytes.
pub open spec fn in_bounds(refs: Seq<BoxRef>, len: int) -> bool {
    forall|i: int| 0 <= i < refs.len() ==> (#[trigger] refs[i]).start <= refs[i].end <= len
}

/// The boxes that the ranges cut out of a buffer.
pub open spec fn raw_boxes(input: Seq<u8>, refs: Seq<BoxRef>) -> Seq<RawBox> {
    Seq::new(
        refs.len(),
        |i: int|
            RawBox {
                box_type: refs[i].box_type,
                body: input.subrange(refs[i].start as int, refs[i].end as int),
            },
    )
}

/// Tells apart the boxes that `input` holds one after the other.
pub fn split(input: &[u8]) -> (r: Result<Vec<BoxRef>, Error>)
    ensures
        match split_boxes(input@) {
            Ok(boxes) => r is Ok && in_bounds(r->Ok_0@, input@.len() as int) && raw_boxes(
                input@,
                r->Ok_0@,
            ) == boxes,
            Err(e) => r == Err::<Vec<BoxRef>, Error>(e),
        },
{
    let mut refs: Vec<BoxRef> = Vec::new();
    let mut pos: usize = 0;
    let len: usize = input.len();
    assert(input@.skip(0) =~= input@);
    assert(raw_boxes(input@, refs@) =~= Seq::empty());
    while pos < len
        invariant
            len == input@.len(),
            pos <= len,
            in_bounds(refs@, len as int),
            match split_boxes(input@.skip(pos as int)) {
                Ok(rest) => split_boxes(input@) == Ok::<Seq<RawBox>, Error>(
                    raw_boxes(input@, refs@) + rest,
                ),
                Err(e) => split_boxes(input@) == Err::<Seq<RawBox>, Error>(e),
            },
        decreases len - pos,
    {
        let ghost tail = input@.skip(pos as int);
        if len - pos < 8 {
            return Err(Error::Io(IoError::UnexpectedEof));
        }
        proof {
            lemma_u32_at_subrange(input@, pos as int, len as int, 0);
            lemma_u32_at_subrange(input@, pos as int, len as int, 4);
        }
        let size: u32 = get_u32(input, pos);
        let box_type: u32 = get_u32(input, pos + 4);
        if size < 8 {
            return Err(Error::Io(IoError::InvalidData));
        }
        if size as usize > len - pos {
            return Err(Error::Io(IoError::UnexpectedEof));
        }
        let ghost before = raw_boxes(input@, refs@);
        refs.push(BoxRef { box_type, start: pos + 8, end: pos + size as usize });
        proof {
            assert(tail.skip(size as int) =~= input@.skip(pos + size));
            assert(tail.subrange(8, size as int) =~= input@.subrange(pos + 8, pos + size));
            let first = RawBox { box_type, body: tail.subrange(8, size as int) };
            assert(raw_boxes(input@, refs@) =~= before + seq![first]);
            match split_boxes(input@.skip(pos + size)) {
                Ok(rest) => {
                    assert(before + (seq![first] + rest) =~= before + seq![first] + rest);
                },
                Err(_) => {},
            }
        }
        pos = pos + size as usize;
    }
    assert(raw_boxes(input@, refs@) + Seq::<RawBox>::empty() =~= raw_boxes(input@, refs@));
    Ok(refs)
}

/// Skipping the boxes before the first of a type changes nothing in what is
/// selected, and the first of the type is the first that is selected.
proof fn lemma_select_skip(boxes: Seq<RawBox>, box_type: u32, from: int, to: int)
    requires
        0 <= from <= to <= boxes.len(),
        forall|j: int| from <= j < to ==> boxes[j].box_type != box_type,
    ensures
        select(boxes.skip(from), box_type) == select(boxes.skip(to), box_type),
        to < boxes.len() && boxes[to].box_type == box_type ==> select(boxes.skip(to), box_type)
            == seq![boxes[to].body] + select(boxes.skip(to + 1), box_type),
    decreases to - from,
{
    if from < to {
        assert(boxes.skip(from).drop_first() =~= boxes.skip(from + 1));
        lemma_select_skip(boxes, box_type, from + 1, to);
    }
    if to < boxes.len() {
        assert(boxes.skip(to).drop_first() =~= boxes.skip(to + 1));
    }
}

/// The first box of a type at or after index `from`.
fn find(boxes: &Vec<BoxRef>, box_type: u32, from: usize) -> (r: Option<usize>)
    requires
        from <= boxes@.len(),
    ensures
        match r {
            Some(i) => from <= i < boxes.len() && boxes@[i as int].box_type == box_type
                && forall|j: int| from <= j < i ==> boxes@[j].box_type != box_type,
            None => forall|j: int| from <= j < boxes@.len() ==> boxes@[j].box_type != box_type,
        },
{
    let mut i: usize = from;
    while i < boxes.len()
        invariant
            from <= i <= boxes@.len(),
            forall|j: int| from <= j < i ==> boxes@[j].box_type != box_type,
        decreases boxes@.len() - i,
    {
        if boxes[i].box_type == box_type {
            return Some(i);
        }
        i = i + 1;
    }
    None
}

/// Decodes the body of the box at index `i`.
fn decode_at<T: Decode>(input: &[u8], boxes: &Vec<BoxRef>, i: usize) -> (r: Result<T, Error>)
    requires
        in_bounds(boxes@, input@.len() as int),
        i < boxes@.len(),
    ensures
        match child::<T>(raw_boxes(input@, boxes@)[i as int].body) {
            Ok(v) => r is Ok && r->Ok_0@ == v,
            Err(e) => r == Err::<T, Error>(e),
        },
{
    let at = boxes[i];
    let mut body: &[u8] = slice_subrange(input, at.start, at.end);
    T::decode(&mut body)
}

/// Decodes the child of a type that must occur exactly once.
pub fn decode_required<T: Decode>(input: &[u8], boxes: &Vec<BoxRef>, box_type: u32) -> (r: Result<
    T,
    Error,
>)
    requires
        in_bounds(boxes@, input@.len() as int),
    ensures
        match required::<T>(raw_boxes(input@, boxes@), box_type) {
            Ok(v) => r is Ok && r->Ok_0@ == v,
            Err(e) => r == Err::<T, Error>(e),
        },
{
    let ghost raw = raw_boxes(input@, boxes@);
    assert(raw.skip(0) =~= raw);
    match find(boxes, box_type, 0) {
        None => {
            proof {
                lemma_select_skip(raw, box_type, 0, raw.len() as int);
            }
            Err(Error::InvalidBoxQuantity { box_type: FourCC(box_type), quantity: 0, expected: 1 })
        },
        Some(i) => {
            proof {
                lemma_select_skip(raw, box_type, 0, i as int);
            }
            let v = decode_at::<T>(input, boxes, i)?;
            match find(boxes, box_type, i + 1) {
                None => {
                    proof {
                        lemma_select_skip(raw, box_type, i + 1, raw.len() as int);
                    }
                    Ok(v)
                },
                Some(j) => {
                    proof {
                        lemma_select_skip(raw, box_type, i + 1, j as int);
                    }
                    Err(
                        Error::InvalidBoxQuantity {
                            box_type: FourCC(box_type),
                            quantity: 2,
                            expected: 1,
                        },
                    )
                },
            }
        },
    }
}

/// Decodes the child of a type that may occur once.
pub fn decode_optional<T: Decode>(input: &[u8], boxes: &Vec<BoxRef>, box_type: u32) -> (r: Result<
    Option<T>,
    Error,
>)
    requires
        in_bounds(boxes@, input@.len() as int),
    ensures
        match optional::<T>(raw_boxes(input@, boxes@), box_type) {
            Ok(Some(v)) => r is Ok && r->Ok_0 is Some && r->Ok_0->Some_0@ == v,
            Ok(None) => r is Ok && r->Ok_0 is None,
            Err(e) => r == Err::<Option<T>, Error>(e),
        },
{
    let ghost raw = raw_boxes(input@, boxes@);
    assert(raw.skip(0) =~= raw);
    match find(boxes, box_type, 0) {
        None => {
            proof {
                lemma_select_skip(raw, box_type, 0, raw.len() as int);
            }
            Ok(None)
        },
        Some(i) => {
            proof {
                lemma_select_skip(raw, box_type, 0, i as int);
            }
            let v = decode_at::<T>(input, boxes, i)?;
            match find(boxes, box_type, i + 1) {
                None => {
                    proof {
                        lemma_select_skip(raw, box_type, i + 1, raw.len() as int);
                    }
                    Ok(Some(v))
                },
                Some(j) => {
                    proof {
                        lemma_select_skip(raw, box_type, i + 1, j as int);
                    }
                    Err(
                        Error::InvalidBoxQuantity {
                            box_type: FourCC(box_type),
                            quantity: 2,
                            expected: 1,
                        },
                    )
                },
            }
        },
    }
}

/// The views of a sequence of values.
pub open spec fn views<T: View>(items: Seq<T>) -> Seq<T::V> {
    Seq::new(items.len(), |i: int| items[i]@)
}

/// Decodes the children of a type that may occur any number of times.
pub fn decode_multiple<T: Decode>(input: &[u8], boxes: &Vec<BoxRef>, box_type: u32) -> (r: Result<
    Vec<T>,
    Error,
>)
    requires
        in_bounds(boxes@, input@.len() as int),
    ensures
        match multiple::<T>(raw_boxes(input@, boxes@), box_type) {
            Ok(vs) => r is Ok && views(r->Ok_0@) == vs,
            Err(e) => r == Err::<Vec<T>, Error>(e),
        },
{
    let ghost raw = raw_boxes(input@, boxes@);
    let mut found: Vec<T> = Vec::new();
    let mut from: usize = 0;
    let count: usize = boxes.len();
    assert(raw.skip(0) =~= raw);
    assert(views(found@) =~= Seq::empty());
    loop
        invariant
            count == boxes@.len(),
            from <= count,
            raw == raw_boxes(input@, boxes@),
            in_bounds(boxes@, input@.len() as int),
            match children::<T>(select(raw.skip(from as int), box_type)) {
                Ok(rest) => multiple::<T>(raw, box_type) == Ok::<Seq<T::V>, Error>(
                    views(found@) + rest,
                ),
                Err(e) => multiple::<T>(raw, box_type) == Err::<Seq<T::V>, Error>(e),
            },
        decreases count - from,
    {
        match find(boxes, box_type, from) {
            None => {
                proof {
                    lemma_select_skip(raw, box_type, from as int, raw.len() as int);
                    assert(views(found@) + Seq::<T::V>::empty() =~= views(found@));
                }
                return Ok(found);
            },
            Some(i) => {
                let ghost bodies = select(raw.skip(from as int), box_type);
                let ghost before = views(found@);
                proof {
                    lemma_select_skip(raw, box_type, from as int, i as int);
                    assert(bodies.drop_first() =~= select(raw.skip(i + 1), box_type));
                }
                let v = decode_at::<T>(input, boxes, i)?;
                found.push(v);
                proof {
                    assert(views(found@) =~= before + seq![v@]);
                    match children::<T>(select(raw.skip(i + 1), box_type)) {
                        Ok(rest) => {
                            assert(before + (seq![v@] + rest) =~= before + seq![v@] + rest);
                        },
                        Err(_) => {},
                    }
                }
                from = i + 1;
            },
        }
    }
}

/// The bytes of a sequence of values, one after the other.
pub open spec fn all_bytes<T: Encode>(items: Seq<T::V>) -> Seq<u8>
    decreases items.len(),
{
    if items.len() == 0 {
        Seq::empty()
    } else {
        T::bytes(items[0]) + all_bytes::<T>(items.drop_first())
    }
}

/// The bytes of a value that may be absent: none where it is.
pub open spec fn option_bytes<T: Encode>(item: Option<T::V>) -> Seq<u8> {
    match item {
        Some(v) => T::bytes(v),
        None => Seq::empty(),
    }
}

/// The bytes of a sequence with one more value are the bytes of the
/// sequence, then those of the value.
pub proof fn lemma_all_bytes_push<T: Encode>(items: Seq<T::V>, last: T::V)
    ensures
        all_bytes::<T>(items.push(last)) == all_bytes::<T>(items) + T::bytes(last),
    decreases items.len(),
{
    if items.len() == 0 {
        assert(items.push(last).drop_first() =~= Seq::empty());
        assert(items.push(last)[0] == last);
        assert(all_bytes::<T>(Seq::<T::V>::empty()) =~= Seq::<u8>::empty());
        assert(all_bytes::<T>(items.push(last)) =~= T::bytes(last));
        assert(all_bytes::<T>(items) + T::bytes(last) =~= T::bytes(last));
    } else {
        assert(items.push(last).drop_first() =~= items.drop_first().push(last));
        lemma_all_bytes_push::<T>(items.drop_first(), last);
        assert(T::bytes(items[0]) + (all_bytes::<T>(items.drop_first()) + T::bytes(last))
            =~= T::bytes(items[0]) + all_bytes::<T>(items.drop_first()) + T::bytes(last));
    }
}

/// The bytes of a sequence are at least as many as those of any value in it.
pub proof fn lemma_all_bytes_len<T: Encode>(items: Seq<T::V>, i: int)
    requires
        0 <= i < items.len(),
    ensures
        all_bytes::<T>(items).len() >= T::bytes(items[i]).len(),
    decreases items.len(),
{
    if i > 0 {
        lemma_all_bytes_len::<T>(items.drop_first(), i - 1);
    }
}

/// Appends the bytes of every value, in their order. It stops at the first
/// value that cannot be written.
pub fn encode_all<T: Encode>(items: &Vec<T>, output: &mut Vec<u8>, framing: Framing) -> (r: Result<
    (),
    Error,
>)
    ensures
        r is Ok <==> forall|i: int| 0 <= i < items@.len() ==> T::encodable(#[trigger] items@[i]@),
        r is Ok ==> final(output)@ == old(output)@ + all_bytes::<T>(views(items@)),
        r is Err ==> r == Err::<(), Error>(too_large()) && all_bytes::<T>(views(items@)).len()
            > u32::MAX && old(output)@.is_prefix_of(final(output)@),
{
    let mut i: usize = 0;
    assert(views(items@).take(0) =~= Seq::empty());
    assert(output@ + Seq::<u8>::empty() =~= output@);
    while i < items.len()
        invariant
            i <= items@.len(),
            forall|j: int| 0 <= j < i ==> T::encodable(#[trigger] items@[j]@),
            output@ == old(output)@ + all_bytes::<T>(views(items@).take(i as int)),
        decreases items@.len() - i,
    {
        let ghost before = output@;
        let ghost done = views(items@).take(i as int);
        match items[i].encode_with(output, framing) {
            Ok(()) => {},
            Err(e) => {
                proof {
                    lemma_all_bytes_len::<T>(views(items@), i as int);
                }
                return Err(e);
            },
        }
        proof {
            assert(views(items@).take(i + 1) =~= done.push(items@[i as int]@));
            lemma_all_bytes_push::<T>(done, items@[i as int]@);
            assert(before + T::bytes(items@[i as int]@) =~= old(output)@ + (all_bytes::<T>(done)
                + T::bytes(items@[i as int]@)));
        }
        i = i + 1;
    }
    assert(views(items@).take(i as int) =~= views(items@));
    Ok(())
}

/// The sizes of all values, summed up.
pub fn size_all<T: Encode>(items: &Vec<T>) -> (n: u64)
    ensures
        n == saturate(all_bytes::<T>(views(items@)).len() as int),
{
    let mut n: u64 = 0;
    let mut i: usize = 0;
    assert(views(items@).take(0) =~= Seq::empty());
    while i < items.len()
        invariant
            i <= items@.len(),
            n == saturate(all_bytes::<T>(views(items@).take(i as int)).len() as int),
        decreases items@.len() - i,
    {
        let ghost done = views(items@).take(i as int);
        let m: u64 = items[i].size();
        proof {
            assert(views(items@).take(i + 1) =~= done.push(items@[i as int]@));
            lemma_all_bytes_push::<T>(done, items@[i as int]@);
        }
        n = add_size(n, m);
        i = i + 1;
    }
    assert(views(items@).take(i as int) =~= views(items@));
    n
}

/// A value that is written as a box of its own.
pub trait BoxCodec: Encode + Decode {
    /// The type of the box.
    spec fn box_type() -> u32;

    /// The body of the box.
    spec fn body(v: Self::V) -> Seq<u8>;

    /// Whether the byte form holds all of the value, so that decoding it
    /// gives the value back.
    spec fn canonical(v: Self::V) -> bool;

    /// The bytes of the value are a box of its type around its body, whose
    /// size field says eight more than the length of the body; the value can
    /// be written where that fits the field.
    proof fn lemma_box(v: Self::V)
        ensures
            Self::bytes(v) == box_bytes(Self::box_type(), Self::body(v)),
            Self::encodable(v) <==> fits(Self::body(v)),
    ;

    /// The value that the bytes of a value decode to: the value itself, but
    /// for the few values that share their bytes with another one, of which
    /// it is that other one.
    spec fn normal(v: Self::V) -> Self::V;

    /// A value and its normal form have the same body.
    proof fn lemma_normal(v: Self::V)
        ensures
            Self::body(Self::normal(v)) == Self::body(v),
    ;

    /// What of `canonical` does not show in whether the bytes of the value
    /// decode: that its texts hold no NUL character and that its arrays have
    /// their length.
    spec fn shaped(v: Self::V) -> bool;

    /// Where the bytes of such a value decode, decoding them gives back its
    /// normal form.
    proof fn lemma_decoded(v: Self::V)
        requires
            Self::shaped(v),
            fits(Self::body(v)),
            child::<Self>(Self::body(v)) is Ok,
        ensures
            Self::canonical(Self::normal(v)),
    ;

    /// The body of a value decodes to the value.
    proof fn lemma_round_trip(v: Self::V)
        requires
            Self::canonical(v),
            fits(Self::body(v)),
        ensures
            child::<Self>(Self::body(v)) == Ok::<Self::V, Error>(v),
    ;
}

/// A box in front of further boxes is told apart from them: it is the first
/// of the boxes, and the others follow.
pub proof fn lemma_split_first(box_type: u32, body: Seq<u8>, rest: Seq<u8>)
    requires
        fits(body),
    ensures
        split_boxes(box_bytes(box_type, body) + rest) == match split_boxes(rest) {
            Ok(others) => Ok::<Seq<RawBox>, Error>(seq![RawBox { box_type, body }] + others),
            Err(e) => Err::<Seq<RawBox>, Error>(e),
        },
{
    let input = box_bytes(box_type, body) + rest;
    let size = 8 + body.len();
    assert(u32_at(input, 0) == size);
    assert(u32_at(input, 4) == box_type);
    assert(input.skip(size as int) =~= rest);
    assert(input.subrange(8, size as int) =~= body);
}

/// What is selected from a box in front of others: the box, where it has the
/// type, and what is selected from the others.
pub broadcast proof fn lemma_select_first(first: RawBox, others: Seq<RawBox>, box_type: u32)
    ensures
        #[trigger] select(seq![first] + others, box_type) == if first.box_type == box_type {
            seq![first.body] + select(others, box_type)
        } else {
            select(others, box_type)
        },
{
    assert((seq![first] + others).drop_first() =~= others);
}

/// The view of a value that may be absent.
pub open spec fn option_view<T: View>(item: Option<T>) -> Option<T::V> {
    match item {
        Some(v) => Some(v@),
        None => None,
    }
}

/// Appends the bytes of a value that may be absent.
pub fn encode_option<T: Encode>(item: &Option<T>, output: &mut Vec<u8>, framing: Framing) -> (r:
    Result<(), Error>)
    ensures
        r is Ok <==> (item is Some ==> T::encodable(item->Some_0@)),
        r is Ok ==> final(output)@ == old(output)@ + option_bytes::<T>(option_view(*item)),
        r is Err ==> r == Err::<(), Error>(too_large()) && option_bytes::<T>(
            option_view(*item),
        ).len() > u32::MAX && old(output)@.is_prefix_of(final(output)@),
{
    match item {
        Some(v) => v.encode_with(output, framing),
        None => {
            assert(output@ + Seq::<u8>::empty() =~= output@);
            Ok(())
        },
    }
}

/// The size of a value that may be absent.
pub fn size_option<T: Encode>(item: &Option<T>) -> (n: u64)
    ensures
        n == saturate(option_bytes::<T>(option_view(*item)).len() as int),
{
    match item {
        Some(v) => v.size(),
        None => 0,
    }
}

/// A value in front of further boxes is the first of the boxes that they
/// are told apart into, and its body decodes to it.
pub proof fn lemma_child_first<T: BoxCodec>(v: T::V, rest: Seq<u8>)
    requires
        T::canonical(v),
        fits(T::body(v)),
    ensures
        T::bytes(v) == box_bytes(T::box_type(), T::body(v)),
        child::<T>(T::body(v)) == Ok::<T::V, Error>(v),
        split_boxes(T::bytes(v) + rest) == match split_boxes(rest) {
            Ok(others) => Ok::<Seq<RawBox>, Error>(
                seq![RawBox { box_type: T::box_type(), body: T::body(v) }] + others,
            ),
            Err(e) => Err::<Seq<RawBox>, Error>(e),
        },
{
    T::lemma_box(v);
    T::lemma_round_trip(v);
    lemma_split_first(T::box_type(), T::body(v), rest);
}

/// A value that may be absent, in front of further boxes, is the first of
/// the boxes where it is there, and changes nothing where it is not.
pub proof fn lemma_option_first<T: BoxCodec>(item: Option<T::V>, rest: Seq<u8>)
    requires
        item is Some ==> T::canonical(item->Some_0) && fits(T::body(item->Some_0)),
    ensures
        item is Some ==> child::<T>(T::body(item->Some_0)) == Ok::<T::V, Error>(item->Some_0),
        split_boxes(option_bytes::<T>(item) + rest) == match (item, split_boxes(rest)) {
            (Some(v), Ok(others)) => Ok::<Seq<RawBox>, Error>(
                seq![RawBox { box_type: T::box_type(), body: T::body(v) }] + others,
            ),
            (None, Ok(others)) => Ok::<Seq<RawBox>, Error>(others),
            (_, Err(e)) => Err::<Seq<RawBox>, Error>(e),
        },
{
    match item {
        Some(v) => {
            lemma_child_first::<T>(v, rest);
        },
        None => {
            assert(option_bytes::<T>(item) + rest =~= rest);
        },
    }
}

/// Appends the bytes of a child to a box that was begun after `before`.
pub(crate) fn put_child<T: Encode>(
    item: &T,
    output: &mut Vec<u8>,
    framing: Framing,
    Ghost(before): Ghost<Seq<u8>>,
) -> (r: Result<(), Error>)
    requires
        before.is_prefix_of(old(output)@),
    ensures
        r is Ok <==> T::encodable(item@),
        r is Ok ==> final(output)@ == old(output)@ + T::bytes(item@),
        r is Err ==> r == Err::<(), Error>(too_large()) && T::bytes(item@).len() > u32::MAX
            && before.is_prefix_of(final(output)@),
{
    item.encode_with(output, framing)
}

/// Appends the bytes of a child that may be absent to a box that was begun
/// after `before`.
pub(crate) fn put_optional_child<T: Encode>(
    item: &Option<T>,
    output: &mut Vec<u8>,
    framing: Framing,
    Ghost(before): Ghost<Seq<u8>>,
) -> (r: Result<(), Error>)
    requires
        before.is_prefix_of(old(output)@),
    ensures
        r is Ok <==> (item is Some ==> T::encodable(item->Some_0@)),
        r is Ok ==> final(output)@ == old(output)@ + option_bytes::<T>(option_view(*item)),
        r is Err ==> r == Err::<(), Error>(too_large()) && option_bytes::<T>(
            option_view(*item),
        ).len() > u32::MAX && before.is_prefix_of(final(output)@),
{
    encode_option(item, output, framing)
}

/// Appends the bytes of children of one type to a box that was begun after
/// `before`.
pub(crate) fn put_children<T: Encode>(
    items: &Vec<T>,
    output: &mut Vec<u8>,
    framing: Framing,
    Ghost(before): Ghost<Seq<u8>>,
) -> (r: Result<(), Error>)
    requires
        before.is_prefix_of(old(output)@),
    ensures
        r is Ok <==> forall|i: int| 0 <= i < items@.len() ==> T::encodable(#[trigger] items@[i]@),
        r is Ok ==> final(output)@ == old(output)@ + all_bytes::<T>(views(items@)),
        r is Err ==> r == Err::<(), Error>(too_large()) && all_bytes::<T>(views(items@)).len()
            > u32::MAX && before.is_prefix_of(final(output)@),
{
    encode_all(items, output, framing)
}

/// Parts that were appended one by one are the first of them in front of
/// the rest taken together.
pub proof fn lemma_nested(
    p: Seq<u8>,
    a: Seq<u8>,
    b: Seq<u8>,
    c: Seq<u8>,
    d: Seq<u8>,
    e: Seq<u8>,
    f: Seq<u8>,
    g: Seq<u8>,
)
    ensures
        p + a + b + c + d + e + f + g == p + (a + (b + (c + (d + (e + (f + g)))))),
{
    assert(p + a + b + c + d + e + f + g =~= p + (a + (b + (c + (d + (e + (f + g)))))));
}

/// Parts that were appended one by one are the first of them in front of
/// the rest taken together.
pub proof fn lemma_nested_2(p: Seq<u8>, a: Seq<u8>, b: Seq<u8>)
    ensures
        p + a + b == p + (a + b),
{
    assert(p + a + b =~= p + (a + b));
}

/// Parts that were appended one by one are the first of them in front of
/// the rest taken together.
pub proof fn lemma_nested_3(p: Seq<u8>, a: Seq<u8>, b: Seq<u8>, c: Seq<u8>)
    ensures
        p + a + b + c == p + (a + (b + c)),
{
    assert(p + a + b + c =~= p + (a + (b + c)));
}

/// Parts that were appended one by one are the first of them in front of
/// the rest taken together.
pub proof fn lemma_nested_4(p: Seq<u8>, a: Seq<u8>, b: Seq<u8>, c: Seq<u8>, d: Seq<u8>)
    ensures
        p + a + b + c + d == p + (a + (b + (c + d))),
{
    assert(p + a + b + c + d =~= p + (a + (b + (c + d))));
}

/// The boxes of a sequence of values, undecoded.
pub open spec fn raw_children<T: BoxCodec>(items: Seq<T::V>) -> Seq<RawBox> {
    Seq::new(items.len(), |i: int| RawBox { box_type: T::box_type(), body: T::body(items[i]) })
}

/// The bodies of the boxes of a sequence of values.
pub open spec fn bodies<T: BoxCodec>(items: Seq<T::V>) -> Seq<Seq<u8>> {
    Seq::new(items.len(), |i: int| T::body(items[i]))
}

/// Whether decoding the bytes of every value of a sequence gives the value
/// back, and every value can be written.
pub open spec fn all_canonical<T: BoxCodec>(items: Seq<T::V>) -> bool {
    forall|i: int| 0 <= i < items.len() ==> T::canonical(#[trigger] items[i]) && fits(T::body(items[i]))
}

/// Values in front of further boxes are the first of the boxes that they
/// are told apart into, in their order.
pub proof fn lemma_children_first<T: BoxCodec>(items: Seq<T::V>, rest: Seq<u8>)
    requires
        all_canonical::<T>(items),
    ensures
        split_boxes(all_bytes::<T>(items) + rest) == match split_boxes(rest) {
            Ok(others) => Ok::<Seq<RawBox>, Error>(raw_children::<T>(items) + others),
            Err(e) => Err::<Seq<RawBox>, Error>(e),
        },
    decreases items.len(),
{
    if items.len() == 0 {
        assert(all_bytes::<T>(items) + rest =~= rest);
        match split_boxes(rest) {
            Ok(others) => {
                assert(raw_children::<T>(items) + others =~= others);
            },
            Err(_) => {},
        }
    } else {
        let first = items[0];
        let tail = items.drop_first();
        assert(T::canonical(first) && fits(T::body(first)));
        assert(all_canonical::<T>(tail)) by {
            assert forall|i: int| 0 <= i < tail.len() implies T::canonical(#[trigger] tail[i])
                && fits(T::body(tail[i])) by {
                assert(tail[i] == items[i + 1]);
            }
        }
        lemma_children_first::<T>(tail, rest);
        lemma_child_first::<T>(first, all_bytes::<T>(tail) + rest);
        assert(all_bytes::<T>(items) + rest =~= T::bytes(first) + (all_bytes::<T>(tail) + rest));
        match split_boxes(rest) {
            Ok(others) => {
                let head = RawBox { box_type: T::box_type(), body: T::body(first) };
                assert(seq![head] + (raw_children::<T>(tail) + others) =~= raw_children::<T>(items)
                    + others);
            },
            Err(_) => {},
        }
    }
}

/// What is selected from the boxes of a sequence of values in front of
/// others: their bodies, where they have the type, and what is selected from
/// the others.
pub proof fn lemma_select_children<T: BoxCodec>(
    items: Seq<T::V>,
    others: Seq<RawBox>,
    box_type: u32,
)
    ensures
        select(raw_children::<T>(items) + others, box_type) == if box_type == T::box_type() {
            bodies::<T>(items) + select(others, box_type)
        } else {
            select(others, box_type)
        },
    decreases items.len(),
{
    let all = raw_children::<T>(items) + others;
    if items.len() == 0 {
        assert(all =~= others);
        assert(bodies::<T>(items) + select(others, box_type) =~= select(others, box_type));
    } else {
        let tail = items.drop_first();
        lemma_select_children::<T>(tail, others, box_type);
        assert(all.drop_first() =~= raw_children::<T>(tail) + others);
        assert(seq![T::body(items[0])] + (bodies::<T>(tail) + select(others, box_type))
            =~= bodies::<T>(items) + select(others, box_type));
    }
}

/// The bodies of a sequence of values decode to the values.
pub proof fn lemma_children_round_trip<T: BoxCodec>(items: Seq<T::V>)
    requires
        all_canonical::<T>(items),
    ensures
        children::<T>(bodies::<T>(items)) == Ok::<Seq<T::V>, Error>(items),
    decreases items.len(),
{
    if items.len() == 0 {
        assert(items =~= Seq::empty());
    } else {
        let tail = items.drop_first();
        assert(T::canonical(items[0]) && fits(T::body(items[0])));
        assert(all_canonical::<T>(tail)) by {
            assert forall|i: int| 0 <= i < tail.len() implies T::canonical(#[trigger] tail[i])
                && fits(T::body(tail[i])) by {
                assert(tail[i] == items[i + 1]);
            }
        }
        T::lemma_round_trip(items[0]);
        lemma_children_round_trip::<T>(tail);
        assert(bodies::<T>(items).drop_first() =~= bodies::<T>(tail));
        assert(seq![items[0]] + tail =~= items);
    }
}

/// Where all values of a sequence together can be written as the body of a
/// box, each of them can.
pub proof fn lemma_all_fit<T: BoxCodec>(items: Seq<T::V>)
    requires
        all_bytes::<T>(items).len() <= u32::MAX,
    ensures
        forall|i: int| 0 <= i < items.len() ==> fits(T::body(#[trigger] items[i])),
{
    assert forall|i: int| 0 <= i < items.len() implies fits(T::body(#[trigger] items[i])) by {
        lemma_all_bytes_len::<T>(items, i);
        T::lemma_box(items[i]);
    }
}

/// What is selected from boxes one after the other is what is selected from
/// the first of them, then what is selected from the others.
pub proof fn lemma_select_concat(first: Seq<RawBox>, others: Seq<RawBox>, box_type: u32)
    ensures
        select(first + others, box_type) == select(first, box_type) + select(others, box_type),
    decreases first.len(),
{
    if first.len() == 0 {
        assert(first + others =~= others);
        assert(select(first, box_type) + select(others, box_type) =~= select(others, box_type));
    } else {
        let tail = first.drop_first();
        lemma_select_concat(tail, others, box_type);
        assert((first + others).drop_first() =~= tail + others);
        assert(seq![first[0].body] + (select(tail, box_type) + select(others, box_type))
            =~= seq![first[0].body] + select(tail, box_type) + select(others, box_type));
    }
}

/// The normal forms of a sequence of values.
pub open spec fn normals<T: BoxCodec>(items: Seq<T::V>) -> Seq<T::V> {
    Seq::new(items.len(), |i: int| T::normal(items[i]))
}

/// A value and its normal form have the same bytes, and the one can be
/// written where the other can.
pub proof fn lemma_normal_bytes<T: BoxCodec>(v: T::V)
    ensures
        T::bytes(T::normal(v)) == T::bytes(v),
        T::encodable(T::normal(v)) == T::encodable(v),
{
    T::lemma_normal(v);
    T::lemma_box(v);
    T::lemma_box(T::normal(v));
}

/// A sequence of values and their normal forms have the same bytes.
pub proof fn lemma_normals_bytes<T: BoxCodec>(items: Seq<T::V>)
    ensures
        all_bytes::<T>(normals::<T>(items)) == all_bytes::<T>(items),
    decreases items.len(),
{
    if items.len() > 0 {
        lemma_normal_bytes::<T>(items[0]);
        lemma_normals_bytes::<T>(items.drop_first());
        assert(normals::<T>(items).drop_first() =~= normals::<T>(items.drop_first()));
    }
}

/// Decoding the body of a value gives its normal form, which has the same
/// bytes: what was encoded, decoded and encoded again is what was encoded.
pub proof fn lemma_reencode<T: BoxCodec>(v: T::V)
    requires
        T::canonical(T::normal(v)),
        fits(T::body(v)),
    ensures
        child::<T>(T::body(v)) == Ok::<T::V, Error>(T::normal(v)),
        T::bytes(T::normal(v)) == T::bytes(v),
{
    lemma_normal_bytes::<T>(v);
    T::lemma_normal(v);
    T::lemma_round_trip(T::normal(v));
}

/// A value in front of further boxes is the first of the boxes that they
/// are told apart into.
pub proof fn lemma_child_split<T: BoxCodec>(v: T::V, rest: Seq<u8>)
    requires
        fits(T::body(v)),
    ensures
        T::bytes(v) == box_bytes(T::box_type(), T::body(v)),
        split_boxes(T::bytes(v) + rest) == match split_boxes(rest) {
            Ok(others) => Ok::<Seq<RawBox>, Error>(
                seq![RawBox { box_type: T::box_type(), body: T::body(v) }] + others,
            ),
            Err(e) => Err::<Seq<RawBox>, Error>(e),
        },
{
    T::lemma_box(v);
    lemma_split_first(T::box_type(), T::body(v), rest);
}

/// A value that may be absent, in front of further boxes, is the first of
/// the boxes where it is there, and changes nothing where it is not.
pub proof fn lemma_option_split<T: BoxCodec>(item: Option<T::V>, rest: Seq<u8>)
    requires
        item is Some ==> fits(T::body(item->Some_0)),
    ensures
        split_boxes(option_bytes::<T>(item) + rest) == match (item, split_boxes(rest)) {
            (Some(v), Ok(others)) => Ok::<Seq<RawBox>, Error>(
                seq![RawBox { box_type: T::box_type(), body: T::body(v) }] + others,
            ),
            (None, Ok(others)) => Ok::<Seq<RawBox>, Error>(others),
            (_, Err(e)) => Err::<Seq<RawBox>, Error>(e),
        },
{
    match item {
        Some(v) => {
            lemma_child_split::<T>(v, rest);
        },
        None => {
            assert(option_bytes::<T>(item) + rest =~= rest);
        },
    }
}

/// Values in front of further boxes are the first of the boxes that they
/// are told apart into, in their order.
pub proof fn lemma_children_split<T: BoxCodec>(items: Seq<T::V>, rest: Seq<u8>)
    requires
        forall|i: int| 0 <= i < items.len() ==> fits(T::body(#[trigger] items[i])),
    ensures
        split_boxes(all_bytes::<T>(items) + rest) == match split_boxes(rest) {
            Ok(others) => Ok::<Seq<RawBox>, Error>(raw_children::<T>(items) + others),
            Err(e) => Err::<Seq<RawBox>, Error>(e),
        },
    decreases items.len(),
{
    if items.len() == 0 {
        assert(all_bytes::<T>(items) + rest =~= rest);
        match split_boxes(rest) {
            Ok(others) => {
                assert(raw_children::<T>(items) + others =~= others);
            },
            Err(_) => {},
        }
    } else {
        let first = items[0];
        let tail = items.drop_first();
        assert(fits(T::body(first)));
        assert forall|i: int| 0 <= i < tail.len() implies fits(T::body(#[trigger] tail[i])) by {
            assert(tail[i] == items[i + 1]);
        }
        lemma_children_split::<T>(tail, rest);
        lemma_child_split::<T>(first, all_bytes::<T>(tail) + rest);
        assert(all_bytes::<T>(items) + rest =~= T::bytes(first) + (all_bytes::<T>(tail) + rest));
        match split_boxes(rest) {
            Ok(others) => {
                let head = RawBox { box_type: T::box_type(), body: T::body(first) };
                assert(seq![head] + (raw_children::<T>(tail) + others) =~= raw_children::<T>(items)
                    + others);
            },
            Err(_) => {},
        }
    }
}

/// Where the bodies of a sequence of values decode, the body of each does,
/// and there are as many decoded values as values.
pub proof fn lemma_children_decoded<T: BoxCodec>(items: Seq<T::V>)
    requires
        children::<T>(bodies::<T>(items)) is Ok,
    ensures
        children::<T>(bodies::<T>(items))->Ok_0.len() == items.len(),
        forall|i: int| 0 <= i < items.len() ==> child::<T>(T::body(#[trigger] items[i])) is Ok,
    decreases items.len(),
{
    if items.len() > 0 {
        let tail = items.drop_first();
        assert(bodies::<T>(items).drop_first() =~= bodies::<T>(tail));
        assert(bodies::<T>(items)[0] == T::body(items[0]));
        lemma_children_decoded::<T>(tail);
        assert forall|i: int| 0 <= i < items.len() implies child::<T>(
            T::body(#[trigger] items[i]),
        ) is Ok by {
            if i > 0 {
                assert(items[i] == tail[i - 1]);
            }
        }
    }
}

} // verus!
