//! What holds of the codec as a whole: that decoding gives back what was
//! encoded, that every box says its own size, and that a parent insists on
//! the number of its children.

use vstd::prelude::*;

use crate::bytes::{group_big_endian, u32_at, Decode, Encode};
use crate::error::{bad_quantity, Error};
use crate::file::{File, FileView};
use crate::fourcc::{MVHD, TRAK};
use crate::framing::{
    box_bytes, child, fits, lemma_reencode, lemma_select_concat, lemma_select_first, multiple,
    optional, required, select, split_boxes, BoxCodec, RawBox,
};
use crate::movie::{MovieBox, MovieHeaderBox};
use crate::track::TrackBox;

verus! {

broadcast use group_big_endian;

/// An integer that was written is read back, and its bytes are all that is
/// taken.
pub proof fn law_integer_round_trip(a: u16, b: u32, c: u64)
    ensures
        u16::parse(u16::bytes(a)) == Ok::<(u16, int), Error>((a, 2)),
        u32::parse(u32::bytes(b)) == Ok::<(u32, int), Error>((b, 4)),
        u64::parse(u64::bytes(c)) == Ok::<(u64, int), Error>((c, 8)),
{
}

/// Decoding the body of a box that was encoded gives back the value that was
/// encoded, for every type of box; and encoding what was decoded gives back
/// the bytes.
pub proof fn law_box_round_trip<T: BoxCodec>(v: T::V)
    requires
        T::canonical(v),
        T::encodable(v),
    ensures
        child::<T>(T::body(v)) == Ok::<T::V, Error>(v),
        child::<T>(T::body(v)) matches Ok(w) && T::bytes(w) == T::bytes(v),
{
    T::lemma_box(v);
    T::lemma_round_trip(v);
}

/// The size field of a box says eight more than the length of its body,
/// which is the length of the whole box; and behind it stands the type. A
/// box can be written exactly where that length fits the field.
pub proof fn law_box_size<T: BoxCodec>(v: T::V)
    ensures
        T::bytes(v) == box_bytes(T::box_type(), T::body(v)),
        T::bytes(v).len() == 8 + T::body(v).len(),
        T::encodable(v) <==> T::bytes(v).len() <= u32::MAX,
        T::encodable(v) ==> u32_at(T::bytes(v), 0) == T::bytes(v).len() && u32_at(T::bytes(v), 4)
            == T::box_type(),
{
    T::lemma_box(v);
}

/// Decoding the bytes of a file that was encoded gives back the file, and
/// encoding what was decoded gives back the bytes.
pub proof fn law_file_round_trip(v: FileView)
    requires
        File::canonical(v),
        File::encodable(v),
    ensures
        File::parse(File::bytes(v)) == Ok::<(FileView, int), Error>(
            (v, File::bytes(v).len() as int),
        ),
        File::parse(File::bytes(v)) matches Ok((w, _)) && File::bytes(w) == File::bytes(v),
{
    File::lemma_round_trip(v);
}

/// What was encoded, decoded and encoded again is what was encoded, for
/// every type of box: decoding the body of a value gives its normal form,
/// which is the value itself or a value with the same bytes.
pub proof fn law_box_reencode<T: BoxCodec>(v: T::V)
    requires
        T::canonical(T::normal(v)),
        T::encodable(v),
    ensures
        child::<T>(T::body(v)) == Ok::<T::V, Error>(T::normal(v)),
        child::<T>(T::body(v)) matches Ok(w) && T::bytes(w) == T::bytes(v),
{
    T::lemma_box(v);
    lemma_reencode::<T>(v);
}

/// The bytes of a file that was encoded decode to a file that is encoded to
/// the same bytes: to the normal form of the file, which is the file itself
/// or one with the same bytes.
pub proof fn law_file_reencode(v: FileView)
    requires
        File::canonical(File::normal(v)),
        File::encodable(v),
    ensures
        File::parse(File::bytes(v)) == Ok::<(FileView, int), Error>(
            (File::normal(v), File::bytes(v).len() as int),
        ),
        File::parse(File::bytes(v)) matches Ok((w, _)) && File::bytes(w) == File::bytes(v),
{
    File::lemma_normal(v);
    File::lemma_round_trip(File::normal(v));
}

/// Where the body of a box that was encoded decodes, it decodes to a value
/// that is encoded to the same bytes, for every type of box and every value
/// whose texts hold no NUL character and whose arrays have their length.
pub proof fn law_box_decoded<T: BoxCodec>(v: T::V)
    requires
        T::shaped(v),
        T::encodable(v),
        child::<T>(T::body(v)) is Ok,
    ensures
        child::<T>(T::body(v)) == Ok::<T::V, Error>(T::normal(v)),
        child::<T>(T::body(v)) matches Ok(w) && T::bytes(w) == T::bytes(v),
{
    T::lemma_box(v);
    T::lemma_decoded(v);
    lemma_reencode::<T>(v);
}

/// Where the bytes of a file that was encoded decode, they decode to a file
/// that is encoded to the same bytes, for every file whose texts hold no NUL
/// character and whose arrays have their length.
pub proof fn law_file_decoded(v: FileView)
    requires
        File::shaped(v),
        File::encodable(v),
        File::parse(File::bytes(v)) is Ok,
    ensures
        File::parse(File::bytes(v)) == Ok::<(FileView, int), Error>(
            (File::normal(v), File::bytes(v).len() as int),
        ),
        File::parse(File::bytes(v)) matches Ok((w, _)) && File::bytes(w) == File::bytes(v),
{
    File::lemma_decoded(v);
    law_file_reencode(v);
}

/// A child that must occur once and does not occur is a wrong quantity of
/// zero.
pub proof fn law_required_missing<T: Decode>(boxes: Seq<RawBox>, box_type: u32)
    requires
        select(boxes, box_type).len() == 0,
    ensures
        required::<T>(boxes, box_type) == Err::<T::V, Error>(bad_quantity(box_type, 0, 1)),
        optional::<T>(boxes, box_type) == Ok::<Option<T::V>, Error>(None),
        multiple::<T>(boxes, box_type) == Ok::<Seq<T::V>, Error>(Seq::empty()),
{
}

/// A child that may occur at most once and occurs again, behind a first one
/// that decodes, is a wrong quantity of two.
pub proof fn law_repeated<T: Decode>(boxes: Seq<RawBox>, box_type: u32)
    requires
        select(boxes, box_type).len() >= 2,
        child::<T>(select(boxes, box_type)[0]) is Ok,
    ensures
        required::<T>(boxes, box_type) == Err::<T::V, Error>(bad_quantity(box_type, 2, 1)),
        optional::<T>(boxes, box_type) == Err::<Option<T::V>, Error>(
            bad_quantity(box_type, 2, 1),
        ),
{
}

/// A box of another type changes nothing in what is found of a type,
/// wherever among the boxes it stands.
pub proof fn law_other_type_ignored<T: Decode>(
    before: Seq<RawBox>,
    other: RawBox,
    after: Seq<RawBox>,
    box_type: u32,
)
    requires
        other.box_type != box_type,
    ensures
        select(before + seq![other] + after, box_type) == select(before + after, box_type),
        required::<T>(before + seq![other] + after, box_type) == required::<T>(
            before + after,
            box_type,
        ),
        optional::<T>(before + seq![other] + after, box_type) == optional::<T>(
            before + after,
            box_type,
        ),
        multiple::<T>(before + seq![other] + after, box_type) == multiple::<T>(
            before + after,
            box_type,
        ),
{
    let none = Seq::<RawBox>::empty();
    lemma_select_concat(before + seq![other], after, box_type);
    lemma_select_concat(before, seq![other], box_type);
    lemma_select_concat(before, after, box_type);
    lemma_select_first(other, none, box_type);
    assert(seq![other] + none =~= seq![other]);
    assert(select(none, box_type) =~= Seq::<Seq<u8>>::empty());
    assert(select(before, box_type) + Seq::<Seq<u8>>::empty() =~= select(before, box_type));
}

/// A movie whose header decodes and that holds no track is refused for the
/// track that must be there.
pub proof fn law_movie_needs_track(input: Seq<u8>)
    requires
        split_boxes(input) is Ok,
        required::<MovieHeaderBox>(split_boxes(input)->Ok_0, MVHD) is Ok,
        select(split_boxes(input)->Ok_0, TRAK).len() == 0,
    ensures
        MovieBox::parse(input) == Err::<(<MovieBox as View>::V, int), Error>(
            bad_quantity(TRAK, 0, 1),
        ),
{
    law_required_missing::<TrackBox>(split_boxes(input)->Ok_0, TRAK);
}

/// A movie that holds a second header behind a first one that decodes is
/// refused for the header that occurs twice.
pub proof fn law_movie_one_header(input: Seq<u8>)
    requires
        split_boxes(input) is Ok,
        select(split_boxes(input)->Ok_0, MVHD).len() >= 2,
        child::<MovieHeaderBox>(select(split_boxes(input)->Ok_0, MVHD)[0]) is Ok,
    ensures
        MovieBox::parse(input) == Err::<(<MovieBox as View>::V, int), Error>(
            bad_quantity(MVHD, 2, 1),
        ),
{
}

} // verus!
