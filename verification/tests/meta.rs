use mp4::bytes::{Decode, Encode};
use mp4::error::{Error, IoError};
use mp4::fourcc::FourCC;
use mp4::media::HandlerBox;
use mp4::meta::{ItemLocationBox, ItemLocationEntry, ItemLocationEntryExtent, MetaBox};

fn decode<T: Decode>(body: &[u8]) -> Result<T, Error> {
    let mut input: &[u8] = body;
    T::decode(&mut input)
}

fn handler() -> HandlerBox {
    HandlerBox { handler_type: FourCC::from_bytes(*b"pict"), name: "items".to_string() }
}

#[test]
fn item_locations_with_fields_of_four_and_eight_bytes() {
    let mut body = vec![0u8, 0, 0, 0, 0x84, 0x04, 0, 2];
    body.extend_from_slice(&[0, 1, 0, 0]);
    body.extend_from_slice(&100u32.to_be_bytes());
    body.extend_from_slice(&[0, 2]);
    body.extend_from_slice(&7u32.to_be_bytes());
    body.extend_from_slice(&0x1_0000_0000u64.to_be_bytes());
    body.extend_from_slice(&8u32.to_be_bytes());
    body.extend_from_slice(&9u64.to_be_bytes());
    body.extend_from_slice(&[0, 2, 0, 1]);
    body.extend_from_slice(&200u32.to_be_bytes());
    body.extend_from_slice(&[0, 0]);
    body.extend_from_slice(&[0xaa]);
    let mut input: &[u8] = &body;
    let decoded = ItemLocationBox::decode(&mut input).unwrap();
    assert_eq!(input, &[0xaau8][..]);
    assert_eq!(
        decoded,
        ItemLocationBox(vec![
            ItemLocationEntry {
                item_id: 1,
                data_reference_index: 0,
                base_offset: 100,
                extents: vec![
                    ItemLocationEntryExtent { extent_offset: 7, extent_length: 0x1_0000_0000 },
                    ItemLocationEntryExtent { extent_offset: 8, extent_length: 9 },
                ],
            },
            ItemLocationEntry { item_id: 2, data_reference_index: 1, base_offset: 200, extents: vec![] },
        ])
    );
}

#[test]
fn item_locations_with_fields_of_no_bytes() {
    let body = [0u8, 0, 0, 0, 0, 0, 0, 1, 0, 5, 0, 6, 0, 3];
    let decoded = decode::<ItemLocationBox>(&body).unwrap();
    let none = ItemLocationEntryExtent { extent_offset: 0, extent_length: 0 };
    assert_eq!(
        decoded,
        ItemLocationBox(vec![ItemLocationEntry {
            item_id: 5,
            data_reference_index: 6,
            base_offset: 0,
            extents: vec![none, none, none],
        }])
    );
    assert_eq!(decode::<ItemLocationBox>(&[0, 0, 0, 0, 0x33, 0x03, 0, 0]), Ok(ItemLocationBox(vec![])));
}

#[test]
fn item_location_faults() {
    assert_eq!(decode::<ItemLocationBox>(&[0, 0, 0]), Err(Error::Io(IoError::UnexpectedEof)));
    assert_eq!(decode::<ItemLocationBox>(&[0, 0, 0, 0, 0, 0, 0]), Err(Error::Io(IoError::UnexpectedEof)));
    assert_eq!(
        decode::<ItemLocationBox>(&[1, 0, 0, 0, 0, 0, 0, 0]),
        Err(Error::Io(IoError::InvalidData))
    );
    assert_eq!(
        decode::<ItemLocationBox>(&[0, 0, 0, 0, 0, 0, 0, 1, 0, 1, 0]),
        Err(Error::Io(IoError::UnexpectedEof))
    );
    assert_eq!(
        decode::<ItemLocationBox>(&[0, 0, 0, 0, 0, 3, 0, 1, 0, 1, 0, 0, 0, 0, 0, 0, 0]),
        Err(Error::Io(IoError::InvalidData))
    );
    assert_eq!(
        decode::<ItemLocationBox>(&[0, 0, 0, 0, 0, 4, 0, 1, 0, 1, 0, 0, 0, 0, 0]),
        Err(Error::Io(IoError::UnexpectedEof))
    );
    assert_eq!(
        decode::<ItemLocationBox>(&[0, 0, 0, 0, 0, 0, 0, 1, 0, 1, 0, 0, 0]),
        Err(Error::Io(IoError::UnexpectedEof))
    );
    assert_eq!(
        decode::<ItemLocationBox>(&[0, 0, 0, 0, 0x02, 0, 0, 1, 0, 1, 0, 0, 0, 1, 9, 9]),
        Err(Error::Io(IoError::InvalidData))
    );
    assert_eq!(
        decode::<ItemLocationBox>(&[0, 0, 0, 0, 0x80, 0, 0, 1, 0, 1, 0, 0, 0, 1, 9, 9]),
        Err(Error::Io(IoError::UnexpectedEof))
    );
}

#[test]
fn item_locations_are_written_without_their_items() {
    let value = ItemLocationBox(vec![ItemLocationEntry {
        item_id: 1,
        data_reference_index: 0,
        base_offset: 0,
        extents: vec![],
    }]);
    let mut out = Vec::new();
    value.encode(&mut out).unwrap();
    assert_eq!(out, vec![0, 0, 0, 12, b'i', b'l', b'o', b'c', 0, 0, 0, 0]);
    assert_eq!(value.size(), 12);
    let mut sized = Vec::new();
    value.encode_sized(&mut sized).unwrap();
    assert_eq!(sized, out);
    assert_eq!(decode::<ItemLocationBox>(&out[8..]), Err(Error::Io(IoError::UnexpectedEof)));
}

#[test]
fn meta_round_trip() {
    let value = MetaBox { handler: handler(), item_location: None };
    let mut bytes = Vec::new();
    value.encode(&mut bytes).unwrap();
    assert_eq!(bytes.len() as u64, value.size());
    assert_eq!(&bytes[..12], &[0, 0, 0, 50, b'm', b'e', b't', b'a', 0, 0, 0, 0]);
    assert_eq!(&bytes[16..20], b"hdlr");
    let mut sized = Vec::new();
    value.encode_sized(&mut sized).unwrap();
    assert_eq!(sized, bytes);
    assert_eq!(decode::<MetaBox>(&bytes[8..]), Ok(value));
}

#[test]
fn meta_with_item_locations() {
    let mut body = vec![0u8, 0, 0, 0];
    body.extend_from_slice(&[0, 0, 0, 16, b'i', b'l', b'o', b'c', 0, 0, 0, 0, 0, 0, 0, 0]);
    body.extend_from_slice(&[0, 0, 0, 9, b'x', b'x', b'x', b'x', 1]);
    let mut h = Vec::new();
    handler().encode(&mut h).unwrap();
    body.extend_from_slice(&h);
    assert_eq!(
        decode::<MetaBox>(&body),
        Ok(MetaBox { handler: handler(), item_location: Some(ItemLocationBox(vec![])) })
    );
}

#[test]
fn meta_faults() {
    let quantity = |tag: &[u8; 4], quantity: usize| Error::InvalidBoxQuantity {
        box_type: FourCC::from_bytes(*tag),
        quantity,
        expected: 1,
    };
    assert_eq!(decode::<MetaBox>(&[0, 0]), Err(Error::Io(IoError::UnexpectedEof)));
    assert_eq!(decode::<MetaBox>(&[3, 0, 0, 0]), Err(Error::Io(IoError::InvalidData)));
    assert_eq!(decode::<MetaBox>(&[0, 0, 0, 0]), Err(quantity(b"hdlr", 0)));
    let mut h = Vec::new();
    handler().encode(&mut h).unwrap();
    let iloc = [0u8, 0, 0, 16, b'i', b'l', b'o', b'c', 0, 0, 0, 0, 0, 0, 0, 0];
    let body = [&[0u8, 0, 0, 0][..], &h, &h].concat();
    assert_eq!(decode::<MetaBox>(&body), Err(quantity(b"hdlr", 2)));
    let body = [&[0u8, 0, 0, 0][..], &h, &iloc, &iloc].concat();
    assert_eq!(decode::<MetaBox>(&body), Err(quantity(b"iloc", 2)));
    let body = [&[0u8, 0, 0, 0][..], &h, &iloc[..15]].concat();
    assert_eq!(decode::<MetaBox>(&body), Err(Error::Io(IoError::UnexpectedEof)));
}
