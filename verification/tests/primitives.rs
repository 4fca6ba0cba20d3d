use mp4::bytes::{Decode, Encode};
use mp4::error::{Error, IoError};
use mp4::fixed_point::{U16F16, U2F30, U8F8};
use mp4::fourcc::{FourCC, Language, MOOV};
use mp4::matrix::Matrix;

fn encoded<T: Encode>(value: &T) -> Vec<u8> {
    let mut out = Vec::new();
    value.encode(&mut out).unwrap();
    out
}

#[test]
fn u16_is_written_big_endian() {
    assert_eq!(encoded(&0x0102u16), vec![1, 2]);
    assert_eq!(0x0102u16.size(), 2);
}

#[test]
fn u32_is_written_big_endian() {
    assert_eq!(encoded(&0x0102_0304u32), vec![1, 2, 3, 4]);
    assert_eq!(0x0102_0304u32.size(), 4);
}

#[test]
fn u64_is_written_big_endian() {
    assert_eq!(encoded(&0x0102_0304_0506_0708u64), vec![1, 2, 3, 4, 5, 6, 7, 8]);
    assert_eq!(0u64.size(), 8);
}

#[test]
fn integers_are_read_back_and_the_cursor_moves() {
    let bytes = [0xde, 0xad, 0xbe, 0xef, 0x00, 0x2a, 1, 2, 3, 4, 5, 6, 7, 8, 9];
    let mut input: &[u8] = &bytes;
    assert_eq!(u32::decode(&mut input).unwrap(), 0xdead_beef);
    assert_eq!(input.len(), 11);
    assert_eq!(u16::decode(&mut input).unwrap(), 42);
    assert_eq!(input.len(), 9);
    assert_eq!(u64::decode(&mut input).unwrap(), 0x0102_0304_0506_0708);
    assert_eq!(input, &[9u8][..]);
}

#[test]
fn a_short_buffer_is_an_io_error_and_stays_as_it_was() {
    let bytes = [1u8, 2, 3];
    let mut input: &[u8] = &bytes;
    assert_eq!(u32::decode(&mut input), Err(Error::Io(IoError::UnexpectedEof)));
    assert_eq!(input.len(), 3);
    assert_eq!(u64::decode(&mut input), Err(Error::Io(IoError::UnexpectedEof)));
    let mut one: &[u8] = &bytes[..1];
    assert_eq!(u16::decode(&mut one), Err(Error::Io(IoError::UnexpectedEof)));
    assert_eq!(Matrix::decode(&mut input), Err(Error::Io(IoError::UnexpectedEof)));
    assert_eq!(U16F16::decode(&mut input), Err(Error::Io(IoError::UnexpectedEof)));
}

#[test]
fn fixed_point_bits_round_trip() {
    let one = U16F16::from_bits(0x0001_0000);
    assert_eq!(one.to_bits(), 0x0001_0000);
    assert_eq!(one.int_part(), 1);
    assert_eq!(one.fraction_bits(), 0);
    assert_eq!(U16F16::from_int(1), Some(one));

    let one = U8F8::from_bits(0x0100);
    assert_eq!(one.to_bits(), 0x0100);
    assert_eq!(one.int_part(), 1);
    assert_eq!(U8F8::from_int(1), Some(one));

    let one = U2F30::from_bits(0x4000_0000);
    assert_eq!(one.to_bits(), 0x4000_0000);
    assert_eq!(one.int_part(), 1);
    assert_eq!(U2F30::from_int(1), Some(one));

    for bits in [0u32, 1, 0x8000, 0xffff_ffff, 0x1234_5678] {
        assert_eq!(U16F16::from_bits(bits).to_bits(), bits);
        assert_eq!(U2F30::from_bits(bits).to_bits(), bits);
    }
    for bits in [0u16, 1, 0x80, 0xffff, 0x1234] {
        assert_eq!(U8F8::from_bits(bits).to_bits(), bits);
    }
}

#[test]
fn fixed_point_parts() {
    let x = U16F16::from_bits(0x0048_8000);
    assert_eq!(x.int_part(), 72);
    assert_eq!(x.fraction_bits(), 0x8000);
    assert_eq!(U16F16::from_int(72).unwrap().to_bits(), 0x0048_0000);
    assert_eq!(U16F16::from_int(0xffff).unwrap().to_bits(), 0xffff_0000);
    assert_eq!(U8F8::from_int(255).unwrap().to_bits(), 0xff00);
    assert_eq!(U2F30::from_int(3).unwrap().to_bits(), 0xc000_0000);
    assert_eq!(U2F30::from_int(4), None);
    assert_eq!(U8F8::from_int(256), None);
    assert_eq!(U16F16::from_int(0x1_0000), None);
    assert_eq!(U16F16::from_int(u32::MAX), None);
}

#[test]
fn fixed_point_is_written_as_its_bits() {
    assert_eq!(encoded(&U16F16::from_bits(0x0001_0000)), vec![0, 1, 0, 0]);
    assert_eq!(encoded(&U8F8::from_bits(0x0100)), vec![1, 0]);
    assert_eq!(encoded(&U2F30::from_bits(0x4000_0000)), vec![0x40, 0, 0, 0]);
    let mut input: &[u8] = &[0x40, 0, 0, 0, 1, 0, 0, 1, 0, 0];
    assert_eq!(U2F30::decode(&mut input).unwrap().to_bits(), 0x4000_0000);
    assert_eq!(U8F8::decode(&mut input).unwrap().to_bits(), 0x0100);
    assert_eq!(U16F16::decode(&mut input).unwrap().to_bits(), 0x0001_0000);
    assert!(input.is_empty());
}

#[test]
fn language_codes_are_packed_five_bits_a_letter() {
    let eng = Language::from_code(*b"eng").unwrap();
    assert_eq!(eng.0, (5 << 10) | (14 << 5) | 7);
    assert_eq!(eng.0, 0x15c7);
    assert_eq!(&eng.code(), b"eng");

    let aaa = Language::from_code(*b"aaa").unwrap();
    assert_eq!(aaa.0, (1 << 10) | (1 << 5) | 1);
    assert_eq!(&aaa.code(), b"aaa");

    let zzz = Language::from_code(*b"zzz").unwrap();
    assert_eq!(zzz.0, (26 << 10) | (26 << 5) | 26);
    assert_eq!(&zzz.code(), b"zzz");

    let und = Language::from_code(*b"und").unwrap();
    assert_eq!(und.0, 0x55c4);
    assert_eq!(&und.code(), b"und");
}

#[test]
fn language_codes_of_other_characters_are_refused() {
    assert_eq!(Language::from_code(*b"EnG"), None);
    assert_eq!(Language::from_code(*b"e g"), None);
    assert_eq!(Language::from_code(*b"en{"), None);
    assert_eq!(Language::from_code(*b"`ng"), None);
    assert_eq!(&Language(0).code(), b"```");
}

#[test]
fn fourcc_is_its_four_bytes() {
    let moov = FourCC::from_bytes(*b"moov");
    assert_eq!(moov, FourCC(MOOV));
    assert_eq!(moov.0, 0x6d6f_6f76);
    assert_eq!(&moov.to_bytes(), b"moov");
    assert_ne!(FourCC::from_bytes(*b"moov"), FourCC::from_bytes(*b"moof"));
}

#[test]
fn identity_matrix() {
    let m = Matrix::identity();
    assert_eq!(m.a.to_bits(), 0x0001_0000);
    assert_eq!(m.d.to_bits(), 0x0001_0000);
    assert_eq!(m.w.to_bits(), 0x4000_0000);
    for zero in [m.b, m.c, m.x, m.y] {
        assert_eq!(zero.to_bits(), 0);
    }
    for zero in [m.u, m.v] {
        assert_eq!(zero.to_bits(), 0);
    }
    let bytes = encoded(&m);
    assert_eq!(bytes.len(), 36);
    assert_eq!(m.size(), 36);
    assert_eq!(&bytes[0..4], &[0, 1, 0, 0]);
    assert_eq!(&bytes[16..20], &[0, 1, 0, 0]);
    assert_eq!(&bytes[32..36], &[0x40, 0, 0, 0]);
    let mut input: &[u8] = &bytes;
    assert_eq!(Matrix::decode(&mut input).unwrap(), m);
    assert!(input.is_empty());
}

#[test]
fn matrix_rows_are_written_in_order() {
    let m = Matrix {
        a: U16F16::from_bits(1),
        b: U16F16::from_bits(2),
        u: U2F30::from_bits(3),
        c: U16F16::from_bits(4),
        d: U16F16::from_bits(5),
        v: U2F30::from_bits(6),
        x: U16F16::from_bits(7),
        y: U16F16::from_bits(8),
        w: U2F30::from_bits(9),
    };
    let bytes = encoded(&m);
    for i in 0..9 {
        assert_eq!(&bytes[4 * i..4 * i + 4], &[0, 0, 0, i as u8 + 1]);
    }
    let mut input: &[u8] = &bytes;
    assert_eq!(Matrix::decode(&mut input).unwrap(), m);
}

#[test]
fn a_text_is_written_with_a_terminator() {
    assert_eq!(encoded(&"VideoHandler".to_string()), b"VideoHandler\0".to_vec());
    assert_eq!("VideoHandler".to_string().size(), 13);
    assert_eq!(encoded(&"é".to_string()), vec![0xc3, 0xa9, 0]);
    assert_eq!("é".to_string().size(), 3);
}

#[test]
fn the_empty_text_is_written_as_nothing() {
    assert_eq!(encoded(&String::new()), Vec::<u8>::new());
    assert_eq!(String::new().size(), 0);
    let mut input: &[u8] = &[];
    assert_eq!(String::decode(&mut input).unwrap(), "");
}

#[test]
fn a_text_is_read_up_to_its_terminator_which_is_taken() {
    let mut input: &[u8] = b"abc\0def\0";
    assert_eq!(String::decode(&mut input).unwrap(), "abc");
    assert_eq!(input, b"def\0");
    assert_eq!(String::decode(&mut input).unwrap(), "def");
    assert!(input.is_empty());
}

#[test]
fn a_terminator_alone_is_the_empty_text() {
    let mut input: &[u8] = b"\0x";
    assert_eq!(String::decode(&mut input).unwrap(), "");
    assert_eq!(input, b"x");
}

#[test]
fn a_text_without_terminator_goes_to_the_end_of_the_input() {
    let mut input: &[u8] = b"abc";
    assert_eq!(String::decode(&mut input).unwrap(), "abc");
    assert!(input.is_empty());
    let mut input: &[u8] = "é".as_bytes();
    assert_eq!(String::decode(&mut input).unwrap(), "é");
    assert!(input.is_empty());
    let mut input: &[u8] = &[b'a', 0xff];
    assert_eq!(String::decode(&mut input), Err(Error::Io(IoError::InvalidData)));
    assert_eq!(input.len(), 2);
}

#[test]
fn a_text_that_is_not_utf8_is_malformed() {
    let mut input: &[u8] = &[0xff, 0xfe, 0];
    assert_eq!(String::decode(&mut input), Err(Error::Io(IoError::InvalidData)));
    assert_eq!(input.len(), 3);
}

#[test]
fn a_text_with_a_nul_inside_does_not_round_trip() {
    let text = "a\0b".to_string();
    let bytes = encoded(&text);
    assert_eq!(bytes, b"a\0b\0".to_vec());
    let mut input: &[u8] = &bytes;
    assert_eq!(String::decode(&mut input).unwrap(), "a");
}

#[test]
fn error_messages() {
    assert_eq!(Error::Io(IoError::UnexpectedEof).message(), "IO error");
    let e = Error::InvalidBoxQuantity { box_type: FourCC(MOOV), quantity: 2, expected: 1 };
    assert_eq!(e.message(), "Invalid box quantity");
}
