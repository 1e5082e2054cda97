use smoldata::varint::{
    is_varint_better, read_signed_varint, read_unsigned_varint, read_unsigned_varint_bits_le,
    read_varint_with_sign, write_signed_varint, write_unsigned_varint, write_varint_with_sign,
    Sign, VarIntReadError,
};

#[test]
#[allow(clippy::unusual_byte_groupings)]
fn test_unsigned_varint() {
    let mut vec = vec![];
    let value: u64 = 0b0010100_1001011_0101001_0100010_1001001;

    write_unsigned_varint(&mut vec, value);

    assert_eq!(
        vec,
        [0b11001001, 0b10100010, 0b10101001, 0b11001011, 0b00010100]
    );

    let mut pos = 0;
    let read_value = read_unsigned_varint::<u64>(&vec, &mut pos).unwrap();
    assert_eq!(read_value, value, "{read_value:x} != {value:x}");
}

#[test]
#[allow(clippy::unusual_byte_groupings)]
fn test_varint_with_sign() {
    let mut vec = vec![];
    let value: u64 = 0b0101001_0100010_100100;

    write_varint_with_sign(&mut vec, value, Sign::Negative);

    assert_eq!(vec, [0b11100100, 0b10100010, 0b00101001]);

    let mut pos = 0;
    let (read_value, read_sign) = read_varint_with_sign::<u64>(&vec, &mut pos).unwrap();
    assert_eq!(
        (read_value, read_sign),
        (value, Sign::Negative),
        "{read_value:x} != {value:x}"
    );

    vec.clear();

    let value: u64 = 0b0100101_0010100_101010;

    write_varint_with_sign(&mut vec, value, Sign::Positive);

    assert_eq!(vec, [0b10101010, 0b10010100, 0b00100101]);

    let mut pos = 0;
    let (read_value, read_sign) = read_varint_with_sign::<u64>(&vec, &mut pos).unwrap();
    assert_eq!(
        (read_value, read_sign),
        (value, Sign::Positive),
        "{read_value:x} != {value:x}"
    );
}

fn test_signed_varint_case(val: i64) {
    let mut vec = vec![];

    write_signed_varint(&mut vec, val);

    let mut pos = 0;
    let read = read_signed_varint::<i64>(&vec, &mut pos).unwrap();

    assert_eq!(val, read);
}

#[test]
fn test_signed_varint() {
    test_signed_varint_case(0);
    test_signed_varint_case(1);
    test_signed_varint_case(-1);
    test_signed_varint_case(76378764854327610);
    test_signed_varint_case(-7652837468765784187);
    test_signed_varint_case(i64::MIN);
    test_signed_varint_case(i64::MAX);
}

#[test]
fn test_errors() {
    let invalid = [0xff; 16];

    let mut pos = 0;
    let res = read_unsigned_varint::<u64>(&invalid, &mut pos);

    assert!(matches!(res, Err(VarIntReadError::ValueTooBig)));

    let neg_zero = [0b01000000];
    let mut pos = 0;
    let res = read_signed_varint::<i64>(&neg_zero, &mut pos);

    assert!(matches!(res, Err(VarIntReadError::InvalidSignedValue)));
}

#[test]
fn test_bits() {
    let value: u64 = 7687324876823828958;

    let mut vec = vec![];

    write_unsigned_varint(&mut vec, value);

    let mut bits = vec![];
    let mut pos = 0;

    read_unsigned_varint_bits_le(&vec, &mut pos, &mut bits).unwrap();

    assert!(bits.len() <= 8);

    while bits.len() < 8 {
        bits.push(0);
    }

    let bytes: [u8; 8] = bits.try_into().unwrap();

    let bit_value = u64::from_le_bytes(bytes);

    assert_eq!(bit_value, value, "{bit_value:x} != {value:x}");
}

#[test]
fn test_is_varint_better() {
    let varint_short_values = [0x0u16, 0x7f, 0x0f];
    let varint_long_values = [0x80u16, 0xff];

    for v in varint_short_values {
        assert!(is_varint_better(v.leading_zeros(), 2, false));
    }

    for v in varint_long_values {
        assert!(!is_varint_better(v.leading_zeros(), 2, false));
    }

    let varint_shorter_values = [0x0u16, 0x3f, 0x0f];
    for v in varint_shorter_values {
        assert!(is_varint_better(v.leading_zeros(), 2, true));
    }

    assert!(!is_varint_better(0x7fu16.leading_zeros(), 2, true));

    let varint_short_values = [0x0u32, 0xffff, 0x0f];
    let varint_long_values = [0b1_0000000_0000000_0000000u32, 0xffffffff];

    for v in varint_short_values {
        assert!(is_varint_better(v.leading_zeros(), 4, false));
    }

    for v in varint_long_values {
        assert!(!is_varint_better(v.leading_zeros(), 4, false));
    }
}

#[test]
fn test_value_past_width_is_too_big() {
    let mut bytes = vec![];
    write_unsigned_varint(&mut bytes, 256u64);
    assert_eq!(bytes, [0x80, 0x02]);

    let mut pos = 0;
    let res = read_unsigned_varint::<u8>(&bytes, &mut pos);
    assert!(matches!(res, Err(VarIntReadError::ValueTooBig)));

    let mut pos = 0;
    assert_eq!(read_unsigned_varint::<u16>(&bytes, &mut pos).unwrap(), 256u16);
    assert_eq!(pos, 2);

    let max_u8 = [0xff, 0x01];
    let mut pos = 0;
    assert_eq!(read_unsigned_varint::<u8>(&max_u8, &mut pos).unwrap(), 255u8);

    let past_u8 = [0xff, 0x02];
    let mut pos = 0;
    let res = read_unsigned_varint::<u8>(&past_u8, &mut pos);
    assert!(matches!(res, Err(VarIntReadError::ValueTooBig)));
}
