use kestrel::codec::{
    checksum, crc32c_table, put_bytes, put_i64, put_u32, put_u64, put_var_u32, read_bytes,
    read_i64, read_u32, read_u64, read_var_u32, take,
};
use kestrel::error::Error;
use kestrel::packing::{
    put_packed_block, put_packed_deltas, put_packed_u32s, read_packed_deltas, read_packed_u32s,
};

#[test]
fn codec_round_trip() {
    let mut bytes = Vec::new();
    put_u32(&mut bytes, 42);
    put_i64(&mut bytes, -91);
    put_bytes(&mut bytes, b"hello").unwrap();
    let mut input = bytes.as_slice();
    assert_eq!(read_u32(&mut input).unwrap(), 42);
    assert_eq!(read_i64(&mut input).unwrap(), -91);
    assert_eq!(read_bytes(&mut input).unwrap(), b"hello");
    assert!(input.is_empty());
}

#[test]
fn packed_blocks_and_deltas_round_trip() {
    let values: Vec<_> = (0..513_u32)
        .map(|index| index.wrapping_mul(index).rotate_left(index % 31))
        .collect();
    let mut packed = Vec::new();
    put_packed_u32s(&mut packed, &values);
    assert_eq!(read_packed_u32s(&packed, values.len()).unwrap(), values);

    let increasing: Vec<_> = (0..513_u32)
        .scan(0_u32, |current, step| {
            *current += step % 17 + 1;
            Some(*current)
        })
        .collect();
    packed.clear();
    put_packed_deltas(&mut packed, &increasing);
    assert_eq!(
        read_packed_deltas(&packed, increasing.len()).unwrap(),
        increasing
    );
}

#[test]
fn variable_integers_cover_u32_domain() {
    let values = [0, 1, 127, 128, 16_383, 16_384, u32::MAX];
    let mut encoded = Vec::new();
    for value in values {
        put_var_u32(&mut encoded, value);
    }
    let mut input = encoded.as_slice();
    for value in values {
        assert_eq!(read_var_u32(&mut input).unwrap(), value);
    }
    assert!(input.is_empty());
}

#[test]
fn crc32c_matches_standard_vector() {
    assert_eq!(checksum(b"123456789"), 0xe306_9283);
}

#[test]
fn integers_are_little_endian() {
    let mut bytes = Vec::new();
    put_u32(&mut bytes, 0x0102_0304);
    put_u64(&mut bytes, 0x0102_0304_0506_0708);
    put_i64(&mut bytes, -2);
    assert_eq!(
        bytes,
        [
            4, 3, 2, 1, 8, 7, 6, 5, 4, 3, 2, 1, 0xfe, 0xff, 0xff, 0xff, 0xff, 0xff, 0xff, 0xff
        ]
    );
    let mut input = bytes.as_slice();
    assert_eq!(read_u32(&mut input).unwrap(), 0x0102_0304);
    assert_eq!(read_u64(&mut input).unwrap(), 0x0102_0304_0506_0708);
    assert_eq!(read_i64(&mut input).unwrap(), -2);
}

#[test]
fn byte_strings_stand_behind_their_length() {
    let mut bytes = Vec::new();
    put_bytes(&mut bytes, b"abc").unwrap();
    assert_eq!(bytes, [3, 0, 0, 0, b'a', b'b', b'c']);
}

#[test]
fn truncated_input_is_left_as_it_was() {
    let bytes = [1_u8, 2, 3];
    let mut input = bytes.as_slice();
    assert!(matches!(
        take(&mut input, 4),
        Err(Error::Corrupt("truncated record"))
    ));
    assert!(matches!(
        read_u32(&mut input),
        Err(Error::Corrupt("truncated record"))
    ));
    assert!(matches!(
        read_u64(&mut input),
        Err(Error::Corrupt("truncated record"))
    ));
    assert!(matches!(
        read_i64(&mut input),
        Err(Error::Corrupt("truncated record"))
    ));
    assert_eq!(input, [1, 2, 3]);
    assert_eq!(take(&mut input, 2).unwrap(), [1, 2]);
    assert_eq!(input, [3]);

    let short = [5_u8, 0, 0, 0, 9];
    let mut input = short.as_slice();
    assert!(matches!(
        read_bytes(&mut input),
        Err(Error::Corrupt("truncated record"))
    ));
}

#[test]
fn variable_integers_take_seven_bits_a_byte() {
    let mut encoded = Vec::new();
    put_var_u32(&mut encoded, 300);
    assert_eq!(encoded, [0xac, 0x02]);

    let mut input: &[u8] = &[0x80, 0x80];
    assert!(matches!(
        read_var_u32(&mut input),
        Err(Error::Corrupt("truncated variable integer"))
    ));
    let mut input: &[u8] = &[0xff, 0xff, 0xff, 0xff, 0x10];
    assert!(matches!(
        read_var_u32(&mut input),
        Err(Error::Corrupt("variable integer overflow"))
    ));
    let mut input: &[u8] = &[0xff, 0xff, 0xff, 0xff, 0x0f];
    assert_eq!(read_var_u32(&mut input).unwrap(), u32::MAX);
}

#[test]
fn checksum_table_starts_with_the_polynomial_steps() {
    let table = crc32c_table();
    assert_eq!(table.len(), 256);
    assert_eq!(table[0], 0);
    assert_eq!(table[1], 0xf26b_8303);
    assert_eq!(table[128], 0x82f6_3b78);
    assert_eq!(checksum(b""), 0);
}

#[test]
fn packed_values_take_only_the_bits_they_need() {
    let mut packed = Vec::new();
    put_packed_block(&mut packed, &[1, 2, 3]);
    let narrow = packed.len();
    packed.clear();
    put_packed_block(&mut packed, &[1, 2, u32::MAX]);
    assert!(narrow < packed.len());

    assert!(read_packed_u32s(&[], 1).is_err());
    assert!(read_packed_u32s(&[], 0).unwrap().is_empty());
    assert!(read_packed_deltas(&[33], 1).is_err());
}
