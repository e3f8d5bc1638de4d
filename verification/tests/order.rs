use byteorder::{BigEndian, ByteOrder, LittleEndian};

#[test]
fn big_endian_u16_bytes_of_517() {
    let mut buf = [0u8; 2];
    BigEndian::write_u16(&mut buf, 517);
    assert_eq!(buf, [0x02, 0x05]);
}

#[test]
fn little_endian_u16_bytes_of_517() {
    let mut buf = [0u8; 2];
    LittleEndian::write_u16(&mut buf, 517);
    assert_eq!(buf, [0x05, 0x02]);
}

#[test]
fn two_big_endian_u16_from_a_buffer() {
    let buf = [0x02u8, 0x05, 0x03, 0x00];
    assert_eq!(BigEndian::read_u16(&buf), 517);
    assert_eq!(BigEndian::read_u16(&buf[2..]), 768);
}

#[test]
fn one_byte_int_is_sign_extended() {
    assert_eq!(BigEndian::read_int(&[0xFF], 1), -1i64);
    assert_eq!(BigEndian::read_uint(&[0xFF], 1), 255u64);
    assert_eq!(LittleEndian::read_int(&[0xFF], 1), -1i64);
    assert_eq!(LittleEndian::read_uint(&[0xFF], 1), 255u64);
}

#[test]
fn read_u32_places_bytes_by_order() {
    let buf = [0x01u8, 0x02, 0x03, 0x04];
    assert_eq!(BigEndian::read_u32(&buf), 0x0102_0304);
    assert_eq!(LittleEndian::read_u32(&buf), 0x0403_0201);
}

#[test]
fn read_u64_places_bytes_by_order() {
    let buf = [0x01u8, 0x02, 0x03, 0x04, 0x05, 0x06, 0x07, 0x08];
    assert_eq!(BigEndian::read_u64(&buf), 0x0102_0304_0506_0708);
    assert_eq!(LittleEndian::read_u64(&buf), 0x0807_0605_0403_0201);
}

#[test]
fn read_ignores_bytes_past_the_width() {
    let buf = [0x01u8, 0x02, 0xAA, 0xBB];
    assert_eq!(BigEndian::read_u16(&buf), 0x0102);
    assert_eq!(LittleEndian::read_u16(&buf), 0x0201);
}

#[test]
fn write_u32_and_u64_bytes() {
    let mut four = [0u8; 4];
    BigEndian::write_u32(&mut four, 0xDEAD_BEEF);
    assert_eq!(four, [0xDE, 0xAD, 0xBE, 0xEF]);
    LittleEndian::write_u32(&mut four, 0xDEAD_BEEF);
    assert_eq!(four, [0xEF, 0xBE, 0xAD, 0xDE]);
    let mut eight = [0u8; 8];
    BigEndian::write_u64(&mut eight, 0x0102_0304_0506_0708);
    assert_eq!(eight, [1, 2, 3, 4, 5, 6, 7, 8]);
    LittleEndian::write_u64(&mut eight, 0x0102_0304_0506_0708);
    assert_eq!(eight, [8, 7, 6, 5, 4, 3, 2, 1]);
}

#[test]
fn write_overwrites_the_width_and_keeps_the_rest() {
    let mut buf = [9u8; 4];
    BigEndian::write_u16(&mut buf, 517);
    assert_eq!(buf, [2, 5, 9, 9]);
    let mut buf = [9u8; 4];
    LittleEndian::write_uint(&mut buf, 0, 3);
    assert_eq!(buf, [0, 0, 0, 9]);
}

#[test]
fn signed_reads_are_twos_complement() {
    assert_eq!(BigEndian::read_i16(&[0xFF, 0xFE]), -2);
    assert_eq!(LittleEndian::read_i16(&[0xFE, 0xFF]), -2);
    assert_eq!(BigEndian::read_i16(&[0x80, 0x00]), i16::MIN);
    assert_eq!(BigEndian::read_i16(&[0x7F, 0xFF]), i16::MAX);
    assert_eq!(BigEndian::read_i32(&[0xFF, 0xFF, 0xFF, 0xFF]), -1);
    assert_eq!(LittleEndian::read_i32(&[0x00, 0x00, 0x00, 0x80]), i32::MIN);
    assert_eq!(BigEndian::read_i64(&[0x80, 0, 0, 0, 0, 0, 0, 0]), i64::MIN);
    assert_eq!(LittleEndian::read_i64(&[0xFF; 8]), -1);
}

#[test]
fn signed_writes_are_twos_complement() {
    let mut two = [0u8; 2];
    BigEndian::write_i16(&mut two, -2);
    assert_eq!(two, [0xFF, 0xFE]);
    LittleEndian::write_i16(&mut two, -2);
    assert_eq!(two, [0xFE, 0xFF]);
    let mut four = [0u8; 4];
    BigEndian::write_i32(&mut four, i32::MIN);
    assert_eq!(four, [0x80, 0, 0, 0]);
    let mut eight = [0u8; 8];
    LittleEndian::write_i64(&mut eight, -1);
    assert_eq!(eight, [0xFF; 8]);
    BigEndian::write_i64(&mut eight, i64::MIN);
    assert_eq!(eight, [0x80, 0, 0, 0, 0, 0, 0, 0]);
}

#[test]
fn read_uint_of_three_bytes() {
    assert_eq!(BigEndian::read_uint(&[1, 2, 3], 3), 66051);
    assert_eq!(LittleEndian::read_uint(&[1, 2, 3], 3), 197121);
    assert_eq!(BigEndian::read_uint(&[1, 2, 3, 4, 5, 6, 7, 8], 3), 66051);
}

#[test]
fn read_uint_of_every_width() {
    let buf = [0x01u8, 0x02, 0x03, 0x04, 0x05, 0x06, 0x07, 0x08];
    let big: [u64; 8] = [
        0x01,
        0x0102,
        0x01_0203,
        0x0102_0304,
        0x01_0203_0405,
        0x0102_0304_0506,
        0x01_0203_0405_0607,
        0x0102_0304_0506_0708,
    ];
    let little: [u64; 8] = [
        0x01,
        0x0201,
        0x03_0201,
        0x0403_0201,
        0x05_0403_0201,
        0x0605_0403_0201,
        0x07_0605_0403_0201,
        0x0807_0605_0403_0201,
    ];
    for n in 1..=8usize {
        assert_eq!(BigEndian::read_uint(&buf, n), big[n - 1]);
        assert_eq!(LittleEndian::read_uint(&buf, n), little[n - 1]);
    }
}

#[test]
fn read_int_sign_extends_from_the_top_bit_of_the_width() {
    assert_eq!(BigEndian::read_int(&[0x80, 0x00, 0x00], 3), -8_388_608);
    assert_eq!(LittleEndian::read_int(&[0x00, 0x00, 0x80], 3), -8_388_608);
    assert_eq!(BigEndian::read_int(&[0x7F, 0xFF, 0xFF], 3), 8_388_607);
    assert_eq!(BigEndian::read_int(&[0xFF, 0xFE], 2), -2);
    assert_eq!(BigEndian::read_int(&[0xFF; 8], 8), -1);
    assert_eq!(LittleEndian::read_int(&[0, 0, 0, 0, 0, 0, 0, 0x80], 8), i64::MIN);
    assert_eq!(BigEndian::read_int(&[0x7F, 0xFF, 0xFF, 0xFF, 0xFF, 0xFF, 0xFF], 7), (1i64 << 55) - 1);
}

#[test]
fn write_uint_keeps_the_low_bytes() {
    let mut buf = [0u8; 2];
    BigEndian::write_uint(&mut buf, 0x0102_0304, 2);
    assert_eq!(buf, [0x03, 0x04]);
    LittleEndian::write_uint(&mut buf, 0x0102_0304, 2);
    assert_eq!(buf, [0x04, 0x03]);
}

#[test]
fn write_int_of_negative_numbers() {
    let mut buf = [0u8; 2];
    BigEndian::write_int(&mut buf, -2, 2);
    assert_eq!(buf, [0xFF, 0xFE]);
    let mut buf = [0u8; 3];
    LittleEndian::write_int(&mut buf, -8_388_608, 3);
    assert_eq!(buf, [0x00, 0x00, 0x80]);
    let mut buf = [7u8; 8];
    BigEndian::write_int(&mut buf, -1, 1);
    assert_eq!(buf, [0xFF, 7, 7, 7, 7, 7, 7, 7]);
}

#[test]
fn unsigned_round_trips_in_both_orders() {
    for v in [0u16, 1, 255, 256, 517, 0x8000, u16::MAX] {
        let mut buf = [0u8; 2];
        BigEndian::write_u16(&mut buf, v);
        assert_eq!(BigEndian::read_u16(&buf), v);
        LittleEndian::write_u16(&mut buf, v);
        assert_eq!(LittleEndian::read_u16(&buf), v);
    }
    for v in [0u32, 1, 0x0102_0304, 0x8000_0000, u32::MAX] {
        let mut buf = [0u8; 4];
        BigEndian::write_u32(&mut buf, v);
        assert_eq!(BigEndian::read_u32(&buf), v);
        LittleEndian::write_u32(&mut buf, v);
        assert_eq!(LittleEndian::read_u32(&buf), v);
    }
    for v in [0u64, 1, 0x0102_0304_0506_0708, 1 << 63, u64::MAX] {
        let mut buf = [0u8; 8];
        BigEndian::write_u64(&mut buf, v);
        assert_eq!(BigEndian::read_u64(&buf), v);
        LittleEndian::write_u64(&mut buf, v);
        assert_eq!(LittleEndian::read_u64(&buf), v);
    }
}

#[test]
fn signed_round_trips_in_both_orders() {
    for v in [0i16, 1, -1, 517, -517, i16::MIN, i16::MAX] {
        let mut buf = [0u8; 2];
        BigEndian::write_i16(&mut buf, v);
        assert_eq!(BigEndian::read_i16(&buf), v);
        LittleEndian::write_i16(&mut buf, v);
        assert_eq!(LittleEndian::read_i16(&buf), v);
    }
    for v in [0i32, 1, -1, 70_000, -70_000, i32::MIN, i32::MAX] {
        let mut buf = [0u8; 4];
        BigEndian::write_i32(&mut buf, v);
        assert_eq!(BigEndian::read_i32(&buf), v);
        LittleEndian::write_i32(&mut buf, v);
        assert_eq!(LittleEndian::read_i32(&buf), v);
    }
    for v in [0i64, 1, -1, 5_000_000_000, -5_000_000_000, i64::MIN, i64::MAX] {
        let mut buf = [0u8; 8];
        BigEndian::write_i64(&mut buf, v);
        assert_eq!(BigEndian::read_i64(&buf), v);
        LittleEndian::write_i64(&mut buf, v);
        assert_eq!(LittleEndian::read_i64(&buf), v);
    }
}

#[test]
fn variable_width_round_trips() {
    for n in 1..=8usize {
        let top: u64 = if n == 8 { u64::MAX } else { (1u64 << (8 * n)) - 1 };
        for v in [0u64, 1, top / 2, top / 2 + 1, top] {
            let mut buf = [0u8; 8];
            BigEndian::write_uint(&mut buf, v, n);
            assert_eq!(BigEndian::read_uint(&buf, n), v);
            LittleEndian::write_uint(&mut buf, v, n);
            assert_eq!(LittleEndian::read_uint(&buf, n), v);
        }
        let max: i64 = if n == 8 { i64::MAX } else { (1i64 << (8 * n - 1)) - 1 };
        let min: i64 = -max - 1;
        for v in [0i64, 1, -1, max, min] {
            let mut buf = [0u8; 8];
            BigEndian::write_int(&mut buf, v, n);
            assert_eq!(BigEndian::read_int(&buf, n), v);
            LittleEndian::write_int(&mut buf, v, n);
            assert_eq!(LittleEndian::read_int(&buf, n), v);
        }
    }
}

#[test]
fn bytes_read_and_written_back_are_unchanged() {
    let bytes = [0xDEu8, 0xAD, 0xBE, 0xEF];
    let mut out = [0u8; 4];
    BigEndian::write_u32(&mut out, BigEndian::read_u32(&bytes));
    assert_eq!(out, bytes);
    LittleEndian::write_u32(&mut out, LittleEndian::read_u32(&bytes));
    assert_eq!(out, bytes);
}

#[test]
fn the_orders_differ_unless_the_bytes_are_palindromic() {
    let mut big = [0u8; 2];
    let mut little = [0u8; 2];
    BigEndian::write_u16(&mut big, 0x0102);
    LittleEndian::write_u16(&mut little, 0x0102);
    assert_ne!(big, little);
    little.reverse();
    assert_eq!(big, little);
    BigEndian::write_u16(&mut big, 0x0101);
    LittleEndian::write_u16(&mut little, 0x0101);
    assert_eq!(big, little);
    let mut big = [0u8; 4];
    let mut little = [0u8; 4];
    BigEndian::write_u32(&mut big, 0x0102_0201);
    LittleEndian::write_u32(&mut little, 0x0102_0201);
    assert_eq!(big, little);
    BigEndian::write_u32(&mut big, 0x0102_0301);
    LittleEndian::write_u32(&mut little, 0x0102_0301);
    assert_ne!(big, little);
}

#[test]
fn float_bit_patterns_survive_the_round_trip() {
    let singles = [
        f32::INFINITY.to_bits(),
        f32::NEG_INFINITY.to_bits(),
        0x7FC0_1234u32,
        (-0.0f32).to_bits(),
        1.5f32.to_bits(),
    ];
    for bits in singles {
        let mut buf = [0u8; 4];
        BigEndian::write_u32(&mut buf, bits);
        assert_eq!(f32::from_bits(BigEndian::read_u32(&buf)).to_bits(), bits);
        LittleEndian::write_u32(&mut buf, bits);
        assert_eq!(f32::from_bits(LittleEndian::read_u32(&buf)).to_bits(), bits);
    }
    let doubles = [
        f64::INFINITY.to_bits(),
        f64::NEG_INFINITY.to_bits(),
        0x7FF8_0000_DEAD_BEEFu64,
        (-0.0f64).to_bits(),
    ];
    for bits in doubles {
        let mut buf = [0u8; 8];
        BigEndian::write_u64(&mut buf, bits);
        assert_eq!(f64::from_bits(BigEndian::read_u64(&buf)).to_bits(), bits);
        LittleEndian::write_u64(&mut buf, bits);
        assert_eq!(f64::from_bits(LittleEndian::read_u64(&buf)).to_bits(), bits);
    }
    let mut buf = [0u8; 4];
    BigEndian::write_u32(&mut buf, f32::INFINITY.to_bits());
    assert_eq!(buf, [0x7F, 0x80, 0x00, 0x00]);
}
