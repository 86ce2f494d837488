use bitspec::assembly::BitOrder;
use bitspec::bits::{
    bits_to_bytes, read_bit_at, read_bits_at, read_bits_at_slow, reverse_bits_in_bytes, reverse_bits_n,
    sign_extend, write_bits_at,
};
use bitspec::errors::{ReadError, WriteError};

#[test]
fn test_read_bit_at() {
    let data = [0b11111111];
    assert_eq!(read_bit_at(&data, 0).unwrap(), 1);
}

#[test]
fn test_read_bits_at() {
    let data = [0b11111111];
    assert_eq!(read_bits_at(&data, 0, 8).unwrap(), 0b11111111);
}

#[test]
fn test_read_bits_out_of_bounds() {
    let data = [0b11111111];
    assert_eq!(read_bits_at(&data, 0, 9).unwrap_err(), ReadError::OutOfBounds);
}

#[test]
fn test_read_bits_more_than_64() {
    let data = [0b11111111];
    assert_eq!(read_bits_at(&data, 0, 65).unwrap_err(), ReadError::TooManyBitsRead);
}

#[test]
fn test_read_bits_at_out_of_bounds() {
    let data = [0b11111111];
    assert_eq!(read_bits_at(&data, 0, 9).unwrap_err(), ReadError::OutOfBounds);
}

#[test]
fn test_read_bits_at_more_than_64() {
    let data = [0b11111111];
    assert_eq!(read_bits_at(&data, 0, 65).unwrap_err(), ReadError::TooManyBitsRead);
}

#[test]
fn test_sign_extend() {
    assert_eq!(sign_extend(0b11111111, 8), -1);
}

#[test]
fn test_reverse_bits_n() {
    assert_eq!(reverse_bits_n(0b10101010, 8), 0b01010101);
}

#[test]
fn test_write_bits_at_aligned() {
    let mut buf = vec![0u8; 2];
    write_bits_at(&mut buf, 0, 8, 0xAB).unwrap();
    assert_eq!(buf, vec![0xAB, 0x00]);
}

#[test]
fn test_write_bits_at_unaligned() {
    let mut buf = vec![0u8; 2];
    // write 0b1011 (4 bits) starting at bit 4 of byte 0
    write_bits_at(&mut buf, 4, 4, 0b1011).unwrap();
    assert_eq!(buf, vec![0b0000_1011, 0x00]);
}

#[test]
fn test_write_bits_at_crosses_byte() {
    let mut buf = vec![0u8; 2];
    // write 0b1111_1111 (8 bits) starting at bit 4 of byte 0: straddles the byte boundary
    write_bits_at(&mut buf, 4, 8, 0xFF).unwrap();
    assert_eq!(buf, vec![0b0000_1111, 0b1111_0000]);
}

#[test]
fn read_bit_past_end_is_out_of_bounds() {
    let data = [0b1000_0000];
    assert_eq!(read_bit_at(&data, 0).unwrap(), 1);
    assert_eq!(read_bit_at(&data, 7).unwrap(), 0);
    assert_eq!(read_bit_at(&data, 8).unwrap_err(), ReadError::OutOfBounds);
}

#[test]
fn read_bits_unaligned_and_zero_width() {
    let data = [0b0000_1011, 0b1100_0000];
    assert_eq!(read_bits_at(&data, 4, 6).unwrap(), 0b1011_11);
    assert_eq!(read_bits_at(&data, 3, 0).unwrap(), 0);
    assert_eq!(read_bits_at(&data, 16, 0).unwrap(), 0);
    assert_eq!(read_bits_at(&data, 17, 0).unwrap_err(), ReadError::OutOfBounds);
}

#[test]
fn read_full_64_bits() {
    let data = [0xFF, 0x00, 0xFF, 0x00, 0xFF, 0x00, 0xFF, 0x01, 0x80];
    assert_eq!(read_bits_at(&data, 0, 64).unwrap(), 0xFF00_FF00_FF00_FF01);
    assert_eq!(read_bits_at(&data, 1, 64).unwrap(), 0xFE01_FE01_FE01_FE03);
}

#[test]
fn fast_read_matches_slow_read() {
    let data: Vec<u8> = (0u8..24).map(|i| i.wrapping_mul(37).wrapping_add(11)).collect();
    for pos in 0..data.len() * 8 {
        for n in 0..=65 {
            assert_eq!(read_bits_at(&data, pos, n), read_bits_at_slow(&data, pos, n));
        }
    }
}

#[test]
fn write_then_read_gives_back_the_low_bits() {
    let mut buf = vec![0xA5u8; 5];
    write_bits_at(&mut buf, 3, 13, 0xFFFF_1234).unwrap();
    assert_eq!(read_bits_at(&buf, 3, 13).unwrap(), 0x1234 & 0x1FFF);
    // the bits around the written range are left as they were
    assert_eq!(read_bits_at(&buf, 0, 3).unwrap(), 0b101);
    assert_eq!(buf[2..], [0xA5, 0xA5, 0xA5]);
}

#[test]
fn write_out_of_range_is_refused() {
    let mut buf = vec![0u8; 1];
    assert_eq!(write_bits_at(&mut buf, 4, 5, 0), Err(WriteError::OutOfBounds));
    assert_eq!(write_bits_at(&mut buf, 0, 65, 0), Err(WriteError::OutOfBounds));
    assert_eq!(write_bits_at(&mut buf, usize::MAX, 2, 0), Err(WriteError::OutOfBounds));
    assert_eq!(buf, vec![0]);
}

#[test]
fn sign_extend_examples() {
    assert_eq!(sign_extend(0b0111_1111, 8), 127);
    assert_eq!(sign_extend(0b1000_0000, 8), -128);
    assert_eq!(sign_extend(0b1, 1), -1);
    assert_eq!(sign_extend(u64::MAX, 64), -1);
    assert_eq!(sign_extend(0x8000_0000_0000_0000, 64), i64::MIN);
    // bits above the width are ignored
    assert_eq!(sign_extend(0xF0F, 4), -1);
}

#[test]
fn reverse_bits_n_is_an_involution_on_low_bits() {
    assert_eq!(reverse_bits_n(0b1101, 4), 0b1011);
    assert_eq!(reverse_bits_n(0b1101, 0), 0);
    assert_eq!(reverse_bits_n(1, 64), 0x8000_0000_0000_0000);
    for x in [0u64, 1, 0b1011_0010, 0xDEAD_BEEF] {
        for n in [3usize, 8, 17, 32] {
            let low = if n == 64 { x } else { x & ((1u64 << n) - 1) };
            assert_eq!(reverse_bits_n(reverse_bits_n(x, n), n), low);
        }
    }
}

#[test]
fn reverse_bits_in_each_byte() {
    let mut data = [0b1000_0001, 0b1100_0000, 0b0000_0101];
    reverse_bits_in_bytes(&mut data);
    assert_eq!(data, [0b1000_0001, 0b0000_0011, 0b1010_0000]);
}

#[test]
fn bits_to_bytes_in_both_orders() {
    let bits = [1u8, 0, 1, 1, 0, 0, 0, 0, 1];
    assert_eq!(bits_to_bytes(&bits, BitOrder::MsbFirst), vec![0b1011_0000, 0b1000_0000]);
    assert_eq!(bits_to_bytes(&bits, BitOrder::LsbFirst), vec![0b0000_1101, 0b0000_0001]);
    assert_eq!(bits_to_bytes(&[0u8; 0], BitOrder::MsbFirst), Vec::<u8>::new());
}

#[test]
fn write_full_width_reads_back_whole_value() {
    let mut buf = vec![0u8; 9];
    write_bits_at(&mut buf, 5, 64, 0xDEAD_BEEF_0123_4567).unwrap();
    assert_eq!(read_bits_at(&buf, 5, 64).unwrap(), 0xDEAD_BEEF_0123_4567);
    assert_eq!(read_bits_at(&buf, 0, 5).unwrap(), 0);
    assert_eq!(read_bits_at(&buf, 69, 3).unwrap(), 0);
}

#[test]
fn packing_pads_with_zero_bits() {
    let bits = [1u8, 1, 1];
    assert_eq!(bits_to_bytes(&bits, BitOrder::MsbFirst), vec![0b1110_0000]);
    assert_eq!(bits_to_bytes(&bits, BitOrder::LsbFirst), vec![0b0000_0111]);
}
