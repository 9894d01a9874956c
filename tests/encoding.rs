use ws2812_spi::encoding::{encode_byte, encode_fixed, encode_timed, Encoding};
use ws2812_spi::timing::Timing;

fn high_sub_bits(bytes: &[u8]) -> u32 {
    bytes.iter().map(|b| b.count_ones()).sum()
}

#[test]
fn fixed_table_patterns() {
    assert_eq!(encode_fixed(0x00), [0x88, 0x88, 0x88, 0x88]);
    assert_eq!(encode_fixed(0xFF), [0xEE, 0xEE, 0xEE, 0xEE]);
    assert_eq!(encode_fixed(0b00_01_10_11), [0x88, 0x8E, 0xE8, 0xEE]);
    assert_eq!(encode_fixed(0x22), [0x88, 0xE8, 0x88, 0xE8]);
}

#[test]
fn timed_matches_table_at_four_sub_bits() {
    let t = Timing::new(3_000_000).unwrap();
    for b in [0x00u8, 0x01, 0x22, 0x5A, 0xA5, 0xFF] {
        assert_eq!(encode_timed(b, &t), encode_fixed(b).to_vec());
    }
}

#[test]
fn timed_three_sub_bits() {
    let t = Timing::new(2_000_000).unwrap();
    // 110 eight times.
    assert_eq!(encode_timed(0xFF, &t), vec![0xDB, 0x6D, 0xB6]);
    // 100 eight times.
    assert_eq!(encode_timed(0x00, &t), vec![0x92, 0x49, 0x24]);
    // 110 100 ...
    assert_eq!(encode_timed(0xAA, &t), vec![0xD3, 0x4D, 0x34]);
}

#[test]
fn timed_output_length_is_total() {
    for clock in [2_000_000u32, 3_000_000, 4_000_000, 8_000_000, 20_000_000] {
        let t = Timing::new(clock).unwrap();
        assert_eq!(encode_timed(0x5A, &t).len(), t.total as usize);
    }
}

#[test]
fn timed_high_phase_of_extremes() {
    for clock in [2_000_000u32, 3_000_000, 6_400_000, 12_000_000, 26_000_000] {
        let t = Timing::new(clock).unwrap();
        assert_eq!(high_sub_bits(&encode_timed(0xFF, &t)), 8 * t.one_high);
        assert_eq!(high_sub_bits(&encode_timed(0x00, &t)), 8 * t.zero_high);
    }
}

#[test]
fn timed_encoding_is_deterministic() {
    let t = Timing::new(6_400_000).unwrap();
    for b in [0x00u8, 0x3C, 0xC3, 0xFF] {
        let first = encode_timed(b, &t);
        let second = encode_timed(b, &t);
        assert_eq!(first, second);
    }
    assert_eq!(encode_fixed(0x3C), encode_fixed(0x3C));
}

#[test]
fn encode_byte_selects_encoding() {
    let t = Timing::new(2_000_000).unwrap();
    assert_eq!(encode_byte(&Encoding::Table, 0x1B), vec![0x88, 0x8E, 0xE8, 0xEE]);
    assert_eq!(encode_byte(&Encoding::Timed(t), 0xFF), vec![0xDB, 0x6D, 0xB6]);
}
