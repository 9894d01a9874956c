use ws2812_spi::timing::{InvalidTiming, Timing, MAX_SUB_BITS};

fn assert_ordered(t: &Timing) {
    assert!(1 <= t.zero_high);
    assert!(t.zero_high <= t.one_high);
    assert!(t.one_high < t.total);
    assert!(t.total <= MAX_SUB_BITS);
}

#[test]
fn timing_at_three_mhz() {
    let t = Timing::new(3_000_000).unwrap();
    assert_eq!(t.zero_high, 1);
    assert_eq!(t.one_high, 3);
    assert_eq!(t.total, 4);
    assert_eq!(t.reset_bytes, 113);
    assert_ordered(&t);
}

#[test]
fn timing_at_minimum_clock() {
    let t = Timing::new(2_000_000).unwrap();
    assert_eq!(t.zero_high, 1);
    assert_eq!(t.one_high, 2);
    assert_eq!(t.total, 3);
    assert_eq!(t.reset_bytes, 75);
}

#[test]
fn timing_below_minimum_clock_fails() {
    assert_eq!(Timing::new(1_999_999), Err(InvalidTiming));
    assert_eq!(Timing::new(800_000), Err(InvalidTiming));
    assert_eq!(Timing::new(0), Err(InvalidTiming));
}

#[test]
fn timing_total_bumped_past_one_high() {
    // 2.4 MHz gives 3 for both the one pulse and the bit period.
    let t = Timing::new(2_400_000).unwrap();
    assert_eq!(t.one_high, 3);
    assert_eq!(t.total, 4);
}

#[test]
fn timing_accumulator_limit() {
    let t = Timing::new(26_599_999).unwrap();
    assert_eq!(t.total, 28);
    assert_ordered(&t);
    assert_eq!(Timing::new(26_600_000), Err(InvalidTiming));
    assert_eq!(Timing::new(u32::MAX), Err(InvalidTiming));
}

#[test]
fn timing_ordered_over_supported_range() {
    let mut clock: u32 = 2_000_000;
    while clock < 26_600_000 {
        let t = Timing::new(clock).unwrap();
        assert_ordered(&t);
        // 300 us of low signal: 8 sub-bits per byte.
        assert!(t.reset_bytes as u64 * 8 * 10_000 >= clock as u64 * 3);
        clock += 12_345;
    }
}

#[test]
fn timing_high_len() {
    let t = Timing::new(3_000_000).unwrap();
    assert_eq!(t.high_len(true), 3);
    assert_eq!(t.high_len(false), 1);
}
