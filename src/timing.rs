//! Derivation of the oversampled pulse widths from the SPI clock rate.
use vstd::prelude::*;

verus! {

/// Lowest SPI clock (Hz) at which a zero pulse can still be shaped.
pub const MIN_CLOCK_HZ: u32 = 2_000_000;

/// Frequency whose period is the longest admissible high phase of a one bit.
pub const ONE_HIGH_HZ: u32 = 1_190_476;

/// Frequency whose period is the longest admissible high phase of a zero bit.
pub const ZERO_HIGH_HZ: u32 = 2_857_143;

/// Frequency whose period is the nominal length of one logical bit.
pub const BIT_PERIOD_HZ: u32 = 950_000;

/// Most sub-bits that one logical bit may take.
pub const MAX_SUB_BITS: u32 = 28;

/// 300 us of low signal last `clock * 3 / 10_000` sub-bits, eight to a byte:
/// `reset_bytes` is `clock * RESET_NUMERATOR / RESET_DENOMINATOR`, rounded up.
pub const RESET_NUMERATOR: u32 = 3;

pub const RESET_DENOMINATOR: u32 = 80_000;

/// The clock rate cannot be turned into valid pulse widths.
#[derive(Debug, Clone, Copy, PartialEq, Eq, Structural)]
pub struct InvalidTiming;

/// Pulse widths, counted in sub-bits (SPI clock periods), derived from a clock rate.
#[derive(Debug, Clone, Copy, PartialEq, Eq, Structural)]
pub struct Timing {
    /// High sub-bits of a logical one.
    pub one_high: u32,
    /// High sub-bits of a logical zero.
    pub zero_high: u32,
    /// Sub-bits per logical bit.
    pub total: u32,
    /// Zero bytes that hold the line low for at least 300 us.
    pub reset_bytes: u32,
}

pub open spec fn spec_zero_high(clock_hz: nat) -> nat {
    let z = clock_hz / (ZERO_HIGH_HZ as nat);
    if z == 0 { 1 } else { z }
}

pub open spec fn spec_one_high(clock_hz: nat) -> nat {
    clock_hz / (ONE_HIGH_HZ as nat) + 1
}

pub open spec fn spec_total(clock_hz: nat) -> nat {
    let t = clock_hz / (BIT_PERIOD_HZ as nat) + 1;
    if t == spec_one_high(clock_hz) { t + 1 } else { t }
}

/// Bytes of eight sub-bits each that last at least 300 us, rounded up.
pub open spec fn spec_reset_bytes(clock_hz: nat) -> nat {
    ((clock_hz * (RESET_NUMERATOR as nat) + (RESET_DENOMINATOR as nat) - 1) / (
    RESET_DENOMINATOR as int)) as nat
}

/// A clock rate for which pulse widths exist.
pub open spec fn supported_clock(clock_hz: nat) -> bool {
    clock_hz >= MIN_CLOCK_HZ as nat && spec_total(clock_hz) <= MAX_SUB_BITS as nat
}

/// The pulse widths that a supported clock rate yields.
pub open spec fn spec_timing(clock_hz: nat) -> Timing {
    Timing {
        one_high: spec_one_high(clock_hz) as u32,
        zero_high: spec_zero_high(clock_hz) as u32,
        total: spec_total(clock_hz) as u32,
        reset_bytes: spec_reset_bytes(clock_hz) as u32,
    }
}

impl Timing {
    /// The ordering that every pulse shape needs: a non-empty high phase,
    /// a one at least as long as a zero, a non-empty low tail after a one,
    /// and a bit that fits the accumulator.
    pub open spec fn wf(&self) -> bool {
        &&& 1 <= self.zero_high
        &&& self.zero_high <= self.one_high
        &&& self.one_high < self.total
        &&& self.total <= MAX_SUB_BITS
    }

    /// Derives the pulse widths for an SPI clock of `clock_hz` Hz.
    pub fn new(clock_hz: u32) -> (r: Result<Timing, InvalidTiming>)
        ensures
            match r {
                Ok(t) => supported_clock(clock_hz as nat) && t == spec_timing(clock_hz as nat)
                    && t.wf(),
                Err(_) => !supported_clock(clock_hz as nat),
            },
    {
        if clock_hz < MIN_CLOCK_HZ {
            return Err(InvalidTiming);
        }
        let mut zero_high = clock_hz / ZERO_HIGH_HZ;
        if zero_high == 0 {
            zero_high = 1;
        }
        let one_high = clock_hz / ONE_HIGH_HZ + 1;
        let mut total = clock_hz / BIT_PERIOD_HZ + 1;
        if total == one_high {
            total += 1;
        }
        if total > MAX_SUB_BITS {
            return Err(InvalidTiming);
        }
        proof {
            lemma_widths_ordered(clock_hz as nat);
            assert(clock_hz as u64 * RESET_NUMERATOR as u64 <= 0xFFFF_FFFFu64 * 3) by (nonlinear_arith)
                requires clock_hz <= 0xFFFF_FFFFu32;
        }
        let reset_bytes = (clock_hz as u64 * RESET_NUMERATOR as u64 + RESET_DENOMINATOR as u64 - 1)
            / RESET_DENOMINATOR as u64;
        Ok(Timing { one_high, zero_high, total, reset_bytes: reset_bytes as u32 })
    }

    /// Number of high sub-bits that encode a logical `bit`.
    pub fn high_len(&self, bit: bool) -> (r: u32)
        ensures
            r == (if bit { self.one_high } else { self.zero_high }),
    {
        if bit { self.one_high } else { self.zero_high }
    }
}

/// The derived widths are ordered for every clock rate.
pub proof fn lemma_widths_ordered(clock_hz: nat)
    ensures
        1 <= spec_zero_high(clock_hz),
        spec_zero_high(clock_hz) <= spec_one_high(clock_hz),
        spec_one_high(clock_hz) < spec_total(clock_hz),
{
    vstd::arithmetic::div_mod::lemma_div_is_ordered_by_denominator(
        clock_hz as int, ONE_HIGH_HZ as int, ZERO_HIGH_HZ as int);
    vstd::arithmetic::div_mod::lemma_div_is_ordered_by_denominator(
        clock_hz as int, BIT_PERIOD_HZ as int, ONE_HIGH_HZ as int);
}

/// For every supported clock rate the derived timing satisfies
/// `1 <= zero_high <= one_high < total <= MAX_SUB_BITS`.
pub proof fn lemma_supported_clock_timing_wf(clock_hz: nat)
    requires
        supported_clock(clock_hz),
    ensures
        spec_timing(clock_hz).wf(),
        spec_timing(clock_hz).zero_high as nat == spec_zero_high(clock_hz),
        spec_timing(clock_hz).one_high as nat == spec_one_high(clock_hz),
        spec_timing(clock_hz).total as nat == spec_total(clock_hz),
{
    lemma_widths_ordered(clock_hz);
}

/// The reset gap of a derived timing holds the line low for at least 300 us:
/// its `8 * reset_bytes` sub-bits last at least `3 * clock_hz / 10_000` clock periods.
pub proof fn lemma_reset_covers_latch(clock_hz: nat)
    ensures
        spec_reset_bytes(clock_hz) * 8 * 10_000 >= clock_hz * 3,
{
    let num = clock_hz * 3 + 79_999;
    let q = num / 80_000;
    assert(num == q * 80_000 + num % 80_000) by (nonlinear_arith)
        requires q == num / 80_000;
    assert(num % 80_000 < 80_000);
}

/// A clock below the minimum rate yields no timing.
pub proof fn lemma_slow_clock_rejected(clock_hz: nat)
    requires
        clock_hz < MIN_CLOCK_HZ as nat,
    ensures
        !supported_clock(clock_hz),
{
}

} // verus!
