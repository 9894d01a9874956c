//! Expansion of one channel byte into oversampled SPI bytes.
use vstd::prelude::*;
use vstd::arithmetic::power2::{pow2, lemma2_to64, lemma_pow2_strictly_increases, lemma_pow2_unfold};
use crate::timing::Timing;

verus! {

/// SPI byte for a pair of logical bits, from a 2-bit value `pair`.
/// Each half is four sub-bits: `1000` is a zero and `1110` is a one.
pub open spec fn pattern(pair: u8) -> u8 {
    if pair == 0 {
        0b1000_1000
    } else if pair == 1 {
        0b1000_1110
    } else if pair == 2 {
        0b1110_1000
    } else {
        0b1110_1110
    }
}

/// The four SPI bytes of the table encoding of `data`, most significant pair first.
pub open spec fn fixed_encoding(data: u8) -> Seq<u8> {
    seq![pattern(data >> 6), pattern((data >> 4) & 3), pattern((data >> 2) & 3), pattern(data & 3)]
}

fn pattern_of(pair: u8) -> (r: u8)
    requires
        pair < 4,
    ensures
        r == pattern(pair),
{
    let patterns: [u8; 4] = [0b1000_1000, 0b1000_1110, 0b1110_1000, 0b1110_1110];
    patterns[pair as usize]
}

/// Encodes `data` with the table for a clock of four sub-bits per logical bit.
pub fn encode_fixed(data: u8) -> (r: [u8; 4])
    ensures
        r@ == fixed_encoding(data),
{
    assert(data >> 6 < 4 && (data >> 4) & 3 < 4 && (data >> 2) & 3 < 4 && data & 3 < 4)
        by (bit_vector);
    let r = [
        pattern_of(data >> 6),
        pattern_of((data >> 4) & 3),
        pattern_of((data >> 2) & 3),
        pattern_of(data & 3),
    ];
    assert(r@ =~= fixed_encoding(data));
    r
}

/// How channel bytes become SPI bytes.
#[derive(Debug, Clone, Copy, PartialEq, Eq, Structural)]
pub enum Encoding {
    /// The table for a clock of about four sub-bits per logical bit.
    Table,
    /// Pulse widths derived from the clock rate.
    Timed(Timing),
}

/// The SPI bytes of `data` under `enc`.
pub open spec fn encoding_of(enc: Encoding, data: u8) -> Seq<u8> {
    match enc {
        Encoding::Table => fixed_encoding(data),
        Encoding::Timed(t) => pack(sub_bits(data, t)),
    }
}

/// Encodings of `bytes` under `enc`, one after another.
pub open spec fn encoded_with(enc: Encoding, bytes: Seq<u8>) -> Seq<u8>
    decreases bytes.len(),
{
    if bytes.len() == 0 {
        Seq::empty()
    } else {
        encoded_with(enc, bytes.drop_last()) + encoding_of(enc, bytes.last())
    }
}

/// Table encodings of `bytes`, one after another.
pub open spec fn table_encoded(bytes: Seq<u8>) -> Seq<u8> {
    encoded_with(Encoding::Table, bytes)
}

/// Encodes `data` under `enc`.
pub fn encode_byte(enc: &Encoding, data: u8) -> (r: Vec<u8>)
    ensures
        r@ == encoding_of(*enc, data),
{
    match enc {
        Encoding::Table => {
            let e = encode_fixed(data);
            let mut r: Vec<u8> = Vec::new();
            r.push(e[0]);
            r.push(e[1]);
            r.push(e[2]);
            r.push(e[3]);
            assert(r@ =~= fixed_encoding(data));
            r
        },
        Encoding::Timed(t) => encode_timed(data, t),
    }
}

/// `n` zero bytes: the line held low.
pub open spec fn zeros(n: nat) -> Seq<u8> {
    Seq::new(n, |i: int| 0u8)
}

/// A reset gap of `n` zero bytes when `on` holds, nothing otherwise.
pub open spec fn latch_if(on: bool, n: nat) -> Seq<u8> {
    if on {
        zeros(n)
    } else {
        Seq::empty()
    }
}

/// Bit `i` of `data`, counting from the most significant (`i == 0`).
pub open spec fn bit_set(data: u8, i: int) -> bool {
    data & (0x80u8 >> (i as u8)) != 0
}

/// One logical bit as sub-bits: `high` high ones, then low ones up to `total`.
pub open spec fn pulse(high: nat, total: nat) -> Seq<bool> {
    Seq::new(total, |k: int| k < high)
}

pub open spec fn high_of(t: Timing, bit: bool) -> nat {
    if bit {
        t.one_high as nat
    } else {
        t.zero_high as nat
    }
}

/// Sub-bits of the first `n` logical bits of `data` under `t`.
pub open spec fn sub_bits_upto(data: u8, t: Timing, n: nat) -> Seq<bool>
    decreases n,
{
    if n == 0 {
        Seq::empty()
    } else {
        sub_bits_upto(data, t, (n - 1) as nat) + pulse(
            high_of(t, bit_set(data, n - 1)),
            t.total as nat,
        )
    }
}

/// Sub-bits of all eight logical bits of `data` under `t`.
pub open spec fn sub_bits(data: u8, t: Timing) -> Seq<bool> {
    sub_bits_upto(data, t, 8)
}

/// The value of `n` sub-bits read from position `lo`, most significant first;
/// positions past the end of `s` read as low.
pub open spec fn bits_value(s: Seq<bool>, lo: int, n: nat) -> nat
    decreases n,
{
    if n == 0 {
        0
    } else {
        2 * bits_value(s, lo, (n - 1) as nat) + if 0 <= lo + n - 1 < s.len() && s[lo + n - 1] {
            1nat
        } else {
            0nat
        }
    }
}

/// Sub-bits packed eight to a byte, most significant first, the last byte padded low.
pub open spec fn pack(s: Seq<bool>) -> Seq<u8> {
    Seq::new(((s.len() + 7) / 8) as nat, |k: int| bits_value(s, 8 * k, 8) as u8)
}

/// Number of high sub-bits in `s`.
pub open spec fn count_high(s: Seq<bool>) -> nat
    decreases s.len(),
{
    if s.len() == 0 {
        0
    } else {
        count_high(s.drop_last()) + if s.last() {
            1nat
        } else {
            0nat
        }
    }
}

proof fn lemma_bits_value_agree(s1: Seq<bool>, s2: Seq<bool>, lo: int, n: nat)
    requires
        forall|i: int|
            lo <= i < lo + n ==> ((0 <= i < s1.len() && s1[i]) == (0 <= i < s2.len() && s2[i])),
    ensures
        bits_value(s1, lo, n) == bits_value(s2, lo, n),
    decreases n,
{
    if n > 0 {
        lemma_bits_value_agree(s1, s2, lo, (n - 1) as nat);
    }
}

proof fn lemma_bits_value_bound(s: Seq<bool>, lo: int, n: nat)
    ensures
        bits_value(s, lo, n) < pow2(n),
    decreases n,
{
    if n == 0 {
        lemma2_to64();
    } else {
        lemma_bits_value_bound(s, lo, (n - 1) as nat);
        lemma_pow2_unfold(n);
    }
}

proof fn lemma_pow2_at_most_128(n: nat)
    requires
        n <= 7,
    ensures
        pow2(n) <= 128,
{
    lemma2_to64();
    if n < 7 {
        lemma_pow2_strictly_increases(n, 7);
    }
}

/// Collects sub-bits and packs them into bytes as they fill.
struct BitWriter {
    out: Vec<u8>,
    acc: u8,
    filled: u32,
    bits: Ghost<Seq<bool>>,
}

impl BitWriter {
    spec fn wf(&self) -> bool {
        &&& self.filled < 8
        &&& self.bits@.len() == 8 * self.out@.len() + self.filled
        &&& self.acc as nat == bits_value(self.bits@, 8 * self.out@.len() as int, self.filled as nat)
        &&& forall|k: int|
            0 <= k < self.out@.len() ==> self.out@[k] == bits_value(self.bits@, 8 * k, 8) as u8
    }

    fn new() -> (r: BitWriter)
        ensures
            r.wf(),
            r.bits@ == Seq::<bool>::empty(),
    {
        BitWriter { out: Vec::new(), acc: 0, filled: 0, bits: Ghost(Seq::empty()) }
    }

    fn push(&mut self, bit: bool)
        requires
            old(self).wf(),
        ensures
            final(self).wf(),
            final(self).bits@ == old(self).bits@.push(bit),
    {
        let ghost s = self.bits@;
        let ghost s2 = s.push(bit);
        let ghost lo: int = 8 * self.out@.len() as int;
        proof {
            lemma_bits_value_bound(s, lo, self.filled as nat);
            lemma_pow2_unfold((self.filled + 1) as nat);
            lemma2_to64();
            lemma_pow2_at_most_128(self.filled as nat);
            lemma_bits_value_agree(s, s2, lo, self.filled as nat);
            assert forall|k: int| 0 <= k < self.out@.len() implies #[trigger] bits_value(s, 8 * k, 8)
                == bits_value(s2, 8 * k, 8) by {
                lemma_bits_value_agree(s, s2, 8 * k, 8);
            }
        }
        self.acc = self.acc * 2 + if bit { 1u8 } else { 0u8 };
        self.filled = self.filled + 1;
        self.bits = Ghost(s2);
        if self.filled == 8 {
            self.out.push(self.acc);
            self.acc = 0;
            self.filled = 0;
        }
    }

    fn finish(self) -> (r: Vec<u8>)
        requires
            self.wf(),
        ensures
            r@ == pack(self.bits@),
    {
        let ghost s = self.bits@;
        let ghost lo: int = 8 * self.out@.len() as int;
        let mut out = self.out;
        if self.filled > 0 {
            let mut acc = self.acc;
            let mut filled = self.filled;
            while filled < 8
                invariant
                    0 < filled <= 8,
                    lo + filled >= s.len(),
                    acc as nat == bits_value(s, lo, filled as nat),
                decreases 8 - filled,
            {
                proof {
                    lemma_bits_value_bound(s, lo, filled as nat);
                    lemma_pow2_unfold((filled + 1) as nat);
                    lemma2_to64();
                    lemma_pow2_at_most_128(filled as nat);
                }
                acc = acc * 2;
                filled = filled + 1;
            }
            out.push(acc);
        }
        assert(out@ =~= pack(s));
        out
    }
}

/// Encodes `data` with pulse widths from `timing`: each logical bit, most
/// significant first, is `high` high sub-bits and `total - high` low ones.
pub fn encode_timed(data: u8, timing: &Timing) -> (r: Vec<u8>)
    ensures
        r@ == pack(sub_bits(data, *timing)),
        r@.len() == timing.total,
{
    let mut w = BitWriter::new();
    let mut i: u32 = 0;
    while i < 8
        invariant
            i <= 8,
            w.wf(),
            w.bits@ == sub_bits_upto(data, *timing, i as nat),
        decreases 8 - i,
    {
        let mask: u8 = 0x80u8 >> (i as u8);
        let high = timing.high_len(data & mask != 0);
        let ghost before = w.bits@;
        let ghost p = pulse(high as nat, timing.total as nat);
        let mut j: u32 = 0;
        while j < timing.total
            invariant
                j <= timing.total,
                w.wf(),
                p == pulse(high as nat, timing.total as nat),
                w.bits@ == before + p.take(j as int),
            decreases timing.total - j,
        {
            w.push(j < high);
            assert(p.take(j + 1) =~= p.take(j as int).push(j < high));
            j += 1;
        }
        assert(p.take(j as int) =~= p);
        i += 1;
    }
    proof {
        lemma_sub_bits_len(data, *timing, 8);
    }
    w.finish()
}

proof fn lemma_sub_bits_len(data: u8, t: Timing, n: nat)
    ensures
        sub_bits_upto(data, t, n).len() == n * t.total,
    decreases n,
{
    if n > 0 {
        let m = (n - 1) as nat;
        lemma_sub_bits_len(data, t, m);
        assert(pulse(high_of(t, bit_set(data, m as int)), t.total as nat).len() == t.total);
        assert(sub_bits_upto(data, t, n) == sub_bits_upto(data, t, m) + pulse(
            high_of(t, bit_set(data, m as int)),
            t.total as nat,
        ));
        assert(n * t.total == m * t.total + t.total) by (nonlinear_arith)
            requires n == m + 1;
    } else {
        assert(n * t.total == 0) by (nonlinear_arith)
            requires n == 0;
    }
}

proof fn lemma_count_high_concat(a: Seq<bool>, b: Seq<bool>)
    ensures
        count_high(a + b) == count_high(a) + count_high(b),
    decreases b.len(),
{
    if b.len() == 0 {
        assert(a + b =~= a);
    } else {
        lemma_count_high_concat(a, b.drop_last());
        assert((a + b).drop_last() =~= a + b.drop_last());
    }
}

proof fn lemma_count_high_pulse(high: nat, total: nat)
    requires
        high <= total,
    ensures
        count_high(pulse(high, total)) == high,
    decreases total,
{
    if total > 0 {
        let shorter = if high == total { (high - 1) as nat } else { high };
        lemma_count_high_pulse(shorter, (total - 1) as nat);
        assert(pulse(high, total).drop_last() =~= pulse(shorter, (total - 1) as nat));
    }
}

proof fn lemma_count_high_uniform(data: u8, t: Timing, n: nat, high: nat)
    requires
        t.wf(),
        high <= t.total,
        forall|i: int| 0 <= i < n ==> high_of(t, #[trigger] bit_set(data, i)) == high,
    ensures
        count_high(sub_bits_upto(data, t, n)) == n * high,
    decreases n,
{
    if n == 0 {
        assert(n * high == 0) by (nonlinear_arith)
            requires n == 0;
    } else {
        let m = (n - 1) as nat;
        lemma_count_high_uniform(data, t, m, high);
        assert(high_of(t, bit_set(data, m as int)) == high);
        lemma_count_high_concat(sub_bits_upto(data, t, m), pulse(high, t.total as nat));
        lemma_count_high_pulse(high, t.total as nat);
        assert(n * high == m * high + high) by (nonlinear_arith)
            requires n == m + 1;
    }
}

/// The high phases of byte `0xFF` add up to eight ones, and those of byte
/// `0x00` to eight zeros.
pub proof fn lemma_high_phase_of_extremes(t: Timing)
    requires
        t.wf(),
    ensures
        count_high(sub_bits(0xFF, t)) == 8 * t.one_high,
        count_high(sub_bits(0x00, t)) == 8 * t.zero_high,
{
    assert(forall|x: u8| x < 8 ==> #[trigger] (0xFFu8 & (0x80u8 >> x)) != 0) by (bit_vector);
    assert(forall|x: u8| #[trigger] (0x00u8 & (0x80u8 >> x)) == 0) by (bit_vector);
    assert forall|i: int| 0 <= i < 8 implies high_of(t, #[trigger] bit_set(0xFF, i))
        == t.one_high as nat by {
        assert((0xFFu8 & (0x80u8 >> (i as u8))) != 0);
    }
    assert forall|i: int| 0 <= i < 8 implies high_of(t, #[trigger] bit_set(0x00, i))
        == t.zero_high as nat by {
        assert((0x00u8 & (0x80u8 >> (i as u8))) == 0);
    }
    lemma_count_high_uniform(0xFF, t, 8, t.one_high as nat);
    lemma_count_high_uniform(0x00, t, 8, t.zero_high as nat);
}

/// Encoding depends on the byte and the timing alone: equal inputs give
/// equal output bytes.
pub proof fn lemma_encoding_deterministic(data: u8, t1: Timing, t2: Timing)
    requires
        t1 == t2,
    ensures
        pack(sub_bits(data, t1)) == pack(sub_bits(data, t2)),
{
}

proof fn lemma_sub_bits_at(data: u8, t: Timing, n: nat, j: int, m: int)
    requires
        0 <= j < n,
        0 <= m < t.total,
    ensures
        sub_bits_upto(data, t, n).len() == n * t.total,
        (j * t.total + m) < n * t.total,
        sub_bits_upto(data, t, n)[j * t.total + m] == (m < high_of(t, bit_set(data, j))),
    decreases n,
{
    lemma_sub_bits_len(data, t, n);
    let k = (n - 1) as nat;
    lemma_sub_bits_len(data, t, k);
    assert(j * t.total + m < n * t.total) by (nonlinear_arith)
        requires
            0 <= j < n,
            0 <= m < t.total,
    ;
    if j < k {
        lemma_sub_bits_at(data, t, k, j, m);
    } else {
        assert(j * t.total == k * t.total);
    }
}

/// The table byte of pair `k` of `data` is the pattern of its two logical bits.
proof fn lemma_pair_value(data: u8, k: int)
    requires
        0 <= k < 4,
    ensures
        fixed_encoding(data)[k] == pattern(
            ((if bit_set(data, 2 * k) { 2u8 } else { 0u8 }) + (if bit_set(data, 2 * k + 1) {
                1u8
            } else {
                0u8
            })) as u8,
        ),
{
    if k == 0 {
        assert(data >> 6 == (if data & (0x80u8 >> 0u8) != 0 { 2u8 } else { 0u8 }) + (if data & (
        0x80u8 >> 1u8) != 0 { 1u8 } else { 0u8 })) by (bit_vector);
    } else if k == 1 {
        assert((data >> 4) & 3 == (if data & (0x80u8 >> 2u8) != 0 { 2u8 } else { 0u8 }) + (if data
            & (0x80u8 >> 3u8) != 0 { 1u8 } else { 0u8 })) by (bit_vector);
    } else if k == 2 {
        assert((data >> 2) & 3 == (if data & (0x80u8 >> 4u8) != 0 { 2u8 } else { 0u8 }) + (if data
            & (0x80u8 >> 5u8) != 0 { 1u8 } else { 0u8 })) by (bit_vector);
    } else {
        assert(data & 3 == (if data & (0x80u8 >> 6u8) != 0 { 2u8 } else { 0u8 }) + (if data & (
        0x80u8 >> 7u8) != 0 { 1u8 } else { 0u8 })) by (bit_vector);
    }
}

/// Eight sub-bits holding two four-sub-bit pulses, of `h0` and `h1` high ones.
proof fn lemma_pair_byte(s: Seq<bool>, lo: int, h0: nat, h1: nat)
    requires
        0 <= lo,
        lo + 8 <= s.len(),
        s[lo] == (0 < h0),
        s[lo + 1] == (1 < h0),
        s[lo + 2] == (2 < h0),
        s[lo + 3] == (3 < h0),
        s[lo + 4] == (0 < h1),
        s[lo + 5] == (1 < h1),
        s[lo + 6] == (2 < h1),
        s[lo + 7] == (3 < h1),
    ensures
        bits_value(s, lo, 8) == 16 * bits_value(s, lo, 4) + (if 0 < h1 { 8nat } else { 0nat }) + (
        if 1 < h1 { 4nat } else { 0nat }) + (if 2 < h1 { 2nat } else { 0nat }) + (if 3 < h1 {
            1nat
        } else {
            0nat
        }),
        bits_value(s, lo, 4) == (if 0 < h0 { 8nat } else { 0nat }) + (if 1 < h0 { 4nat } else {
            0nat
        }) + (if 2 < h0 { 2nat } else { 0nat }) + (if 3 < h0 { 1nat } else { 0nat }),
{
    reveal_with_fuel(bits_value, 9);
}

/// At four sub-bits per logical bit, a one high for three of them and a zero
/// for one, encoding with derived pulse widths gives the table encoding.
pub proof fn lemma_table_matches_timing(t: Timing, data: u8)
    requires
        t.one_high == 3,
        t.zero_high == 1,
        t.total == 4,
    ensures
        encoding_of(Encoding::Timed(t), data) == fixed_encoding(data),
{
    let s = sub_bits(data, t);
    lemma_sub_bits_len(data, t, 8);
    let packed = pack(s);
    assert(packed.len() == 4);
    assert forall|k: int| 0 <= k < 4 implies #[trigger] packed[k] == fixed_encoding(data)[k] by {
        lemma_pair_value(data, k);
        let h0 = high_of(t, bit_set(data, 2 * k));
        let h1 = high_of(t, bit_set(data, 2 * k + 1));
        lemma_sub_bits_at(data, t, 8, 2 * k, 0);
        lemma_sub_bits_at(data, t, 8, 2 * k, 1);
        lemma_sub_bits_at(data, t, 8, 2 * k, 2);
        lemma_sub_bits_at(data, t, 8, 2 * k, 3);
        lemma_sub_bits_at(data, t, 8, 2 * k + 1, 0);
        lemma_sub_bits_at(data, t, 8, 2 * k + 1, 1);
        lemma_sub_bits_at(data, t, 8, 2 * k + 1, 2);
        lemma_sub_bits_at(data, t, 8, 2 * k + 1, 3);
        assert(8 * k == 2 * k * 4);
        assert(8 * k + 4 == (2 * k + 1) * 4);
        lemma_pair_byte(s, 8 * k, h0, h1);
    }
    assert(packed =~= fixed_encoding(data));
}

} // verus!
