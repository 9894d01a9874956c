//! A driver that streams the frame through a full-duplex bus one word at a time,
//! as it is encoded, with bounded memory.
//!
//! Some MCUs have a receive FIFO of a single word, which overruns when two words
//! arrive undrained. So one word is kept in flight: a dummy word goes out before
//! the frame, every later word is sent only after the previous one has been read
//! back, and the last one is read back after the frame.
use vstd::prelude::*;
use core::marker::PhantomData;
use crate::bus::{BusOp, ByteExchange, ExchangeBus, aborted, lemma_plan_step, succeeded};
use crate::color::{OrderedColors, RGB8, RGBW, rgb_channels, rgbw_channels};
pub use crate::devices;
use crate::encoding::{Encoding, encode_byte, encoded_with, encoding_of, latch_if, zeros};
use crate::frame::{
    RESET_LEN, lemma_prefix_of_piece, lemma_rgb_prefix, lemma_rgb_step, lemma_rgbw_prefix,
    lemma_rgbw_step,
};
use crate::pixel_order;
use crate::timing::{
    InvalidTiming, Timing, lemma_reset_covers_latch, spec_reset_bytes, spec_timing, supported_clock,
};

verus! {

/// Each of `words` exchanged in turn: the previous word read back, then the word sent.
pub open spec fn exchange(words: Seq<u8>) -> Seq<BusOp>
    decreases words.len(),
{
    if words.len() == 0 {
        Seq::empty()
    } else {
        exchange(words.drop_last()) + seq![BusOp::Read, BusOp::Send(words.last())]
    }
}

/// Zero bytes of the reset gap under `enc`.
pub open spec fn reset_len(enc: Encoding) -> nat {
    match enc {
        Encoding::Table => RESET_LEN as nat,
        Encoding::Timed(t) => t.reset_bytes as nat,
    }
}

/// The words of a frame: the reset gap first when `pre_latch` holds, the
/// payload, and the reset gap that makes the strip latch.
pub open spec fn stream(enc: Encoding, pre_latch: bool, payload: Seq<u8>) -> Seq<u8> {
    latch_if(pre_latch, reset_len(enc)) + payload + zeros(reset_len(enc))
}

/// The bus operations of a frame: the dummy word, the frame's words exchanged,
/// and the read of the word still in flight.
pub open spec fn frame_ops(words: Seq<u8>) -> Seq<BusOp> {
    seq![BusOp::Send(0)] + exchange(words) + seq![BusOp::Read]
}

pub proof fn lemma_exchange_concat(a: Seq<u8>, b: Seq<u8>)
    ensures
        exchange(a + b) == exchange(a) + exchange(b),
    decreases b.len(),
{
    if b.len() == 0 {
        assert(a + b =~= a);
        assert(exchange(a) + exchange(b) =~= exchange(a));
    } else {
        lemma_exchange_concat(a, b.drop_last());
        assert((a + b).drop_last() =~= a + b.drop_last());
        assert((a + b).last() == b.last());
        assert(exchange(a + b) =~= exchange(a) + exchange(b));
    }
}

/// Exchanging a prefix of some words gives a prefix of exchanging them all.
pub proof fn lemma_exchange_prefix(a: Seq<u8>, b: Seq<u8>)
    requires
        a.is_prefix_of(b),
    ensures
        exchange(a).is_prefix_of(exchange(b)),
{
    let rest = b.subrange(a.len() as int, b.len() as int);
    assert(b =~= a + rest);
    lemma_exchange_concat(a, rest);
    let e = exchange(b);
    assert(exchange(a) =~= e.subrange(0, exchange(a).len() as int));
}

/// The closing reset gap of a frame is `reset_len(enc)` zero words, whatever the
/// payload, and so whatever the length of the strip.
pub proof fn lemma_post_latch(enc: Encoding, pre_latch: bool, payload: Seq<u8>)
    ensures
        ({
            let words = stream(enc, pre_latch, payload);
            let n = reset_len(enc);
            words.len() >= n && words.subrange(words.len() - n, words.len() as int) == zeros(n)
        }),
{
    let words = stream(enc, pre_latch, payload);
    let n = reset_len(enc);
    assert(words.subrange(words.len() - n, words.len() as int) =~= zeros(n));
}

/// With pulse widths derived from a supported clock, the closing gap is the
/// timing's `reset_bytes` zero words, which last at least 300 us at that clock.
pub proof fn lemma_timed_post_latch(clock_hz: nat)
    requires
        supported_clock(clock_hz),
    ensures
        reset_len(Encoding::Timed(spec_timing(clock_hz))) == spec_reset_bytes(clock_hz),
        reset_len(Encoding::Timed(spec_timing(clock_hz))) * 8 * 10_000 >= clock_hz * 3,
{
    lemma_reset_covers_latch(clock_hz);
    assert(clock_hz < 28 * 950_000);
    assert(spec_reset_bytes(clock_hz) <= 1_000);
}

proof fn lemma_exchange_one(word: u8)
    ensures
        exchange(seq![word]) == seq![BusOp::Read, BusOp::Send(word)],
{
    let s = seq![word];
    assert(s.drop_last() =~= Seq::<u8>::empty());
    assert(s.last() == word);
    assert(exchange(s.drop_last()) == Seq::<BusOp>::empty());
    assert(exchange(s) == exchange(s.drop_last()) + seq![BusOp::Read, BusOp::Send(word)]);
    assert(exchange(s) =~= seq![BusOp::Read, BusOp::Send(word)]);
}

/// Exchanging pixel `i` of a frame `target` keeps every step a prefix of it.
proof fn lemma_rgb_pixel<PO: OrderedColors>(
    enc: Encoding,
    colors: Seq<RGB8>,
    i: int,
    lead: Seq<BusOp>,
    tail: Seq<BusOp>,
    target: Seq<BusOp>,
)
    requires
        0 <= i < colors.len(),
        target == lead + exchange(encoded_with(enc, rgb_channels::<PO>(colors))) + tail,
    ensures
        ({
            let done = lead + exchange(encoded_with(enc, rgb_channels::<PO>(colors.take(i))));
            let ch = PO::channels(colors[i]);
            let x0 = exchange(encoding_of(enc, ch[0]));
            let x1 = exchange(encoding_of(enc, ch[1]));
            let x2 = exchange(encoding_of(enc, ch[2]));
            &&& (done + x0).is_prefix_of(target)
            &&& (done + x0 + x1).is_prefix_of(target)
            &&& (done + x0 + x1 + x2).is_prefix_of(target)
            &&& done + x0 + x1 + x2 == lead + exchange(
                encoded_with(enc, rgb_channels::<PO>(colors.take(i + 1))),
            )
        }),
{
    let payload = encoded_with(enc, rgb_channels::<PO>(colors));
    let done_words = encoded_with(enc, rgb_channels::<PO>(colors.take(i)));
    let next_words = encoded_with(enc, rgb_channels::<PO>(colors.take(i + 1)));
    let done = lead + exchange(done_words);
    let ch = PO::channels(colors[i]);
    let e0 = encoding_of(enc, ch[0]);
    let e1 = encoding_of(enc, ch[1]);
    let e2 = encoding_of(enc, ch[2]);
    let x0 = exchange(e0);
    let x1 = exchange(e1);
    let x2 = exchange(e2);
    lemma_rgb_step::<PO>(enc, colors, i);
    lemma_rgb_prefix::<PO>(enc, colors, i + 1);
    lemma_exchange_prefix(next_words, payload);
    lemma_exchange_concat(done_words, e0);
    lemma_exchange_concat(done_words + e0, e1);
    lemma_exchange_concat(done_words + e0 + e1, e2);
    let next = lead + exchange(next_words);
    assert(next =~= done + x0 + x1 + x2);
    assert(next =~= target.subrange(0, next.len() as int));
    assert(done + x0 + (x1 + x2) =~= next);
    lemma_prefix_of_piece(done, x0, x1 + x2, target);
    lemma_prefix_of_piece(done + x0, x1, x2, target);
    assert(next + Seq::<BusOp>::empty() =~= next);
    lemma_prefix_of_piece(done + x0 + x1, x2, Seq::<BusOp>::empty(), target);
}

/// Exchanging four-channel pixel `i` of a frame `target` keeps every step a prefix of it.
#[verifier::rlimit(40)]
proof fn lemma_rgbw_pixel(
    enc: Encoding,
    colors: Seq<RGBW>,
    i: int,
    lead: Seq<BusOp>,
    tail: Seq<BusOp>,
    target: Seq<BusOp>,
)
    requires
        0 <= i < colors.len(),
        target == lead + exchange(encoded_with(enc, rgbw_channels(colors))) + tail,
    ensures
        ({
            let done = lead + exchange(encoded_with(enc, rgbw_channels(colors.take(i))));
            let c = colors[i];
            let x0 = exchange(encoding_of(enc, c.g));
            let x1 = exchange(encoding_of(enc, c.r));
            let x2 = exchange(encoding_of(enc, c.b));
            let x3 = exchange(encoding_of(enc, c.w));
            &&& (done + x0).is_prefix_of(target)
            &&& (done + x0 + x1).is_prefix_of(target)
            &&& (done + x0 + x1 + x2).is_prefix_of(target)
            &&& (done + x0 + x1 + x2 + x3).is_prefix_of(target)
            &&& done + x0 + x1 + x2 + x3 == lead + exchange(
                encoded_with(enc, rgbw_channels(colors.take(i + 1))),
            )
        }),
{
    let payload = encoded_with(enc, rgbw_channels(colors));
    let done_words = encoded_with(enc, rgbw_channels(colors.take(i)));
    let next_words = encoded_with(enc, rgbw_channels(colors.take(i + 1)));
    let done = lead + exchange(done_words);
    let c = colors[i];
    let e0 = encoding_of(enc, c.g);
    let e1 = encoding_of(enc, c.r);
    let e2 = encoding_of(enc, c.b);
    let e3 = encoding_of(enc, c.w);
    let x0 = exchange(e0);
    let x1 = exchange(e1);
    let x2 = exchange(e2);
    let x3 = exchange(e3);
    lemma_rgbw_step(enc, colors, i);
    lemma_rgbw_prefix(enc, colors, i + 1);
    lemma_exchange_prefix(next_words, payload);
    lemma_exchange_concat(done_words, e0);
    lemma_exchange_concat(done_words + e0, e1);
    lemma_exchange_concat(done_words + e0 + e1, e2);
    lemma_exchange_concat(done_words + e0 + e1 + e2, e3);
    let next = lead + exchange(next_words);
    assert(next =~= done + x0 + x1 + x2 + x3);
    assert(next =~= target.subrange(0, next.len() as int));
    assert(done + x0 + (x1 + x2 + x3) =~= next);
    lemma_prefix_of_piece(done, x0, x1 + x2 + x3, target);
    assert(done + x0 + x1 + (x2 + x3) =~= next);
    lemma_prefix_of_piece(done + x0, x1, x2 + x3, target);
    lemma_prefix_of_piece(done + x0 + x1, x2, x3, target);
    assert(next + Seq::<BusOp>::empty() =~= next);
    lemma_prefix_of_piece(done + x0 + x1 + x2, x3, Seq::<BusOp>::empty(), target);
}

/// A strip driven word by word through a `ByteExchange` bus.
///
/// With the table encoding the bus should run between 2 MHz and 3.7 MHz (from
/// 2.3 MHz for SK6812W devices); the `_with_clock` constructors derive an
/// encoding for other rates.
pub struct Ws2812<SPI, DEVICE = devices::Ws2812, PIXELORDER = pixel_order::GRB> {
    bus: ExchangeBus<SPI>,
    encoding: Encoding,
    mosi_idle_high: bool,
    _device: PhantomData<DEVICE>,
    _pixel_order: PhantomData<PIXELORDER>,
}

impl<SPI: ByteExchange, DEVICE, PIXELORDER> Ws2812<SPI, DEVICE, PIXELORDER> {
    /// The bus operations done so far, and whether each succeeded.
    pub closed spec fn log(&self) -> Seq<(BusOp, bool)> {
        self.bus.log()
    }

    /// Whether a frame starts with a reset gap, for buses whose line idles high.
    pub closed spec fn idle_high(&self) -> bool {
        self.mosi_idle_high
    }

    /// The encoding of channel bytes, fixed at construction.
    pub closed spec fn encoding(&self) -> Encoding {
        self.encoding
    }

    fn with_encoding(spi: SPI, encoding: Encoding) -> (r: Self)
        ensures
            r.log() == Seq::<(BusOp, bool)>::empty(),
            r.encoding() == encoding,
            !r.idle_high(),
    {
        Ws2812 {
            bus: ExchangeBus::new(spi),
            encoding,
            mosi_idle_high: false,
            _device: PhantomData,
            _pixel_order: PhantomData,
        }
    }

    /// A driver with pulse widths derived from an SPI clock of `clock_hz` Hz,
    /// or `InvalidTiming` when that clock is not supported.
    fn with_clock(spi: SPI, clock_hz: u32) -> (r: Result<Self, InvalidTiming>)
        ensures
            r is Ok <==> supported_clock(clock_hz as nat),
            r is Ok ==> r->Ok_0.log() == Seq::<(BusOp, bool)>::empty() && r->Ok_0.encoding()
                == Encoding::Timed(spec_timing(clock_hz as nat)) && !r->Ok_0.idle_high(),
    {
        match Timing::new(clock_hz) {
            Ok(timing) => Ok(Self::with_encoding(spi, Encoding::Timed(timing))),
            Err(e) => Err(e),
        }
    }

    /// Makes every frame start with a reset gap, as a line that idles high needs.
    pub fn set_mosi_idle_high(&mut self, on: bool)
        ensures
            final(self).idle_high() == on,
            final(self).encoding() == old(self).encoding(),
            final(self).log() == old(self).log(),
    {
        self.mosi_idle_high = on;
    }

    fn reset_count(&self) -> (r: usize)
        ensures
            r == reset_len(self.encoding),
    {
        match self.encoding {
            Encoding::Table => RESET_LEN,
            Encoding::Timed(t) => t.reset_bytes as usize,
        }
    }

    /// Reads back the word in flight, then sends `word`: the part of `target`
    /// after `done`, whose operations were logged after `base`.
    fn exchange_word(
        &mut self,
        word: u8,
        Ghost(base): Ghost<Seq<(BusOp, bool)>>,
        Ghost(target): Ghost<Seq<BusOp>>,
        Ghost(done): Ghost<Seq<BusOp>>,
    ) -> (r: Result<(), SPI::Error>)
        requires
            old(self).bus.log() == base + succeeded(done),
            (done + exchange(seq![word])).is_prefix_of(target),
        ensures
            final(self).encoding == old(self).encoding,
            final(self).mosi_idle_high == old(self).mosi_idle_high,
            r is Ok ==> final(self).bus.log() == base + succeeded(done + exchange(seq![word])),
            r is Err ==> aborted(base, target, final(self).bus.log()),
    {
        let ghost after_read = done.push(BusOp::Read);
        proof {
            lemma_exchange_one(word);
            assert(after_read.push(BusOp::Send(word)) =~= done + exchange(seq![word]));
            lemma_prefix_of_piece(done, seq![BusOp::Read], seq![BusOp::Send(word)], target);
            assert(done + seq![BusOp::Read] + seq![BusOp::Send(word)] =~= done + exchange(
                seq![word],
            ));
            assert(done + seq![BusOp::Read] =~= after_read);
            lemma_plan_step(base, target, done, BusOp::Read);
            lemma_plan_step(base, target, after_read, BusOp::Send(word));
        }
        match self.bus.read() {
            Ok(_) => {},
            Err(e) => {
                return Err(e);
            },
        }
        match self.bus.send(word) {
            Ok(()) => {},
            Err(e) => {
                return Err(e);
            },
        }
        Ok(())
    }

    /// Exchanges each of `words` in turn: the part of `target` after `done`.
    fn exchange_all(
        &mut self,
        words: &Vec<u8>,
        Ghost(base): Ghost<Seq<(BusOp, bool)>>,
        Ghost(target): Ghost<Seq<BusOp>>,
        Ghost(done): Ghost<Seq<BusOp>>,
    ) -> (r: Result<(), SPI::Error>)
        requires
            old(self).bus.log() == base + succeeded(done),
            (done + exchange(words@)).is_prefix_of(target),
        ensures
            final(self).encoding == old(self).encoding,
            final(self).mosi_idle_high == old(self).mosi_idle_high,
            r is Ok ==> final(self).bus.log() == base + succeeded(done + exchange(words@)),
            r is Err ==> aborted(base, target, final(self).bus.log()),
    {
        let mut i: usize = 0;
        while i < words.len()
            invariant
                i <= words.len(),
                (done + exchange(words@)).is_prefix_of(target),
                self.encoding == old(self).encoding,
                self.mosi_idle_high == old(self).mosi_idle_high,
                self.bus.log() == base + succeeded(done + exchange(words@.take(i as int))),
            decreases words.len() - i,
        {
            let ghost cur = done + exchange(words@.take(i as int));
            proof {
                let next = words@.take(i + 1);
                lemma_exchange_concat(words@.take(i as int), seq![words@[i as int]]);
                assert(next =~= words@.take(i as int) + seq![words@[i as int]]);
                assert(next =~= words@.subrange(0, next.len() as int));
                lemma_exchange_prefix(next, words@);
                let all = done + exchange(words@);
                let x = done + exchange(next);
                assert(cur + exchange(seq![words@[i as int]]) =~= x);
                assert(x =~= all.subrange(0, x.len() as int));
                assert(x =~= target.subrange(0, x.len() as int));
            }
            self.exchange_word(words[i], Ghost(base), Ghost(target), Ghost(cur))?;
            i += 1;
        }
        assert(words@.take(words.len() as int) =~= words@);
        Ok(())
    }

    /// Exchanges the encoding of channel byte `data`: the part of `target` after `done`.
    fn write_byte(
        &mut self,
        data: u8,
        Ghost(base): Ghost<Seq<(BusOp, bool)>>,
        Ghost(target): Ghost<Seq<BusOp>>,
        Ghost(done): Ghost<Seq<BusOp>>,
    ) -> (r: Result<(), SPI::Error>)
        requires
            old(self).bus.log() == base + succeeded(done),
            (done + exchange(encoding_of(old(self).encoding, data))).is_prefix_of(target),
        ensures
            final(self).encoding == old(self).encoding,
            final(self).mosi_idle_high == old(self).mosi_idle_high,
            r is Ok ==> final(self).bus.log() == base + succeeded(
                done + exchange(encoding_of(old(self).encoding, data)),
            ),
            r is Err ==> aborted(base, target, final(self).bus.log()),
    {
        let words = encode_byte(&self.encoding, data);
        self.exchange_all(&words, Ghost(base), Ghost(target), Ghost(done))
    }

    /// Exchanges the zero words of the reset gap: the part of `target` after `done`.
    fn flush(
        &mut self,
        Ghost(base): Ghost<Seq<(BusOp, bool)>>,
        Ghost(target): Ghost<Seq<BusOp>>,
        Ghost(done): Ghost<Seq<BusOp>>,
    ) -> (r: Result<(), SPI::Error>)
        requires
            old(self).bus.log() == base + succeeded(done),
            (done + exchange(zeros(reset_len(old(self).encoding)))).is_prefix_of(target),
        ensures
            final(self).encoding == old(self).encoding,
            final(self).mosi_idle_high == old(self).mosi_idle_high,
            r is Ok ==> final(self).bus.log() == base + succeeded(
                done + exchange(zeros(reset_len(old(self).encoding))),
            ),
            r is Err ==> aborted(base, target, final(self).bus.log()),
    {
        let n = self.reset_count();
        let ghost gap = zeros(n as nat);
        let mut i: usize = 0;
        while i < n
            invariant
                i <= n,
                n == reset_len(self.encoding),
                gap == zeros(n as nat),
                (done + exchange(gap)).is_prefix_of(target),
                self.encoding == old(self).encoding,
                self.mosi_idle_high == old(self).mosi_idle_high,
                self.bus.log() == base + succeeded(done + exchange(zeros(i as nat))),
            decreases n - i,
        {
            let ghost cur = done + exchange(zeros(i as nat));
            proof {
                let next = zeros((i + 1) as nat);
                lemma_exchange_concat(zeros(i as nat), seq![0u8]);
                assert(next =~= zeros(i as nat) + seq![0u8]);
                assert(next =~= gap.subrange(0, next.len() as int));
                lemma_exchange_prefix(next, gap);
                let all = done + exchange(gap);
                let x = done + exchange(next);
                assert(cur + exchange(seq![0u8]) =~= x);
                assert(x =~= all.subrange(0, x.len() as int));
                assert(x =~= target.subrange(0, x.len() as int));
            }
            self.exchange_word(0, Ghost(base), Ghost(target), Ghost(cur))?;
            i += 1;
        }
        Ok(())
    }

    /// Sends the dummy word that keeps one word in flight, and the leading
    /// reset gap when the line idles high, opening the frame with `payload`.
    fn start_frame(
        &mut self,
        Ghost(base): Ghost<Seq<(BusOp, bool)>>,
        Ghost(payload): Ghost<Seq<u8>>,
    ) -> (r: Result<(), SPI::Error>)
        requires
            old(self).bus.log() == base,
        ensures
            final(self).encoding == old(self).encoding,
            final(self).mosi_idle_high == old(self).mosi_idle_high,
            r is Ok ==> final(self).bus.log() == base + succeeded(
                seq![BusOp::Send(0)] + exchange(
                    latch_if(old(self).mosi_idle_high, reset_len(old(self).encoding)),
                ),
            ),
            r is Err ==> aborted(
                base,
                frame_ops(stream(old(self).encoding, old(self).mosi_idle_high, payload)),
                final(self).bus.log(),
            ),
    {
        let ghost enc = self.encoding;
        let ghost pre = self.mosi_idle_high;
        let ghost gap = zeros(reset_len(enc));
        let ghost lead = latch_if(pre, reset_len(enc));
        let ghost target = frame_ops(stream(enc, pre, payload));
        let ghost first = seq![BusOp::Send(0)];
        proof {
            lemma_exchange_concat(lead, payload);
            lemma_exchange_concat(lead + payload, gap);
            let rest = exchange(payload) + exchange(gap) + seq![BusOp::Read];
            assert(first + exchange(lead) + rest =~= target);
            assert(target =~= target.subrange(0, target.len() as int));
            lemma_prefix_of_piece(first, exchange(lead), rest, target);
            assert(Seq::<BusOp>::empty().push(BusOp::Send(0)) =~= first);
            lemma_plan_step(base, target, Seq::<BusOp>::empty(), BusOp::Send(0));
            assert(base + succeeded(Seq::<BusOp>::empty()) =~= base);
        }
        match self.bus.send(0) {
            Ok(()) => {},
            Err(e) => {
                return Err(e);
            },
        }
        if self.mosi_idle_high {
            self.flush(Ghost(base), Ghost(target), Ghost(first))?;
        } else {
            assert(exchange(Seq::<u8>::empty()) =~= Seq::<BusOp>::empty());
            assert(first + exchange(lead) =~= first);
        }
        Ok(())
    }

    /// Sends the closing reset gap and reads back the last word in flight,
    /// completing the frame with `payload` whose operations `done` were
    /// logged after `base`.
    fn end_frame(
        &mut self,
        Ghost(base): Ghost<Seq<(BusOp, bool)>>,
        Ghost(payload): Ghost<Seq<u8>>,
        Ghost(done): Ghost<Seq<BusOp>>,
    ) -> (r: Result<(), SPI::Error>)
        requires
            old(self).bus.log() == base + succeeded(done),
            done == seq![BusOp::Send(0)] + exchange(
                latch_if(old(self).mosi_idle_high, reset_len(old(self).encoding)),
            ) + exchange(payload),
        ensures
            final(self).encoding == old(self).encoding,
            final(self).mosi_idle_high == old(self).mosi_idle_high,
            r is Ok ==> final(self).bus.log() == base + succeeded(
                frame_ops(stream(old(self).encoding, old(self).mosi_idle_high, payload)),
            ),
            r is Err ==> aborted(
                base,
                frame_ops(stream(old(self).encoding, old(self).mosi_idle_high, payload)),
                final(self).bus.log(),
            ),
    {
        let ghost enc = self.encoding;
        let ghost pre = self.mosi_idle_high;
        let ghost lead = latch_if(pre, reset_len(enc));
        let ghost gap = zeros(reset_len(enc));
        let ghost target = frame_ops(stream(enc, pre, payload));
        proof {
            lemma_exchange_concat(lead, payload);
            lemma_exchange_concat(lead + payload, gap);
            assert(done + exchange(gap) + seq![BusOp::Read] =~= target);
            assert((done + exchange(gap)).push(BusOp::Read) =~= target);
            assert(target =~= target.subrange(0, target.len() as int));
            lemma_prefix_of_piece(done, exchange(gap), seq![BusOp::Read], target);
            lemma_plan_step(base, target, done + exchange(gap), BusOp::Read);
        }
        self.flush(Ghost(base), Ghost(target), Ghost(done))?;
        match self.bus.read() {
            Ok(_) => {},
            Err(e) => {
                return Err(e);
            },
        }
        Ok(())
    }
}

impl<SPI: ByteExchange, PIXELORDER: OrderedColors> Ws2812<SPI, devices::Ws2812, PIXELORDER> {
    /// A driver for WS2812 devices on `spi`, with the table encoding.
    pub fn new(spi: SPI) -> (r: Self)
        ensures
            r.log() == Seq::<(BusOp, bool)>::empty(),
            r.encoding() == Encoding::Table,
            !r.idle_high(),
    {
        Self::with_encoding(spi, Encoding::Table)
    }

    /// A driver for WS2812 devices on `spi`, with pulse widths derived from
    /// an SPI clock of `clock_hz` Hz; `InvalidTiming` when that clock is not supported.
    pub fn new_with_clock(spi: SPI, clock_hz: u32) -> (r: Result<Self, InvalidTiming>)
        ensures
            r is Ok <==> supported_clock(clock_hz as nat),
            r is Ok ==> r->Ok_0.log() == Seq::<(BusOp, bool)>::empty() && r->Ok_0.encoding()
                == Encoding::Timed(spec_timing(clock_hz as nat)) && !r->Ok_0.idle_high(),
    {
        Self::with_clock(spi, clock_hz)
    }

    /// Streams one frame, channels in `PIXELORDER`, then the reset gap. A bus error ends the frame at once.
    pub fn write(&mut self, colors: &[RGB8]) -> (r: Result<(), SPI::Error>)
        ensures
            final(self).encoding() == old(self).encoding(),
            final(self).idle_high() == old(self).idle_high(),
            r is Ok ==> final(self).log() == old(self).log() + succeeded(
                frame_ops(
                stream(old(self).encoding(), old(self).idle_high(), encoded_with(old(self).encoding(), rgb_channels::<PIXELORDER>(colors@))),
            ),
            ),
            r is Err ==> aborted(
                old(self).log(),
                frame_ops(
                stream(old(self).encoding(), old(self).idle_high(), encoded_with(old(self).encoding(), rgb_channels::<PIXELORDER>(colors@))),
            ),
                final(self).log(),
            ),
    {
        let ghost enc = self.encoding;
        let ghost base = self.bus.log();
        let ghost payload = encoded_with(enc, rgb_channels::<PIXELORDER>(colors@));
        let ghost target = frame_ops(stream(enc, self.mosi_idle_high, payload));
        let ghost lead = seq![BusOp::Send(0)] + exchange(
            latch_if(self.mosi_idle_high, reset_len(enc)),
        );
        let ghost tail = exchange(zeros(reset_len(enc))) + seq![BusOp::Read];
        self.start_frame(Ghost(base), Ghost(payload))?;
        proof {
            let pre_gap = latch_if(self.mosi_idle_high, reset_len(enc));
            lemma_exchange_concat(pre_gap, payload);
            lemma_exchange_concat(pre_gap + payload, zeros(reset_len(enc)));
            assert(target =~= lead + exchange(payload) + tail);
            assert(colors@.take(0) =~= colors@.take(0 as int));
            assert(exchange(encoded_with(enc, Seq::empty())) =~= Seq::<BusOp>::empty());
        }
        let mut i: usize = 0;
        while i < colors.len()
            invariant
                i <= colors.len(),
                self.encoding == enc,
                enc == old(self).encoding,
                self.mosi_idle_high == old(self).mosi_idle_high,
                base == old(self).bus.log(),
                payload == encoded_with(enc, rgb_channels::<PIXELORDER>(colors@)),
                lead == seq![BusOp::Send(0)] + exchange(
                    latch_if(self.mosi_idle_high, reset_len(enc)),
                ),
                tail == exchange(zeros(reset_len(enc))) + seq![BusOp::Read],
                target == lead + exchange(payload) + tail,
                target == frame_ops(stream(enc, old(self).mosi_idle_high, payload)),
                self.bus.log() == base + succeeded(lead + exchange(encoded_with(enc, rgb_channels::<PIXELORDER>(colors@.take(i as int))))),
            decreases colors.len() - i,
        {
            let ordered = PIXELORDER::order(colors[i]);
            let ghost done = lead + exchange(
                encoded_with(enc, rgb_channels::<PIXELORDER>(colors@.take(i as int))),
            );
            let ghost x0 = exchange(encoding_of(enc, ordered[0]));
            let ghost x1 = exchange(encoding_of(enc, ordered[1]));
            proof {
                assert(target =~= lead + exchange(payload) + tail);
                lemma_rgb_pixel::<PIXELORDER>(enc, colors@, i as int, lead, tail, target);
            }
            self.write_byte(ordered[0], Ghost(base), Ghost(target), Ghost(done))?;
            self.write_byte(ordered[1], Ghost(base), Ghost(target), Ghost(done + x0))?;
            self.write_byte(ordered[2], Ghost(base), Ghost(target), Ghost(done + x0 + x1))?;
            i += 1;
        }
        assert(colors@.take(colors.len() as int) =~= colors@);
        self.end_frame(Ghost(base), Ghost(payload), Ghost(lead + exchange(payload)))
    }
}

impl<SPI: ByteExchange, PIXELORDER> Ws2812<SPI, devices::Sk6812w, PIXELORDER> {
    /// A driver for SK6812W devices on `spi`, with the table encoding.
    pub fn new_sk6812w(spi: SPI) -> (r: Self)
        ensures
            r.log() == Seq::<(BusOp, bool)>::empty(),
            r.encoding() == Encoding::Table,
            !r.idle_high(),
    {
        Self::with_encoding(spi, Encoding::Table)
    }

    /// A driver for SK6812W devices on `spi`, with pulse widths derived from
    /// an SPI clock of `clock_hz` Hz; `InvalidTiming` when that clock is not supported.
    pub fn new_sk6812w_with_clock(spi: SPI, clock_hz: u32) -> (r: Result<Self, InvalidTiming>)
        ensures
            r is Ok <==> supported_clock(clock_hz as nat),
            r is Ok ==> r->Ok_0.log() == Seq::<(BusOp, bool)>::empty() && r->Ok_0.encoding()
                == Encoding::Timed(spec_timing(clock_hz as nat)) && !r->Ok_0.idle_high(),
    {
        Self::with_clock(spi, clock_hz)
    }

    /// Streams one frame, channels as green, red, blue, white, then the reset gap. A bus error ends the frame at once.
    pub fn write(&mut self, colors: &[RGBW]) -> (r: Result<(), SPI::Error>)
        ensures
            final(self).encoding() == old(self).encoding(),
            final(self).idle_high() == old(self).idle_high(),
            r is Ok ==> final(self).log() == old(self).log() + succeeded(
                frame_ops(
                stream(old(self).encoding(), old(self).idle_high(), encoded_with(old(self).encoding(), rgbw_channels(colors@))),
            ),
            ),
            r is Err ==> aborted(
                old(self).log(),
                frame_ops(
                stream(old(self).encoding(), old(self).idle_high(), encoded_with(old(self).encoding(), rgbw_channels(colors@))),
            ),
                final(self).log(),
            ),
    {
        let ghost enc = self.encoding;
        let ghost base = self.bus.log();
        let ghost payload = encoded_with(enc, rgbw_channels(colors@));
        let ghost target = frame_ops(stream(enc, self.mosi_idle_high, payload));
        let ghost lead = seq![BusOp::Send(0)] + exchange(
            latch_if(self.mosi_idle_high, reset_len(enc)),
        );
        let ghost tail = exchange(zeros(reset_len(enc))) + seq![BusOp::Read];
        self.start_frame(Ghost(base), Ghost(payload))?;
        proof {
            let pre_gap = latch_if(self.mosi_idle_high, reset_len(enc));
            lemma_exchange_concat(pre_gap, payload);
            lemma_exchange_concat(pre_gap + payload, zeros(reset_len(enc)));
            assert(target =~= lead + exchange(payload) + tail);
            assert(colors@.take(0) =~= colors@.take(0 as int));
            assert(exchange(encoded_with(enc, Seq::empty())) =~= Seq::<BusOp>::empty());
        }
        let mut i: usize = 0;
        while i < colors.len()
            invariant
                i <= colors.len(),
                self.encoding == enc,
                enc == old(self).encoding,
                self.mosi_idle_high == old(self).mosi_idle_high,
                base == old(self).bus.log(),
                payload == encoded_with(enc, rgbw_channels(colors@)),
                lead == seq![BusOp::Send(0)] + exchange(
                    latch_if(self.mosi_idle_high, reset_len(enc)),
                ),
                tail == exchange(zeros(reset_len(enc))) + seq![BusOp::Read],
                target == lead + exchange(payload) + tail,
                target == frame_ops(stream(enc, old(self).mosi_idle_high, payload)),
                self.bus.log() == base + succeeded(lead + exchange(encoded_with(enc, rgbw_channels(colors@.take(i as int))))),
            decreases colors.len() - i,
        {
            let color = colors[i];
            let ghost done = lead + exchange(encoded_with(enc, rgbw_channels(colors@.take(i as int))));
            let ghost x0 = exchange(encoding_of(enc, color.g));
            let ghost x1 = exchange(encoding_of(enc, color.r));
            let ghost x2 = exchange(encoding_of(enc, color.b));
            proof {
                assert(target =~= lead + exchange(payload) + tail);
                lemma_rgbw_pixel(enc, colors@, i as int, lead, tail, target);
            }
            self.write_byte(color.g, Ghost(base), Ghost(target), Ghost(done))?;
            self.write_byte(color.r, Ghost(base), Ghost(target), Ghost(done + x0))?;
            self.write_byte(color.b, Ghost(base), Ghost(target), Ghost(done + x0 + x1))?;
            self.write_byte(color.w, Ghost(base), Ghost(target), Ghost(done + x0 + x1 + x2))?;
            i += 1;
        }
        assert(colors@.take(colors.len() as int) =~= colors@);
        self.end_frame(Ghost(base), Ghost(payload), Ghost(lead + exchange(payload)))
    }
}

} // verus!
