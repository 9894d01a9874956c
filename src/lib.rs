//! Drive WS2812-class LED strips with an SPI peripheral used as a bit-stream generator.
//!
//! Each bit of a colour channel becomes a high pulse followed by a low one, shaped
//! out of SPI sub-bits. The drivers take colours, order their channels for the
//! device, encode them and hand them to the bus, followed by a reset gap that makes
//! the strip latch the frame.
use vstd::prelude::*;
use core::marker::PhantomData;
use crate::bus::{SpiWrite, WriteBus, aborted, lemma_plan_step, succeeded};
use crate::color::{OrderedColors, RGB8, RGBW};
use crate::encoding::{Encoding, encode_fixed, fixed_encoding, latch_if, zeros};
use crate::frame::{
    framed, lemma_one_byte_step, lemma_prefix_of_piece, lemma_rgb_prefix, lemma_rgb_step,
    lemma_rgbw_prefix, lemma_rgbw_step, one_byte, rgb_payload, rgbw_payload,
};

pub mod bus;
pub mod color;
pub mod devices;
pub mod encoding;
pub mod frame;
pub mod halfduplex;
pub mod hosted;
pub mod pixel_order;
pub mod prerendered;
pub mod timing;

pub use crate::frame::RESET_LEN;

verus! {

/// A strip driven one SPI byte per bus call through a `SpiWrite` bus.
///
/// The bus should run between 2 MHz and 3.7 MHz (from 2.3 MHz for SK6812W
/// devices), and the processor must keep up with it between bytes.
pub struct Ws2812<SPI, DEVICE = devices::Ws2812, PIXELORDER = pixel_order::GRB> {
    bus: WriteBus<SPI>,
    mosi_idle_high: bool,
    _device: PhantomData<DEVICE>,
    _pixel_order: PhantomData<PIXELORDER>,
}

impl<SPI: SpiWrite, DEVICE, PIXELORDER> Ws2812<SPI, DEVICE, PIXELORDER> {
    /// The bus calls made so far: the words handed over and whether each succeeded.
    pub closed spec fn log(&self) -> Seq<(Seq<u8>, bool)> {
        self.bus.log()
    }

    /// Whether a frame starts with a reset gap, for buses whose line idles high.
    pub closed spec fn idle_high(&self) -> bool {
        self.mosi_idle_high
    }

    /// Makes every frame start with a reset gap, as a line that idles high needs.
    pub fn set_mosi_idle_high(&mut self, on: bool)
        ensures
            final(self).idle_high() == on,
            final(self).log() == old(self).log(),
    {
        self.mosi_idle_high = on;
    }

    /// Writes `data` in the table encoding, one bus call per SPI byte, as the
    /// part of `frame` after `done`, which the calls logged after `base` sent.
    fn write_byte(
        &mut self,
        data: u8,
        Ghost(base): Ghost<Seq<(Seq<u8>, bool)>>,
        Ghost(frame): Ghost<Seq<u8>>,
        Ghost(done): Ghost<Seq<u8>>,
    ) -> (r: Result<(), SPI::Error>)
        requires
            old(self).bus.log() == base + succeeded(one_byte(done)),
            (done + fixed_encoding(data)).is_prefix_of(frame),
        ensures
            final(self).mosi_idle_high == old(self).mosi_idle_high,
            r is Ok ==> final(self).bus.log() == base + succeeded(
                one_byte(done + fixed_encoding(data)),
            ),
            r is Err ==> aborted(base, one_byte(frame), final(self).bus.log()),
    {
        let encoded = encode_fixed(data);
        let mut i: usize = 0;
        while i < 4
            invariant
                i <= 4,
                encoded@ == fixed_encoding(data),
                (done + encoded@).is_prefix_of(frame),
                self.mosi_idle_high == old(self).mosi_idle_high,
                self.bus.log() == base + succeeded(one_byte(done + encoded@.take(i as int))),
            decreases 4 - i,
        {
            let ghost cur = done + encoded@.take(i as int);
            proof {
                let next = done + encoded@.take(i + 1);
                assert(cur.push(encoded[i as int]) =~= next);
                assert(next =~= frame.subrange(0, next.len() as int));
                lemma_one_byte_step(cur, encoded[i as int], frame);
                lemma_plan_step(base, one_byte(frame), one_byte(cur), seq![encoded[i as int]]);
            }
            let word: [u8; 1] = [encoded[i]];
            assert(word@ =~= seq![encoded[i as int]]);
            match self.bus.write(&word) {
                Ok(()) => {},
                Err(e) => {
                    return Err(e);
                },
            }
            i += 1;
        }
        assert(encoded@.take(4) =~= encoded@);
        Ok(())
    }

    /// Holds the line low for the reset gap, one zero byte per bus call, as the
    /// part of `frame` after `done`, which the calls logged after `base` sent.
    fn reset(
        &mut self,
        Ghost(base): Ghost<Seq<(Seq<u8>, bool)>>,
        Ghost(frame): Ghost<Seq<u8>>,
        Ghost(done): Ghost<Seq<u8>>,
    ) -> (r: Result<(), SPI::Error>)
        requires
            old(self).bus.log() == base + succeeded(one_byte(done)),
            (done + zeros(RESET_LEN as nat)).is_prefix_of(frame),
        ensures
            final(self).mosi_idle_high == old(self).mosi_idle_high,
            r is Ok ==> final(self).bus.log() == base + succeeded(
                one_byte(done + zeros(RESET_LEN as nat)),
            ),
            r is Err ==> aborted(base, one_byte(frame), final(self).bus.log()),
    {
        let mut i: usize = 0;
        while i < RESET_LEN
            invariant
                i <= RESET_LEN,
                (done + zeros(RESET_LEN as nat)).is_prefix_of(frame),
                self.mosi_idle_high == old(self).mosi_idle_high,
                self.bus.log() == base + succeeded(one_byte(done + zeros(i as nat))),
            decreases RESET_LEN - i,
        {
            let ghost cur = done + zeros(i as nat);
            proof {
                let next = done + zeros((i + 1) as nat);
                assert(cur.push(0) =~= next);
                assert(next =~= frame.subrange(0, next.len() as int));
                lemma_one_byte_step(cur, 0, frame);
                lemma_plan_step(base, one_byte(frame), one_byte(cur), seq![0u8]);
            }
            let word: [u8; 1] = [0];
            assert(word@ =~= seq![0u8]);
            match self.bus.write(&word) {
                Ok(()) => {},
                Err(e) => {
                    return Err(e);
                },
            }
            i += 1;
        }
        Ok(())
    }

    /// Opens a frame `frame` whose calls are logged after `base`: the leading
    /// reset gap when the line idles high.
    fn open_frame(
        &mut self,
        Ghost(base): Ghost<Seq<(Seq<u8>, bool)>>,
        Ghost(frame): Ghost<Seq<u8>>,
        Ghost(payload): Ghost<Seq<u8>>,
    ) -> (r: Result<(), SPI::Error>)
        requires
            old(self).bus.log() == base,
            frame == framed(old(self).mosi_idle_high, payload),
        ensures
            final(self).mosi_idle_high == old(self).mosi_idle_high,
            r is Ok ==> final(self).bus.log() == base + succeeded(
                one_byte(latch_if(old(self).mosi_idle_high, RESET_LEN as nat)),
            ),
            r is Err ==> aborted(base, one_byte(frame), final(self).bus.log()),
    {
        let ghost empty = Seq::<u8>::empty();
        assert(base + succeeded(one_byte(empty)) =~= base);
        if self.mosi_idle_high {
            proof {
                let gap = zeros(RESET_LEN as nat);
                assert(empty + gap =~= frame.subrange(0, gap.len() as int));
                assert(empty + gap =~= gap);
            }
            self.reset(Ghost(base), Ghost(frame), Ghost(empty))?;
        }
        Ok(())
    }
}

impl<SPI: SpiWrite, PIXELORDER: OrderedColors> Ws2812<SPI, devices::Ws2812, PIXELORDER> {
    /// A driver for WS2812 devices on `spi`.
    pub fn new(spi: SPI) -> (r: Self)
        ensures
            r.log() == Seq::<(Seq<u8>, bool)>::empty(),
            !r.idle_high(),
    {
        Ws2812 {
            bus: WriteBus::new(spi),
            mosi_idle_high: false,
            _device: PhantomData,
            _pixel_order: PhantomData,
        }
    }

    /// Writes one frame, one byte per bus call: the colours, channels in
    /// `PIXELORDER`, then the reset gap. A bus error ends the frame at once.
    pub fn write(&mut self, colors: &[RGB8]) -> (r: Result<(), SPI::Error>)
        ensures
            final(self).idle_high() == old(self).idle_high(),
            r is Ok ==> final(self).log() == old(self).log() + succeeded(
                one_byte(framed(old(self).idle_high(), rgb_payload::<PIXELORDER>(colors@))),
            ),
            r is Err ==> aborted(
                old(self).log(),
                one_byte(framed(old(self).idle_high(), rgb_payload::<PIXELORDER>(colors@))),
                final(self).log(),
            ),
    {
        let ghost payload = rgb_payload::<PIXELORDER>(colors@);
        let ghost base = self.bus.log();
        let ghost frame = framed(self.mosi_idle_high, payload);
        let ghost start = latch_if(self.mosi_idle_high, RESET_LEN as nat);
        self.open_frame(Ghost(base), Ghost(frame), Ghost(payload))?;
        assert(colors@.take(0) =~= Seq::<RGB8>::empty());
        assert(start + rgb_payload::<PIXELORDER>(colors@.take(0)) =~= start);
        let mut i: usize = 0;
        while i < colors.len()
            invariant
                i <= colors.len(),
                self.mosi_idle_high == old(self).mosi_idle_high,
                base == old(self).bus.log(),
                payload == rgb_payload::<PIXELORDER>(colors@),
                frame == framed(self.mosi_idle_high, payload),
                start == latch_if(self.mosi_idle_high, RESET_LEN as nat),
                self.bus.log() == base + succeeded(
                    one_byte(start + rgb_payload::<PIXELORDER>(colors@.take(i as int))),
                ),
            decreases colors.len() - i,
        {
            let ordered = PIXELORDER::order(colors[i]);
            let ghost done = start + rgb_payload::<PIXELORDER>(colors@.take(i as int));
            let ghost e0 = fixed_encoding(ordered[0]);
            let ghost e1 = fixed_encoding(ordered[1]);
            let ghost e2 = fixed_encoding(ordered[2]);
            let ghost next = start + rgb_payload::<PIXELORDER>(colors@.take(i + 1));
            proof {
                lemma_rgb_step::<PIXELORDER>(Encoding::Table, colors@, i as int);
                lemma_rgb_prefix::<PIXELORDER>(Encoding::Table, colors@, i + 1);
                assert(next =~= frame.subrange(0, next.len() as int));
                assert(done + e0 + (e1 + e2) =~= next);
                lemma_prefix_of_piece(done, e0, e1 + e2, frame);
                assert(done + e0 + e1 + e2 =~= next);
                lemma_prefix_of_piece(done + e0, e1, e2, frame);
                assert(done + e0 + e1 + e2 + Seq::<u8>::empty() =~= next);
                lemma_prefix_of_piece(done + e0 + e1, e2, Seq::<u8>::empty(), frame);
            }
            self.write_byte(ordered[0], Ghost(base), Ghost(frame), Ghost(done))?;
            self.write_byte(ordered[1], Ghost(base), Ghost(frame), Ghost(done + e0))?;
            self.write_byte(ordered[2], Ghost(base), Ghost(frame), Ghost(done + e0 + e1))?;
            i += 1;
        }
        proof {
            assert(colors@.take(colors.len() as int) =~= colors@);
            assert(start + payload + zeros(RESET_LEN as nat) =~= frame);
            assert(frame =~= frame.subrange(0, frame.len() as int));
        }
        self.reset(Ghost(base), Ghost(frame), Ghost(start + payload))
    }
}

impl<SPI: SpiWrite, PIXELORDER> Ws2812<SPI, devices::Sk6812w, PIXELORDER> {
    /// A driver for SK6812W devices on `spi`.
    pub fn new_sk6812w(spi: SPI) -> (r: Self)
        ensures
            r.log() == Seq::<(Seq<u8>, bool)>::empty(),
            !r.idle_high(),
    {
        Ws2812 {
            bus: WriteBus::new(spi),
            mosi_idle_high: false,
            _device: PhantomData,
            _pixel_order: PhantomData,
        }
    }

    /// Writes one frame, one byte per bus call: the colours as green, red, blue,
    /// white, then the reset gap. A bus error ends the frame at once.
    pub fn write(&mut self, colors: &[RGBW]) -> (r: Result<(), SPI::Error>)
        ensures
            final(self).idle_high() == old(self).idle_high(),
            r is Ok ==> final(self).log() == old(self).log() + succeeded(
                one_byte(framed(old(self).idle_high(), rgbw_payload(colors@))),
            ),
            r is Err ==> aborted(
                old(self).log(),
                one_byte(framed(old(self).idle_high(), rgbw_payload(colors@))),
                final(self).log(),
            ),
    {
        let ghost payload = rgbw_payload(colors@);
        let ghost base = self.bus.log();
        let ghost frame = framed(self.mosi_idle_high, payload);
        let ghost start = latch_if(self.mosi_idle_high, RESET_LEN as nat);
        self.open_frame(Ghost(base), Ghost(frame), Ghost(payload))?;
        assert(colors@.take(0) =~= Seq::<RGBW>::empty());
        assert(start + rgbw_payload(colors@.take(0)) =~= start);
        let mut i: usize = 0;
        while i < colors.len()
            invariant
                i <= colors.len(),
                self.mosi_idle_high == old(self).mosi_idle_high,
                base == old(self).bus.log(),
                payload == rgbw_payload(colors@),
                frame == framed(self.mosi_idle_high, payload),
                start == latch_if(self.mosi_idle_high, RESET_LEN as nat),
                self.bus.log() == base + succeeded(
                    one_byte(start + rgbw_payload(colors@.take(i as int))),
                ),
            decreases colors.len() - i,
        {
            let color = colors[i];
            let ghost done = start + rgbw_payload(colors@.take(i as int));
            let ghost e0 = fixed_encoding(color.g);
            let ghost e1 = fixed_encoding(color.r);
            let ghost e2 = fixed_encoding(color.b);
            let ghost e3 = fixed_encoding(color.w);
            let ghost next = start + rgbw_payload(colors@.take(i + 1));
            proof {
                lemma_rgbw_step(Encoding::Table, colors@, i as int);
                lemma_rgbw_prefix(Encoding::Table, colors@, i + 1);
                assert(next =~= frame.subrange(0, next.len() as int));
                assert(done + e0 + (e1 + e2 + e3) =~= next);
                lemma_prefix_of_piece(done, e0, e1 + e2 + e3, frame);
                assert(done + e0 + e1 + (e2 + e3) =~= next);
                lemma_prefix_of_piece(done + e0, e1, e2 + e3, frame);
                assert(done + e0 + e1 + e2 + e3 =~= next);
                lemma_prefix_of_piece(done + e0 + e1, e2, e3, frame);
                assert(done + e0 + e1 + e2 + e3 + Seq::<u8>::empty() =~= next);
                lemma_prefix_of_piece(done + e0 + e1 + e2, e3, Seq::<u8>::empty(), frame);
            }
            self.write_byte(color.g, Ghost(base), Ghost(frame), Ghost(done))?;
            self.write_byte(color.r, Ghost(base), Ghost(frame), Ghost(done + e0))?;
            self.write_byte(color.b, Ghost(base), Ghost(frame), Ghost(done + e0 + e1))?;
            self.write_byte(color.w, Ghost(base), Ghost(frame), Ghost(done + e0 + e1 + e2))?;
            i += 1;
        }
        proof {
            assert(colors@.take(colors.len() as int) =~= colors@);
            assert(start + payload + zeros(RESET_LEN as nat) =~= frame);
            assert(frame =~= frame.subrange(0, frame.len() as int));
        }
        self.reset(Ghost(base), Ghost(frame), Ghost(start + payload))
    }
}

} // verus!
