//! A driver that renders the whole frame into a caller's buffer before sending it,
//! so that no computation runs while the bus is busy. It costs memory and time.
use vstd::prelude::*;
use vstd::slice::slice_subrange;
use core::marker::PhantomData;
use crate::bus::{SpiWrite, WriteBus, aborted, lemma_plan_step, succeeded};
use crate::color::{OrderedColors, RGB8, RGBW};
pub use crate::devices;
use crate::encoding::{Encoding, encode_fixed, fixed_encoding, latch_if, zeros};
use crate::frame::{
    RESET_LEN, lemma_rgb_payload_len, lemma_rgb_step, lemma_rgbw_payload_len, lemma_rgbw_step,
    rgb_payload, rgbw_payload,
};
use crate::pixel_order;

verus! {

/// Why a frame could not be written.
#[derive(Debug)]
pub enum Error<E> {
    /// The buffer is too small for the frame.
    OutOfBounds,
    /// The bus failed.
    Spi(E),
}

/// What a frame leaves in the buffer: the optional leading reset gap, the
/// payload, and the closing reset gap when it goes in the same transfer.
pub open spec fn rendered(pre_latch: bool, payload: Seq<u8>, single_transaction: bool) -> Seq<
    u8,
> {
    latch_if(pre_latch, RESET_LEN as nat) + payload + latch_if(single_transaction, RESET_LEN as nat)
}

/// The bus transfers of a frame: the rendered buffer, followed, unless the
/// closing reset gap went with it, by that gap one zero byte per transfer.
pub open spec fn frame_transfers(
    pre_latch: bool,
    payload: Seq<u8>,
    single_transaction: bool,
) -> Seq<Seq<u8>> {
    if single_transaction {
        seq![rendered(pre_latch, payload, true)]
    } else {
        seq![rendered(pre_latch, payload, false)] + single_zeros(RESET_LEN as nat)
    }
}

/// The first transfer of every frame is the rendered buffer.
pub proof fn lemma_first_transfer(pre_latch: bool, payload: Seq<u8>, single_transaction: bool)
    ensures
        ({
            let planned = frame_transfers(pre_latch, payload, single_transaction);
            &&& Seq::<Seq<u8>>::empty().push(
                rendered(pre_latch, payload, single_transaction),
            ).is_prefix_of(planned)
            &&& single_transaction ==> planned == seq![rendered(pre_latch, payload, true)]
            &&& !single_transaction ==> planned == seq![rendered(pre_latch, payload, false)]
                + single_zeros(RESET_LEN as nat)
        }),
{
    let planned = frame_transfers(pre_latch, payload, single_transaction);
    let first = Seq::<Seq<u8>>::empty().push(rendered(pre_latch, payload, single_transaction));
    assert(first =~= planned.subrange(0, 1));
}

/// `n` transfers of one zero byte each.
pub open spec fn single_zeros(n: nat) -> Seq<Seq<u8>> {
    Seq::new(n, |i: int| seq![0u8])
}

/// A strip driven through a `SpiWrite` bus from a prerendered buffer.
///
/// The bus should run between 2 MHz and 3.7 MHz (from 2.3 MHz for SK6812W devices).
pub struct Ws2812<'a, SPI, DEVICE = devices::Ws2812, PIXELORDER = pixel_order::GRB> {
    bus: WriteBus<SPI>,
    data: &'a mut [u8],
    index: usize,
    mosi_idle_high: bool,
    reset_single_transaction: bool,
    _device: PhantomData<DEVICE>,
    _pixel_order: PhantomData<PIXELORDER>,
}

impl<'a, SPI: SpiWrite, DEVICE, PIXELORDER> Ws2812<'a, SPI, DEVICE, PIXELORDER> {
    /// The bus calls made so far: the words handed over and whether each succeeded.
    pub closed spec fn log(&self) -> Seq<(Seq<u8>, bool)> {
        self.bus.log()
    }

    /// Whether a frame starts with a reset gap, for buses whose line idles high.
    pub closed spec fn idle_high(&self) -> bool {
        self.mosi_idle_high
    }

    /// Whether the closing reset gap goes in the same transfer as the frame.
    pub closed spec fn single_transaction(&self) -> bool {
        self.reset_single_transaction
    }

    /// Length of the caller's buffer.
    pub closed spec fn capacity(&self) -> nat {
        self.data@.len()
    }

    /// Contents of the caller's buffer.
    pub closed spec fn buffer(&self) -> Seq<u8> {
        self.data@
    }

    /// Bytes of the buffer rendered by the last frame.
    pub closed spec fn cursor(&self) -> nat {
        self.index as nat
    }

    spec fn wf(&self) -> bool {
        self.index <= self.data@.len()
    }

    /// Makes every frame start with a reset gap, as a line that idles high needs.
    pub fn set_mosi_idle_high(&mut self, on: bool)
        ensures
            final(self).idle_high() == on,
            final(self).single_transaction() == old(self).single_transaction(),
            final(self).capacity() == old(self).capacity(),
            final(self).log() == old(self).log(),
    {
        self.mosi_idle_high = on;
    }

    /// Sends the closing reset gap with the frame, instead of byte by byte after it.
    pub fn set_reset_single_transaction(&mut self, on: bool)
        ensures
            final(self).single_transaction() == on,
            final(self).idle_high() == old(self).idle_high(),
            final(self).capacity() == old(self).capacity(),
            final(self).log() == old(self).log(),
    {
        self.reset_single_transaction = on;
    }

    /// Renders the table encoding of `data` into the buffer at the cursor,
    /// leaving the rest of the buffer as it was; touches nothing when it does
    /// not fit.
    fn write_byte(&mut self, data: u8) -> (r: Result<(), Error<SPI::Error>>)
        requires
            old(self).wf(),
        ensures
            final(self).wf(),
            final(self).data@.len() == old(self).data@.len(),
            final(self).mosi_idle_high == old(self).mosi_idle_high,
            final(self).reset_single_transaction == old(self).reset_single_transaction,
            final(self).bus.log() == old(self).bus.log(),
            r is Ok <==> old(self).index + 4 <= old(self).data@.len(),
            r is Ok ==> final(self).index == old(self).index + 4 && final(self).data@ == old(
                self,
            ).data@.take(old(self).index as int) + fixed_encoding(data) + old(self).data@.skip(
                old(self).index + 4,
            ),
            r is Err ==> (r matches Err(Error::OutOfBounds)) && final(self).index == old(self).index
                && final(self).data@ == old(self).data@,
    {
        if self.data.len() - self.index < 4 {
            return Err(Error::OutOfBounds);
        }
        let encoded = encode_fixed(data);
        let ghost orig = self.data@;
        let ghost base = self.index as int;
        let mut i: usize = 0;
        while i < 4
            invariant
                i <= 4,
                base + 4 <= orig.len(),
                self.index == base + i,
                self.data@.len() == orig.len(),
                orig == old(self).data@,
                base == old(self).index,
                encoded@ == fixed_encoding(data),
                self.mosi_idle_high == old(self).mosi_idle_high,
                self.reset_single_transaction == old(self).reset_single_transaction,
                self.bus.log() == old(self).bus.log(),
                self.data@ == orig.take(base) + encoded@.take(i as int) + orig.skip(base + i),
            decreases 4 - i,
        {
            let ghost before = self.data@;
            self.data[self.index] = encoded[i];
            assert(self.data@ =~= orig.take(base) + encoded@.take(i + 1) + orig.skip(base + i + 1));
            self.index += 1;
            i += 1;
        }
        assert(encoded@.take(4) =~= encoded@);
        Ok(())
    }

    /// Renders the reset gap into the buffer at the cursor, leaving the rest of
    /// the buffer as it was; touches nothing when it does not fit.
    fn write_reset(&mut self) -> (r: Result<(), Error<SPI::Error>>)
        requires
            old(self).wf(),
        ensures
            final(self).wf(),
            final(self).data@.len() == old(self).data@.len(),
            final(self).mosi_idle_high == old(self).mosi_idle_high,
            final(self).reset_single_transaction == old(self).reset_single_transaction,
            final(self).bus.log() == old(self).bus.log(),
            r is Ok <==> old(self).index + RESET_LEN <= old(self).data@.len(),
            r is Ok ==> final(self).index == old(self).index + RESET_LEN && final(self).data@ == old(
                self,
            ).data@.take(old(self).index as int) + zeros(RESET_LEN as nat) + old(self).data@.skip(
                old(self).index + RESET_LEN,
            ),
            r is Err ==> (r matches Err(Error::OutOfBounds)) && final(self).index == old(self).index
                && final(self).data@ == old(self).data@,
    {
        if self.data.len() - self.index < RESET_LEN {
            return Err(Error::OutOfBounds);
        }
        let ghost orig = self.data@;
        let ghost base = self.index as int;
        let mut i: usize = 0;
        while i < RESET_LEN
            invariant
                i <= RESET_LEN,
                base + RESET_LEN <= orig.len(),
                self.index == base + i,
                self.data@.len() == orig.len(),
                orig == old(self).data@,
                base == old(self).index,
                self.mosi_idle_high == old(self).mosi_idle_high,
                self.reset_single_transaction == old(self).reset_single_transaction,
                self.bus.log() == old(self).bus.log(),
                self.data@ == orig.take(base) + zeros(i as nat) + orig.skip(base + i),
            decreases RESET_LEN - i,
        {
            self.data[self.index] = 0;
            assert(self.data@ =~= orig.take(base) + zeros((i + 1) as nat) + orig.skip(base + i + 1));
            self.index += 1;
            i += 1;
        }
        Ok(())
    }

    /// Sends the reset gap, one zero byte per bus call, as the transfers of
    /// `planned` after `done`, logged after `base`.
    fn send_reset(
        &mut self,
        Ghost(base): Ghost<Seq<(Seq<u8>, bool)>>,
        Ghost(planned): Ghost<Seq<Seq<u8>>>,
        Ghost(done): Ghost<Seq<Seq<u8>>>,
    ) -> (r: Result<(), SPI::Error>)
        requires
            old(self).wf(),
            old(self).bus.log() == base + succeeded(done),
            planned == done + single_zeros(RESET_LEN as nat),
        ensures
            final(self).wf(),
            final(self).data@ == old(self).data@,
            final(self).index == old(self).index,
            final(self).mosi_idle_high == old(self).mosi_idle_high,
            final(self).reset_single_transaction == old(self).reset_single_transaction,
            r is Ok ==> final(self).bus.log() == base + succeeded(planned),
            r is Err ==> aborted(base, planned, final(self).bus.log()),
    {
        let mut i: usize = 0;
        while i < RESET_LEN
            invariant
                i <= RESET_LEN,
                self.wf(),
                self.data@ == old(self).data@,
                self.index == old(self).index,
                self.mosi_idle_high == old(self).mosi_idle_high,
                self.reset_single_transaction == old(self).reset_single_transaction,
                planned == done + single_zeros(RESET_LEN as nat),
                self.bus.log() == base + succeeded(done + single_zeros(i as nat)),
            decreases RESET_LEN - i,
        {
            proof {
                let cur = done + single_zeros(i as nat);
                let next = done + single_zeros((i + 1) as nat);
                assert(cur.push(seq![0u8]) =~= next);
                assert(next =~= planned.subrange(0, next.len() as int));
                lemma_plan_step(base, planned, cur, seq![0u8]);
            }
            let word: [u8; 1] = [0];
            assert(word@ =~= seq![0u8]);
            match self.bus.write(&word) {
                Ok(()) => {},
                Err(e) => {
                    return Err(e);
                },
            }
            i += 1;
        }
        assert(done + single_zeros(RESET_LEN as nat) =~= planned);
        Ok(())
    }

    /// Sends the rendered part of the buffer in one bus call.
    fn send_data(&mut self) -> (r: Result<(), SPI::Error>)
        requires
            old(self).wf(),
        ensures
            final(self).wf(),
            final(self).data@ == old(self).data@,
            final(self).index == old(self).index,
            final(self).mosi_idle_high == old(self).mosi_idle_high,
            final(self).reset_single_transaction == old(self).reset_single_transaction,
            final(self).bus.log() == old(self).bus.log().push(
                (old(self).data@.take(old(self).index as int), r is Ok),
            ),
    {
        let rendered = slice_subrange(&*self.data, 0, self.index);
        assert(rendered@ =~= self.data@.take(self.index as int));
        self.bus.write(rendered)
    }

    /// Completes a frame whose leading gap and payload are rendered: renders
    /// or sends the closing gap, and sends the buffer.
    fn finish(&mut self, Ghost(payload): Ghost<Seq<u8>>) -> (r: Result<(), Error<SPI::Error>>)
        requires
            old(self).wf(),
            old(self).data@.take(old(self).index as int) == latch_if(
                old(self).mosi_idle_high,
                RESET_LEN as nat,
            ) + payload,
        ensures
            final(self).wf(),
            final(self).data@.len() == old(self).data@.len(),
            final(self).mosi_idle_high == old(self).mosi_idle_high,
            final(self).reset_single_transaction == old(self).reset_single_transaction,
            (r matches Err(Error::OutOfBounds)) <==> rendered(
                old(self).mosi_idle_high,
                payload,
                old(self).reset_single_transaction,
            ).len() > old(self).data@.len(),
            (r matches Err(Error::OutOfBounds)) ==> final(self).bus.log() == old(self).bus.log(),
            !(r matches Err(Error::OutOfBounds)) ==> final(self).index == rendered(
                old(self).mosi_idle_high,
                payload,
                old(self).reset_single_transaction,
            ).len() && final(self).data@.take(final(self).index as int) == rendered(
                old(self).mosi_idle_high,
                payload,
                old(self).reset_single_transaction,
            ),
            r is Ok ==> final(self).bus.log() == old(self).bus.log() + succeeded(
                frame_transfers(
                    old(self).mosi_idle_high,
                    payload,
                    old(self).reset_single_transaction,
                ),
            ),
            (r matches Err(Error::Spi(_))) ==> aborted(
                old(self).bus.log(),
                frame_transfers(
                    old(self).mosi_idle_high,
                    payload,
                    old(self).reset_single_transaction,
                ),
                final(self).bus.log(),
            ),
    {
        let ghost pre = self.mosi_idle_high;
        let ghost single = self.reset_single_transaction;
        let ghost planned = frame_transfers(pre, payload, single);
        let ghost base = self.bus.log();
        let ghost first = rendered(pre, payload, single);
        if self.reset_single_transaction {
            if self.write_reset().is_err() {
                return Err(Error::OutOfBounds);
            }
        }
        assert(self.data@.take(self.index as int) =~= first);
        proof {
            lemma_first_transfer(pre, payload, single);
            lemma_plan_step(base, planned, Seq::<Seq<u8>>::empty(), first);
            assert(base + succeeded(Seq::<Seq<u8>>::empty()) =~= base);
        }
        match self.send_data() {
            Ok(()) => {},
            Err(e) => {
                return Err(Error::Spi(e));
            },
        }
        let ghost done = Seq::<Seq<u8>>::empty().push(first);
        if !self.reset_single_transaction {
            match self.send_reset(Ghost(base), Ghost(planned), Ghost(done)) {
                Ok(()) => {},
                Err(e) => {
                    return Err(Error::Spi(e));
                },
            }
        } else {
            assert(done =~= planned);
        }
        Ok(())
    }
}

impl<'a, SPI: SpiWrite, PIXELORDER: OrderedColors> Ws2812<'a, SPI, devices::Ws2812, PIXELORDER> {
    /// A driver for WS2812 devices on `spi`, rendering into `data`.
    ///
    /// A frame of `n` pixels takes `12 * n` bytes of `data`, plus `RESET_LEN`
    /// with a leading reset gap, plus `RESET_LEN` when the closing gap goes in
    /// the same transfer.
    pub fn new(spi: SPI, data: &'a mut [u8]) -> (r: Self)
        ensures
            r.log() == Seq::<(Seq<u8>, bool)>::empty(),
            r.capacity() == old(data)@.len(),
            r.buffer() == old(data)@,
            r.cursor() == 0,
            !r.idle_high(),
            !r.single_transaction(),
    {
        Ws2812 {
            bus: WriteBus::new(spi),
            data,
            index: 0,
            mosi_idle_high: false,
            reset_single_transaction: false,
            _device: PhantomData,
            _pixel_order: PhantomData,
        }
    }

    /// Renders one frame, channels in `PIXELORDER`, into the buffer and sends it.
    /// Fails with `OutOfBounds`, before any bus call, when the buffer is too
    /// small. A bus error ends the frame at once.
    pub fn write(&mut self, colors: &[RGB8]) -> (r: Result<(), Error<SPI::Error>>)
        ensures
            final(self).capacity() == old(self).capacity(),
            final(self).idle_high() == old(self).idle_high(),
            final(self).single_transaction() == old(self).single_transaction(),
            (r matches Err(Error::OutOfBounds)) <==> rendered(
                old(self).idle_high(),
                rgb_payload::<PIXELORDER>(colors@),
                old(self).single_transaction(),
            ).len() > old(self).capacity(),
            (r matches Err(Error::OutOfBounds)) ==> final(self).log() == old(self).log(),
            !(r matches Err(Error::OutOfBounds)) ==> final(self).cursor() == rendered(
                old(self).idle_high(),
                rgb_payload::<PIXELORDER>(colors@),
                old(self).single_transaction(),
            ).len() && final(self).buffer().take(final(self).cursor() as int) == rendered(
                old(self).idle_high(),
                rgb_payload::<PIXELORDER>(colors@),
                old(self).single_transaction(),
            ),
            r is Ok ==> final(self).log() == old(self).log() + succeeded(
                frame_transfers(
                    old(self).idle_high(),
                    rgb_payload::<PIXELORDER>(colors@),
                    old(self).single_transaction(),
                ),
            ),
            (r matches Err(Error::Spi(_))) ==> aborted(
                old(self).log(),
                frame_transfers(
                    old(self).idle_high(),
                    rgb_payload::<PIXELORDER>(colors@),
                    old(self).single_transaction(),
                ),
                final(self).log(),
            ),
    {
        let ghost payload = rgb_payload::<PIXELORDER>(colors@);
        proof {
            lemma_rgb_payload_len::<PIXELORDER>(colors@);
        }
        self.index = 0;
        if self.mosi_idle_high {
            if self.write_reset().is_err() {
                return Err(Error::OutOfBounds);
            }
        }
        assert(self.data@.take(self.index as int) =~= latch_if(
            self.mosi_idle_high,
            RESET_LEN as nat,
        ) + rgb_payload::<PIXELORDER>(colors@.take(0)));
        let ghost lead = self.index as int;
        let mut i: usize = 0;
        while i < colors.len()
            invariant
                i <= colors.len(),
                self.wf(),
                self.data@.len() == old(self).data@.len(),
                self.mosi_idle_high == old(self).mosi_idle_high,
                self.reset_single_transaction == old(self).reset_single_transaction,
                self.bus.log() == old(self).bus.log(),
                lead == latch_if(self.mosi_idle_high, RESET_LEN as nat).len(),
                payload.len() == 12 * colors@.len(),
                self.index + 12 * (colors@.len() - i) <= rendered(
                    old(self).idle_high(),
                    rgb_payload::<PIXELORDER>(colors@),
                    old(self).single_transaction(),
                ).len(),
                self.index == lead + 12 * i,
                self.data@.take(self.index as int) == latch_if(
                    self.mosi_idle_high,
                    RESET_LEN as nat,
                ) + rgb_payload::<PIXELORDER>(colors@.take(i as int)),
            decreases colors.len() - i,
        {
            let ordered = PIXELORDER::order(colors[i]);
            if self.write_byte(ordered[0]).is_err() {
                return Err(Error::OutOfBounds);
            }
            if self.write_byte(ordered[1]).is_err() {
                return Err(Error::OutOfBounds);
            }
            if self.write_byte(ordered[2]).is_err() {
                return Err(Error::OutOfBounds);
            }
            proof {
                lemma_rgb_step::<PIXELORDER>(Encoding::Table, colors@, i as int);
                assert(self.data@.take(self.index as int) =~= latch_if(
                    self.mosi_idle_high,
                    RESET_LEN as nat,
                ) + rgb_payload::<PIXELORDER>(colors@.take(i + 1)));
            }
            i += 1;
        }
        assert(colors@.take(colors.len() as int) =~= colors@);
        self.finish(Ghost(payload))
    }
}

impl<'a, SPI: SpiWrite, PIXELORDER> Ws2812<'a, SPI, devices::Sk6812w, PIXELORDER> {
    /// A driver for SK6812W devices on `spi`, rendering into `data`.
    ///
    /// A frame of `n` pixels takes `16 * n` bytes of `data`, plus `RESET_LEN`
    /// with a leading reset gap, plus `RESET_LEN` when the closing gap goes in
    /// the same transfer.
    pub fn new_sk6812w(spi: SPI, data: &'a mut [u8]) -> (r: Self)
        ensures
            r.log() == Seq::<(Seq<u8>, bool)>::empty(),
            r.capacity() == old(data)@.len(),
            r.buffer() == old(data)@,
            r.cursor() == 0,
            !r.idle_high(),
            !r.single_transaction(),
    {
        Ws2812 {
            bus: WriteBus::new(spi),
            data,
            index: 0,
            mosi_idle_high: false,
            reset_single_transaction: false,
            _device: PhantomData,
            _pixel_order: PhantomData,
        }
    }

    /// Renders one frame, channels as green, red, blue, white, into the buffer
    /// and sends it. Fails with `OutOfBounds`, before sending anything, when the
    /// buffer is too small.
    pub fn write(&mut self, colors: &[RGBW]) -> (r: Result<(), Error<SPI::Error>>)
        ensures
            final(self).capacity() == old(self).capacity(),
            final(self).idle_high() == old(self).idle_high(),
            final(self).single_transaction() == old(self).single_transaction(),
            (r matches Err(Error::OutOfBounds)) <==> rendered(
                old(self).idle_high(),
                rgbw_payload(colors@),
                old(self).single_transaction(),
            ).len() > old(self).capacity(),
            (r matches Err(Error::OutOfBounds)) ==> final(self).log() == old(self).log(),
            !(r matches Err(Error::OutOfBounds)) ==> final(self).cursor() == rendered(
                old(self).idle_high(),
                rgbw_payload(colors@),
                old(self).single_transaction(),
            ).len() && final(self).buffer().take(final(self).cursor() as int) == rendered(
                old(self).idle_high(),
                rgbw_payload(colors@),
                old(self).single_transaction(),
            ),
            r is Ok ==> final(self).log() == old(self).log() + succeeded(
                frame_transfers(
                    old(self).idle_high(),
                    rgbw_payload(colors@),
                    old(self).single_transaction(),
                ),
            ),
            (r matches Err(Error::Spi(_))) ==> aborted(
                old(self).log(),
                frame_transfers(
                    old(self).idle_high(),
                    rgbw_payload(colors@),
                    old(self).single_transaction(),
                ),
                final(self).log(),
            ),
    {
        let ghost payload = rgbw_payload(colors@);
        proof {
            lemma_rgbw_payload_len(colors@);
        }
        self.index = 0;
        if self.mosi_idle_high {
            if self.write_reset().is_err() {
                return Err(Error::OutOfBounds);
            }
        }
        assert(self.data@.take(self.index as int) =~= latch_if(
            self.mosi_idle_high,
            RESET_LEN as nat,
        ) + rgbw_payload(colors@.take(0)));
        let ghost lead = self.index as int;
        let mut i: usize = 0;
        while i < colors.len()
            invariant
                i <= colors.len(),
                self.wf(),
                self.data@.len() == old(self).data@.len(),
                self.mosi_idle_high == old(self).mosi_idle_high,
                self.reset_single_transaction == old(self).reset_single_transaction,
                self.bus.log() == old(self).bus.log(),
                lead == latch_if(self.mosi_idle_high, RESET_LEN as nat).len(),
                payload.len() == 16 * colors@.len(),
                self.index + 16 * (colors@.len() - i) <= rendered(
                    old(self).idle_high(),
                    rgbw_payload(colors@),
                    old(self).single_transaction(),
                ).len(),
                self.index == lead + 16 * i,
                self.data@.take(self.index as int) == latch_if(
                    self.mosi_idle_high,
                    RESET_LEN as nat,
                ) + rgbw_payload(colors@.take(i as int)),
            decreases colors.len() - i,
        {
            let color = colors[i];
            if self.write_byte(color.g).is_err() {
                return Err(Error::OutOfBounds);
            }
            if self.write_byte(color.r).is_err() {
                return Err(Error::OutOfBounds);
            }
            if self.write_byte(color.b).is_err() {
                return Err(Error::OutOfBounds);
            }
            if self.write_byte(color.w).is_err() {
                return Err(Error::OutOfBounds);
            }
            proof {
                lemma_rgbw_step(Encoding::Table, colors@, i as int);
                assert(self.data@.take(self.index as int) =~= latch_if(
                    self.mosi_idle_high,
                    RESET_LEN as nat,
                ) + rgbw_payload(colors@.take(i + 1)));
            }
            i += 1;
        }
        assert(colors@.take(colors.len() as int) =~= colors@);
        self.finish(Ghost(payload))
    }
}

} // verus!
