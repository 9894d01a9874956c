//! A driver for hosts with memory to spare (Linux and the like): the whole frame
//! is rendered into a growable buffer and handed to the bus in one call.
use vstd::prelude::*;
use core::marker::PhantomData;
use crate::bus::{SpiWrite, WriteBus};
use crate::color::{OrderedColors, RGB8, RGBW};
pub use crate::devices;
use crate::encoding::zeros;
use crate::frame::{RESET_LEN, framed, push_rgb, push_rgbw, push_zeros, rgb_payload, rgbw_payload};
use crate::pixel_order;

verus! {

/// A strip driven through a `SpiWrite` bus, one bus call per frame.
///
/// The bus should run between 2 MHz and 3.7 MHz (from 2.3 MHz for SK6812W devices).
pub struct Ws2812<SPI, DEVICE = devices::Ws2812, PIXELORDER = pixel_order::GRB> {
    bus: WriteBus<SPI>,
    data: Vec<u8>,
    mosi_idle_high: bool,
    _device: PhantomData<DEVICE>,
    _pixel_order: PhantomData<PIXELORDER>,
}

impl<SPI: SpiWrite, DEVICE, PIXELORDER> Ws2812<SPI, DEVICE, PIXELORDER> {
    /// The bus calls made so far: the words handed over and whether each succeeded.
    pub closed spec fn log(&self) -> Seq<(Seq<u8>, bool)> {
        self.bus.log()
    }

    /// Whether a frame starts with a reset gap, for buses whose line idles high.
    pub closed spec fn idle_high(&self) -> bool {
        self.mosi_idle_high
    }

    /// Makes every frame start with a reset gap, as a line that idles high needs.
    pub fn set_mosi_idle_high(&mut self, on: bool)
        ensures
            final(self).idle_high() == on,
            final(self).log() == old(self).log(),
    {
        self.mosi_idle_high = on;
    }

    /// Sends the rendered frame, closed by the reset gap, in one call.
    fn send_data(&mut self) -> (r: Result<(), SPI::Error>)
        ensures
            final(self).idle_high() == old(self).idle_high(),
            final(self).data@ == old(self).data@ + zeros(RESET_LEN as nat),
            final(self).log() == old(self).log().push((final(self).data@, r is Ok)),
    {
        push_zeros(&mut self.data, RESET_LEN);
        self.bus.write(self.data.as_slice())
    }
}

impl<SPI: SpiWrite, PIXELORDER: OrderedColors> Ws2812<SPI, devices::Ws2812, PIXELORDER> {
    /// A driver for WS2812 devices on `spi`.
    pub fn new(spi: SPI) -> (r: Self)
        ensures
            r.log() == Seq::<(Seq<u8>, bool)>::empty(),
            !r.idle_high(),
    {
        Ws2812 {
            bus: WriteBus::new(spi),
            data: Vec::new(),
            mosi_idle_high: false,
            _device: PhantomData,
            _pixel_order: PhantomData,
        }
    }

    /// Writes one frame, channels in `PIXELORDER`, as a single transfer.
    pub fn write(&mut self, colors: &[RGB8]) -> (r: Result<(), SPI::Error>)
        ensures
            final(self).idle_high() == old(self).idle_high(),
            final(self).log() == old(self).log().push(
                (framed(old(self).idle_high(), rgb_payload::<PIXELORDER>(colors@)), r is Ok),
            ),
    {
        self.data.clear();
        if self.mosi_idle_high {
            push_zeros(&mut self.data, RESET_LEN);
        }
        push_rgb::<PIXELORDER>(&mut self.data, colors);
        let r = self.send_data();
        assert(self.data@ =~= framed(self.mosi_idle_high, rgb_payload::<PIXELORDER>(colors@)));
        r
    }
}

impl<SPI: SpiWrite, PIXELORDER> Ws2812<SPI, devices::Sk6812w, PIXELORDER> {
    /// A driver for SK6812W devices on `spi`.
    pub fn new_sk6812w(spi: SPI) -> (r: Self)
        ensures
            r.log() == Seq::<(Seq<u8>, bool)>::empty(),
            !r.idle_high(),
    {
        Ws2812 {
            bus: WriteBus::new(spi),
            data: Vec::new(),
            mosi_idle_high: false,
            _device: PhantomData,
            _pixel_order: PhantomData,
        }
    }

    /// Writes one frame, channels as green, red, blue, white, as a single transfer.
    pub fn write(&mut self, colors: &[RGBW]) -> (r: Result<(), SPI::Error>)
        ensures
            final(self).idle_high() == old(self).idle_high(),
            final(self).log() == old(self).log().push(
                (framed(old(self).idle_high(), rgbw_payload(colors@)), r is Ok),
            ),
    {
        self.data.clear();
        if self.mosi_idle_high {
            push_zeros(&mut self.data, RESET_LEN);
        }
        push_rgbw(&mut self.data, colors);
        let r = self.send_data();
        assert(self.data@ =~= framed(self.mosi_idle_high, rgbw_payload(colors@)));
        r
    }
}

} // verus!
