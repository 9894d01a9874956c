use ws2812_spi::bus::{ByteExchange, SpiWrite};
use ws2812_spi::color::{OrderedColors, RGB8, RGBW};
use ws2812_spi::encoding::encode_fixed;
use ws2812_spi::pixel_order::{BGR, BRG, GBR, GRB, RBG, RGB};
use ws2812_spi::{devices, halfduplex, hosted, prerendered, Ws2812, RESET_LEN};

#[derive(Debug, PartialEq)]
struct BusFault;

/// Records each slice written; fails the call numbered `fail_at`.
#[derive(Default)]
struct Recorder {
    writes: Vec<Vec<u8>>,
    fail_at: Option<usize>,
    attempts: usize,
}

impl SpiWrite for &mut Recorder {
    type Error = BusFault;

    fn write(&mut self, words: &[u8]) -> Result<(), BusFault> {
        self.attempts += 1;
        if self.fail_at == Some(self.writes.len()) {
            return Err(BusFault);
        }
        self.writes.push(words.to_vec());
        Ok(())
    }
}

impl Recorder {
    fn bytes(&self) -> Vec<u8> {
        self.writes.concat()
    }
}

#[derive(Debug, Clone, Copy, PartialEq)]
enum Op {
    Send(u8),
    Read,
}

/// A full-duplex bus that records operations; fails the operation numbered `fail_at`.
#[derive(Default)]
struct Exchanger {
    ops: Vec<Op>,
    fail_at: Option<usize>,
    attempts: usize,
}

impl Exchanger {
    fn sent(&self) -> Vec<u8> {
        self.ops
            .iter()
            .filter_map(|op| match op {
                Op::Send(b) => Some(*b),
                Op::Read => None,
            })
            .collect()
    }

    fn reads(&self) -> usize {
        self.ops.iter().filter(|op| **op == Op::Read).count()
    }
}

impl ByteExchange for &mut Exchanger {
    type Error = BusFault;

    fn send(&mut self, word: u8) -> Result<(), BusFault> {
        self.attempts += 1;
        if self.fail_at == Some(self.ops.len()) {
            return Err(BusFault);
        }
        self.ops.push(Op::Send(word));
        Ok(())
    }

    fn read(&mut self) -> Result<u8, BusFault> {
        self.attempts += 1;
        if self.fail_at == Some(self.ops.len()) {
            return Err(BusFault);
        }
        self.ops.push(Op::Read);
        Ok(0)
    }
}

fn table(bytes: &[u8]) -> Vec<u8> {
    bytes.iter().flat_map(|b| encode_fixed(*b)).collect()
}

fn color(r: u8, g: u8, b: u8) -> RGB8 {
    RGB8 { r, g, b }
}

#[test]
fn pixel_orders() {
    let c = color(0x11, 0x22, 0x33);
    assert_eq!(RGB::order(c), [0x11, 0x22, 0x33]);
    assert_eq!(RBG::order(c), [0x11, 0x33, 0x22]);
    assert_eq!(GRB::order(c), [0x22, 0x11, 0x33]);
    assert_eq!(GBR::order(c), [0x22, 0x33, 0x11]);
    assert_eq!(BRG::order(c), [0x33, 0x11, 0x22]);
    assert_eq!(BGR::order(c), [0x33, 0x22, 0x11]);
}

#[test]
fn default_order_is_green_red_blue() {
    let mut bus = Recorder::default();
    let mut strip: Ws2812<&mut Recorder> = Ws2812::new(&mut bus);
    strip.write(&[color(0x11, 0x22, 0x33)]).unwrap();
    drop(strip);
    let bytes = bus.bytes();
    assert_eq!(bytes.len(), 12 + RESET_LEN);
    assert_eq!(bytes[..12], table(&[0x22, 0x11, 0x33])[..]);
    assert!(bytes[12..].iter().all(|b| *b == 0));
    // One byte per bus call.
    assert!(bus.writes.iter().all(|w| w.len() == 1));
}

#[test]
fn streaming_custom_order_and_pre_latch() {
    let mut bus = Recorder::default();
    let mut strip: Ws2812<&mut Recorder, devices::Ws2812, BGR> = Ws2812::new(&mut bus);
    strip.set_mosi_idle_high(true);
    strip.write(&[color(1, 2, 3), color(4, 5, 6)]).unwrap();
    drop(strip);
    let mut expected = vec![0u8; RESET_LEN];
    expected.extend(table(&[3, 2, 1, 6, 5, 4]));
    expected.extend(vec![0u8; RESET_LEN]);
    assert_eq!(bus.bytes(), expected);
}

#[test]
fn streaming_empty_strip_sends_reset_only() {
    let mut bus = Recorder::default();
    let mut strip: Ws2812<&mut Recorder> = Ws2812::new(&mut bus);
    strip.write(&[]).unwrap();
    drop(strip);
    assert_eq!(bus.bytes(), vec![0u8; RESET_LEN]);
}

#[test]
fn streaming_sk6812w_order() {
    let mut bus = Recorder::default();
    let mut strip: Ws2812<&mut Recorder, devices::Sk6812w> = Ws2812::new_sk6812w(&mut bus);
    strip.write(&[RGBW { r: 1, g: 2, b: 3, w: 4 }]).unwrap();
    drop(strip);
    let mut expected = table(&[2, 1, 3, 4]);
    expected.extend(vec![0u8; RESET_LEN]);
    assert_eq!(bus.bytes(), expected);
}

#[test]
fn streaming_bus_error_aborts() {
    let mut bus = Recorder { fail_at: Some(5), ..Recorder::default() };
    let mut strip: Ws2812<&mut Recorder> = Ws2812::new(&mut bus);
    assert_eq!(strip.write(&[color(1, 2, 3)]), Err(BusFault));
    drop(strip);
    assert_eq!(bus.bytes(), table(&[2, 1, 3])[..5].to_vec());
    // Nothing is tried after the failed call.
    assert_eq!(bus.attempts, 6);
}

#[test]
fn hosted_single_transfer() {
    let mut bus = Recorder::default();
    let mut strip: hosted::Ws2812<&mut Recorder> = hosted::Ws2812::new(&mut bus);
    strip.write(&[color(0x11, 0x22, 0x33), color(0, 0, 0xFF)]).unwrap();
    strip.write(&[color(0xFF, 0, 0)]).unwrap();
    drop(strip);
    assert_eq!(bus.writes.len(), 2);
    let mut first = table(&[0x22, 0x11, 0x33, 0, 0, 0xFF]);
    first.extend(vec![0u8; RESET_LEN]);
    assert_eq!(bus.writes[0], first);
    let mut second = table(&[0, 0xFF, 0]);
    second.extend(vec![0u8; RESET_LEN]);
    assert_eq!(bus.writes[1], second);
}

#[test]
fn hosted_sk6812w_with_pre_latch() {
    let mut bus = Recorder::default();
    let mut strip: hosted::Ws2812<&mut Recorder, devices::Sk6812w> =
        hosted::Ws2812::new_sk6812w(&mut bus);
    strip.set_mosi_idle_high(true);
    strip.write(&[RGBW { r: 9, g: 8, b: 7, w: 6 }]).unwrap();
    drop(strip);
    let mut expected = vec![0u8; RESET_LEN];
    expected.extend(table(&[8, 9, 7, 6]));
    expected.extend(vec![0u8; RESET_LEN]);
    assert_eq!(bus.writes, vec![expected]);
}

#[test]
fn hosted_bus_error() {
    let mut bus = Recorder { fail_at: Some(0), ..Recorder::default() };
    let mut strip: hosted::Ws2812<&mut Recorder> = hosted::Ws2812::new(&mut bus);
    assert_eq!(strip.write(&[color(1, 2, 3)]), Err(BusFault));
    drop(strip);
    assert!(bus.writes.is_empty());
    assert_eq!(bus.attempts, 1);
}

#[test]
fn prerendered_exact_buffer() {
    let mut bus = Recorder::default();
    let mut data = [0xAAu8; 24];
    let mut strip: prerendered::Ws2812<&mut Recorder> =
        prerendered::Ws2812::new(&mut bus, &mut data);
    strip.write(&[color(0x11, 0x22, 0x33), color(4, 5, 6)]).unwrap();
    drop(strip);
    assert_eq!(bus.writes.len(), 1 + RESET_LEN);
    assert_eq!(bus.writes[0], table(&[0x22, 0x11, 0x33, 5, 4, 6]));
    assert!(bus.writes[1..].iter().all(|w| *w == vec![0u8]));
}

#[test]
fn prerendered_one_byte_short() {
    let mut bus = Recorder::default();
    let mut data = [0xAAu8; 11];
    let mut strip: prerendered::Ws2812<&mut Recorder> =
        prerendered::Ws2812::new(&mut bus, &mut data);
    assert!(matches!(strip.write(&[color(1, 2, 3)]), Err(prerendered::Error::OutOfBounds)));
    drop(strip);
    assert!(bus.writes.is_empty());
}

#[test]
fn prerendered_single_transaction_one_byte_short() {
    let mut bus = Recorder::default();
    let mut data = [0u8; 12 + RESET_LEN - 1];
    let mut strip: prerendered::Ws2812<&mut Recorder> =
        prerendered::Ws2812::new(&mut bus, &mut data);
    strip.set_reset_single_transaction(true);
    assert!(matches!(strip.write(&[color(1, 2, 3)]), Err(prerendered::Error::OutOfBounds)));
    drop(strip);
    assert!(bus.writes.is_empty());
}

#[test]
fn prerendered_single_transaction_with_pre_latch() {
    let mut bus = Recorder::default();
    let mut data = [0xAAu8; 2 * RESET_LEN + 12];
    let mut strip: prerendered::Ws2812<&mut Recorder> =
        prerendered::Ws2812::new(&mut bus, &mut data);
    strip.set_reset_single_transaction(true);
    strip.set_mosi_idle_high(true);
    strip.write(&[color(7, 8, 9)]).unwrap();
    drop(strip);
    let mut expected = vec![0u8; RESET_LEN];
    expected.extend(table(&[8, 7, 9]));
    expected.extend(vec![0u8; RESET_LEN]);
    assert_eq!(bus.writes, vec![expected]);
}

#[test]
fn prerendered_sk6812w() {
    let mut bus = Recorder::default();
    let mut data = [0u8; 16];
    let mut strip: prerendered::Ws2812<&mut Recorder, devices::Sk6812w> =
        prerendered::Ws2812::new_sk6812w(&mut bus, &mut data);
    strip.write(&[RGBW { r: 1, g: 2, b: 3, w: 4 }]).unwrap();
    assert!(matches!(
        strip.write(&[RGBW { r: 1, g: 2, b: 3, w: 4 }, RGBW { r: 0, g: 0, b: 0, w: 0 }]),
        Err(prerendered::Error::OutOfBounds)
    ));
    drop(strip);
    assert_eq!(bus.writes[0], table(&[2, 1, 3, 4]));
    assert_eq!(bus.writes.len(), 1 + RESET_LEN);
}

#[test]
fn prerendered_bus_error() {
    let mut bus = Recorder { fail_at: Some(0), ..Recorder::default() };
    let mut data = [0u8; 12];
    let mut strip: prerendered::Ws2812<&mut Recorder> =
        prerendered::Ws2812::new(&mut bus, &mut data);
    assert!(matches!(strip.write(&[color(1, 2, 3)]), Err(prerendered::Error::Spi(BusFault))));
    drop(strip);
    assert_eq!(bus.attempts, 1);
}

#[test]
fn prerendered_reset_error_aborts() {
    let mut bus = Recorder { fail_at: Some(3), ..Recorder::default() };
    let mut data = [0u8; 12];
    let mut strip: prerendered::Ws2812<&mut Recorder> =
        prerendered::Ws2812::new(&mut bus, &mut data);
    assert!(matches!(strip.write(&[color(1, 2, 3)]), Err(prerendered::Error::Spi(BusFault))));
    drop(strip);
    assert_eq!(bus.writes.len(), 3);
    assert_eq!(bus.attempts, 4);
}

#[test]
fn halfduplex_three_pixels_table() {
    let mut bus = Exchanger::default();
    let colors = [color(0x11, 0x22, 0x33), color(0x44, 0x55, 0x66), color(0x77, 0x88, 0x99)];
    let mut strip: halfduplex::Ws2812<&mut Exchanger> = halfduplex::Ws2812::new(&mut bus);
    strip.write(&colors).unwrap();
    drop(strip);
    let sent = bus.sent();
    // The dummy word, 3 pixels of 3 channels of 4 words, the reset gap.
    assert_eq!(sent.len(), 1 + 3 * 3 * 4 + 140);
    // Every word sent is read back, the last one by the final drain.
    assert_eq!(bus.reads(), sent.len());
    assert_eq!(bus.ops.len(), 2 * (1 + 3 * 3 * 4 + 140));
    assert_eq!(bus.ops[0], Op::Send(0));
    assert_eq!(*bus.ops.last().unwrap(), Op::Read);
    assert_eq!(sent[1..13], table(&[0x22, 0x11, 0x33])[..]);
    assert_eq!(sent[13..37], table(&[0x55, 0x44, 0x66, 0x88, 0x77, 0x99])[..]);
    assert!(sent[37..].iter().all(|b| *b == 0));
    // Reads and sends alternate after the dummy word.
    for (k, op) in bus.ops[1..bus.ops.len() - 1].iter().enumerate() {
        assert_eq!(*op == Op::Read, k % 2 == 0);
    }
}

#[test]
fn halfduplex_timed_reset_independent_of_length() {
    for n in [0usize, 1, 5] {
        let mut bus = Exchanger::default();
        let colors = vec![color(0xFF, 0xFF, 0xFF); n];
        let mut strip: halfduplex::Ws2812<&mut Exchanger> =
            halfduplex::Ws2812::new_with_clock(&mut bus, 3_000_000).unwrap();
        strip.write(&colors).unwrap();
        drop(strip);
        let sent = bus.sent();
        // 3 MHz: four sub-bits per bit, four words per channel, 113 reset words.
        assert_eq!(sent.len(), 1 + n * 3 * 4 + 113);
        assert!(sent[1..1 + n * 12].iter().all(|b| *b == 0xEE));
        assert!(sent[1 + n * 12..].iter().all(|b| *b == 0));
    }
}

#[test]
fn halfduplex_rejects_slow_clock() {
    let mut bus = Exchanger::default();
    let strip: Result<halfduplex::Ws2812<&mut Exchanger>, _> =
        halfduplex::Ws2812::new_with_clock(&mut bus, 1_000_000);
    assert!(strip.is_err());
    drop(strip);
    assert!(bus.ops.is_empty());
}

#[test]
fn halfduplex_sk6812w_timed() {
    let mut bus = Exchanger::default();
    let mut strip: halfduplex::Ws2812<&mut Exchanger, devices::Sk6812w> =
        halfduplex::Ws2812::new_sk6812w_with_clock(&mut bus, 2_000_000).unwrap();
    strip.write(&[RGBW { r: 0, g: 0xFF, b: 0, w: 0 }]).unwrap();
    drop(strip);
    let sent = bus.sent();
    // 2 MHz: three words per channel, 75 reset words.
    assert_eq!(sent.len(), 1 + 4 * 3 + 75);
    assert_eq!(sent[1..4], [0xDB, 0x6D, 0xB6]);
    assert_eq!(sent[4..7], [0x92, 0x49, 0x24]);
}

#[test]
fn halfduplex_sk6812w_with_pre_latch() {
    let mut bus = Exchanger::default();
    let mut strip: halfduplex::Ws2812<&mut Exchanger, devices::Sk6812w> =
        halfduplex::Ws2812::new_sk6812w(&mut bus);
    strip.set_mosi_idle_high(true);
    strip.write(&[RGBW { r: 1, g: 2, b: 3, w: 4 }]).unwrap();
    drop(strip);
    let mut expected = vec![0u8; 1 + RESET_LEN];
    expected.extend(table(&[2, 1, 3, 4]));
    expected.extend(vec![0u8; RESET_LEN]);
    assert_eq!(bus.sent(), expected);
}

#[test]
fn halfduplex_bus_error_aborts() {
    let mut bus = Exchanger { fail_at: Some(3), ..Exchanger::default() };
    let mut strip: halfduplex::Ws2812<&mut Exchanger> = halfduplex::Ws2812::new(&mut bus);
    assert_eq!(strip.write(&[color(1, 2, 3)]), Err(BusFault));
    drop(strip);
    assert_eq!(bus.ops.len(), 3);
    assert_eq!(bus.attempts, 4);
}
