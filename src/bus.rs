//! What the drivers need of an SPI peripheral, and the logged handles through
//! which they use it. Implement the traits for a HAL's SPI type.
use vstd::prelude::*;

verus! {

/// A bus that transmits a slice of words in one blocking call.
pub trait SpiWrite {
    type Error;

    /// Transmits `words`, returning once all of them are on the wire.
    fn write(&mut self, words: &[u8]) -> Result<(), Self::Error>;
}

/// A full-duplex bus driven one word at a time: every word sent clocks one in,
/// which has to be drained by `read` before the receive register overruns.
pub trait ByteExchange {
    type Error;

    /// Hands `word` to the transmitter, waiting until it is accepted.
    fn send(&mut self, word: u8) -> Result<(), Self::Error>;

    /// Takes the word last clocked in, waiting until there is one.
    fn read(&mut self) -> Result<u8, Self::Error>;
}

/// One operation on a `ByteExchange` bus.
pub enum BusOp {
    Send(u8),
    Read,
}

/// `calls`, each logged as having succeeded.
pub open spec fn succeeded<T>(calls: Seq<T>) -> Seq<(T, bool)> {
    Seq::new(calls.len(), |i: int| (calls[i], true))
}

/// After `base`, the `planned` calls ran in order, all succeeding, until one
/// failed; nothing was called after it.
pub open spec fn aborted<T>(base: Seq<(T, bool)>, planned: Seq<T>, log: Seq<(T, bool)>) -> bool {
    exists|k: int|
        0 <= k < planned.len() && log == base + succeeded(planned.take(k)) + seq![
            (planned[k], false),
        ]
}

/// A plan under way: `done` is a prefix of `planned` and has succeeded; the
/// next call `c` either succeeds, extending it, or fails, aborting the plan.
pub proof fn lemma_plan_step<T>(base: Seq<(T, bool)>, planned: Seq<T>, done: Seq<T>, c: T)
    requires
        done.push(c).is_prefix_of(planned),
    ensures
        (base + succeeded(done)).push((c, true)) == base + succeeded(done.push(c)),
        aborted(base, planned, (base + succeeded(done)).push((c, false))),
{
    let k = done.len() as int;
    assert(planned.take(k) =~= done);
    assert(planned[k] == done.push(c)[k]);
    assert((base + succeeded(done)).push((c, true)) =~= base + succeeded(done.push(c)));
    assert((base + succeeded(done)).push((c, false)) =~= base + succeeded(planned.take(k)) + seq![
        (planned[k], false),
    ]);
}

/// A `SpiWrite` bus with a record of every call: the words handed over and
/// whether the call succeeded.
pub struct WriteBus<SPI> {
    spi: SPI,
    log: Ghost<Seq<(Seq<u8>, bool)>>,
}

impl<SPI: SpiWrite> WriteBus<SPI> {
    /// The calls made so far, in order.
    pub closed spec fn log(&self) -> Seq<(Seq<u8>, bool)> {
        self.log@
    }

    pub fn new(spi: SPI) -> (r: Self)
        ensures
            r.log() == Seq::<(Seq<u8>, bool)>::empty(),
    {
        WriteBus { spi, log: Ghost(Seq::empty()) }
    }

    /// Transmits `words` in one call of the bus.
    pub fn write(&mut self, words: &[u8]) -> (r: Result<(), SPI::Error>)
        ensures
            final(self).log() == old(self).log().push((words@, r is Ok)),
    {
        let r = self.spi.write(words);
        self.log = Ghost(self.log@.push((words@, r is Ok)));
        r
    }
}

/// A `ByteExchange` bus with a record of every operation and whether it succeeded.
pub struct ExchangeBus<SPI> {
    spi: SPI,
    log: Ghost<Seq<(BusOp, bool)>>,
}

impl<SPI: ByteExchange> ExchangeBus<SPI> {
    /// The operations done so far, in order.
    pub closed spec fn log(&self) -> Seq<(BusOp, bool)> {
        self.log@
    }

    pub fn new(spi: SPI) -> (r: Self)
        ensures
            r.log() == Seq::<(BusOp, bool)>::empty(),
    {
        ExchangeBus { spi, log: Ghost(Seq::empty()) }
    }

    /// Sends `word`.
    pub fn send(&mut self, word: u8) -> (r: Result<(), SPI::Error>)
        ensures
            final(self).log() == old(self).log().push((BusOp::Send(word), r is Ok)),
    {
        let r = self.spi.send(word);
        self.log = Ghost(self.log@.push((BusOp::Send(word), r is Ok)));
        r
    }

    /// Reads back the word last clocked in.
    pub fn read(&mut self) -> (r: Result<u8, SPI::Error>)
        ensures
            final(self).log() == old(self).log().push((BusOp::Read, r is Ok)),
    {
        let r = self.spi.read();
        self.log = Ghost(self.log@.push((BusOp::Read, r is Ok)));
        r
    }
}

} // verus!
