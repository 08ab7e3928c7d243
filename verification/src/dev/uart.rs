//! Serial ports.
use vstd::prelude::*;

pub mod dwapb;
pub mod mem;
pub mod virt;

verus! {

/// A serial port.
pub trait Uart {
    /// The bytes sent so far.
    spec fn sent(&self) -> Seq<u8>;

    /// The bytes received so far.
    spec fn received(&self) -> Seq<u8>;

    /// Sets the port up for `baud` bits per second.
    fn init(&mut self, baud: u32)
        ensures
            final(self).sent() == old(self).sent(),
            final(self).received() == old(self).received(),
    ;

    /// Sends the byte `b`.
    fn tx(&mut self, b: u8)
        ensures
            final(self).sent() == old(self).sent().push(b),
            final(self).received() == old(self).received(),
    ;

    /// Waits until every byte sent has gone out.
    fn tx_flush(&mut self)
        ensures
            final(self).sent() == old(self).sent(),
            final(self).received() == old(self).received(),
    ;

    /// Receives a byte, waiting for one to arrive.
    fn rx(&mut self) -> (r: u8)
        ensures
            final(self).received() == old(self).received().push(r),
            final(self).sent() == old(self).sent(),
    ;

    /// Whether no byte is waiting to be received.
    fn rx_empty(&mut self) -> (r: bool)
        ensures
            final(self).sent() == old(self).sent(),
            final(self).received() == old(self).received(),
    ;
}

/// A serial port, as the kernel uses it.
pub struct UartWrapper<T: Uart> {
    pub base: T,
}

impl<T: Uart> UartWrapper<T> {
    /// The kernel's handle on the port `base`.
    pub fn new(base: T) -> (r: Self)
        ensures
            r.base == base,
    {
        Self { base }
    }

    /// Sends the bytes of `b`, in order.
    pub fn write_bytes(&mut self, b: &[u8])
        ensures
            final(self).base.sent() == old(self).base.sent() + b@,
            final(self).base.received() == old(self).base.received(),
    {
        let mut i: usize = 0;
        while i < b.len()
            invariant
                i <= b@.len(),
                self.base.sent() == old(self).base.sent() + b@.subrange(0, i as int),
                self.base.received() == old(self).base.received(),
            decreases b@.len() - i,
        {
            self.base.tx(b[i]);
            proof {
                assert(b@.subrange(0, i + 1) == b@.subrange(0, i as int).push(b@[i as int]));
            }
            i += 1;
        }
        assert(b@.subrange(0, b@.len() as int) == b@);
    }
}

} // verus!
