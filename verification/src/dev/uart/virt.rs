//! The serial port of the QEMU virt machine: a transmit register.
use vstd::prelude::*;
use crate::dev::uart::Uart;

verus! {

/// The transmit register of the port, and the bytes sent and received
/// through it.
pub struct VirtUart {
    thr: u32,
    sent: Ghost<Seq<u8>>,
    received: Ghost<Seq<u8>>,
}

impl VirtUart {
    /// The value last written to the transmit register.
    pub closed spec fn thr_value(&self) -> u32 {
        self.thr
    }

    /// A port with nothing sent yet.
    pub fn new() -> (r: VirtUart)
        ensures
            r.sent() == Seq::<u8>::empty(),
            r.received() == Seq::<u8>::empty(),
            r.thr_value() == 0,
    {
        VirtUart { thr: 0, sent: Ghost(Seq::empty()), received: Ghost(Seq::empty()) }
    }
}

impl Uart for VirtUart {
    closed spec fn sent(&self) -> Seq<u8> {
        self.sent@
    }

    closed spec fn received(&self) -> Seq<u8> {
        self.received@
    }

    fn init(&mut self, _baud: u32) {
    }

    fn tx(&mut self, b: u8)
        ensures
            final(self).thr_value() == b as u32,
    {
        self.thr = b as u32;
        self.sent = Ghost(self.sent@.push(b));
    }

    fn tx_flush(&mut self) {
    }

    /// The port has no receiver: every byte reads as 0.
    fn rx(&mut self) -> (r: u8)
        ensures
            r == 0,
    {
        self.received = Ghost(self.received@.push(0));
        0
    }

    fn rx_empty(&mut self) -> (r: bool)
        ensures
            r,
    {
        true
    }
}

} // verus!
