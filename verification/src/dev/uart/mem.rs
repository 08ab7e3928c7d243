//! A serial port over memory, for running the serial protocols where there is
//! no port: what it receives is read from a buffer given in advance, and what
//! it sends is kept.
use vstd::prelude::*;
use crate::dev::uart::Uart;

verus! {

/// A port that receives the bytes of `input` in order (0 once they run out)
/// and keeps the bytes it sends.
pub struct MemUart {
    input: Vec<u8>,
    pos: usize,
    output: Vec<u8>,
    received: Ghost<Seq<u8>>,
}

impl MemUart {
    /// The bytes still to be received.
    pub closed spec fn pending(&self) -> Seq<u8> {
        if self.pos <= self.input@.len() {
            self.input@.subrange(self.pos as int, self.input@.len() as int)
        } else {
            Seq::empty()
        }
    }

    /// A port that will receive the bytes of `input`.
    pub fn new(input: Vec<u8>) -> (r: MemUart)
        ensures
            r.pending() == input@,
            r.sent() == Seq::<u8>::empty(),
            r.received() == Seq::<u8>::empty(),
    {
        let r = MemUart { input, pos: 0, output: Vec::new(), received: Ghost(Seq::empty()) };
        assert(r.pending() =~= r.input@);
        r
    }

    /// The bytes sent so far.
    pub fn output(&self) -> (r: &Vec<u8>)
        ensures
            r@ == self.sent(),
    {
        &self.output
    }
}

impl Uart for MemUart {
    closed spec fn sent(&self) -> Seq<u8> {
        self.output@
    }

    closed spec fn received(&self) -> Seq<u8> {
        self.received@
    }

    fn init(&mut self, _baud: u32) {
    }

    fn tx(&mut self, b: u8) {
        self.output.push(b);
    }

    fn tx_flush(&mut self) {
    }

    /// The next byte of the input, or 0 once it has run out.
    fn rx(&mut self) -> (r: u8)
        ensures
            old(self).pending().len() > 0 ==> r == old(self).pending()[0] && final(self).pending()
                == old(self).pending().subrange(1, old(self).pending().len() as int),
            old(self).pending().len() == 0 ==> r == 0 && final(self).pending() == old(self).pending(),
    {
        if self.pos < self.input.len() {
            let b = self.input[self.pos];
            self.pos = self.pos + 1;
            self.received = Ghost(self.received@.push(b));
            assert(self.pending() =~= old(self).pending().subrange(1, old(self).pending().len() as int));
            b
        } else {
            self.received = Ghost(self.received@.push(0));
            0
        }
    }

    /// Whether the input has run out.
    fn rx_empty(&mut self) -> (r: bool)
        ensures
            r == (old(self).pending().len() == 0),
    {
        self.pos >= self.input.len()
    }
}

} // verus!
