//! The serial boot protocol: the loader asks a host for a program, receives
//! its entry point, length, checksum and bytes, and checks them.
use vstd::prelude::*;
use crate::crc::{crc32, crc32_spec};
use crate::dev::uart::Uart;
use crate::elf::{le_u32, le_u64, rd_u32, rd_u64};

verus! {

/// A program to run: where it starts, and its bytes.
pub struct BootData {
    pub entry: u64,
    pub data: Vec<u8>,
}

/// Why a program was refused.
#[derive(PartialEq, Eq, Structural, Debug, Clone, Copy)]
pub enum BootError {
    /// The host did not answer `GetCode` with `PutCode`.
    NoCode,
    /// The bytes do not have the checksum that came with them.
    BadChecksum,
}

/// The words of the protocol.
#[derive(PartialEq, Eq, Structural, Debug, Clone, Copy)]
pub enum BootFlags {
    BootStart,
    GetProgInfo,
    PutProgInfo,
    GetCode,
    PutCode,
    BootSuccess,
    BootError,
    BadCodeAddr,
    BadCodeCksum,
}

impl BootFlags {
    /// The word as it goes over the wire.
    pub open spec fn spec_value(self) -> u32 {
        match self {
            BootFlags::BootStart => 0xFFFF0000,
            BootFlags::GetProgInfo => 0x11223344,
            BootFlags::PutProgInfo => 0x33334444,
            BootFlags::GetCode => 0x55556666,
            BootFlags::PutCode => 0x77778888,
            BootFlags::BootSuccess => 0x9999AAAA,
            BootFlags::BootError => 0xBBBBCCCC,
            BootFlags::BadCodeAddr => 0xdeadbeef,
            BootFlags::BadCodeCksum => 0xfeedface,
        }
    }

    /// The word as it goes over the wire.
    #[verifier::when_used_as_spec(spec_value)]
    pub fn value(self) -> (r: u32)
        ensures
            r == self.spec_value(),
    {
        match self {
            BootFlags::BootStart => 0xFFFF0000,
            BootFlags::GetProgInfo => 0x11223344,
            BootFlags::PutProgInfo => 0x33334444,
            BootFlags::GetCode => 0x55556666,
            BootFlags::PutCode => 0x77778888,
            BootFlags::BootSuccess => 0x9999AAAA,
            BootFlags::BootError => 0xBBBBCCCC,
            BootFlags::BadCodeAddr => 0xdeadbeef,
            BootFlags::BadCodeCksum => 0xfeedface,
        }
    }
}

/// The four bytes of `u`, least significant first.
pub open spec fn u32_bytes(u: u32) -> Seq<u8> {
    seq![u as u8, (u >> 8u32) as u8, (u >> 16u32) as u8, (u >> 24u32) as u8]
}

/// Reading back the four bytes that `tx_u32` sends gives the word again.
pub proof fn lemma_u32_bytes_roundtrip(u: u32)
    ensures
        le_u32(u32_bytes(u), 0) == u,
{
    let b = u32_bytes(u);
    assert(b[0] == u as u8 && b[1] == (u >> 8u32) as u8 && b[2] == (u >> 16u32) as u8 && b[3] == (u
        >> 24u32) as u8);
    assert(((u as u8) as u32) | ((((u >> 8u32) as u8) as u32) << 8u32) | ((((u >> 16u32) as u8) as u32)
        << 16u32) | ((((u >> 24u32) as u8) as u32) << 24u32) == u) by (bit_vector);
}

/// Receives a little-endian `u64`.
pub fn rx_u64<U: Uart>(uart: &mut U) -> (r: u64)
    ensures
        final(uart).received().len() == old(uart).received().len() + 8,
        final(uart).received().subrange(0, old(uart).received().len() as int) == old(uart).received(),
        r == le_u64(final(uart).received(), old(uart).received().len() as int),
        final(uart).sent() == old(uart).sent(),
{
    let b0 = uart.rx();
    let b1 = uart.rx();
    let b2 = uart.rx();
    let b3 = uart.rx();
    let b4 = uart.rx();
    let b5 = uart.rx();
    let b6 = uart.rx();
    let b7 = uart.rx();
    proof {
        assert(uart.received().subrange(0, old(uart).received().len() as int) =~= old(uart).received());
    }
    (b0 as u64) | ((b1 as u64) << 8) | ((b2 as u64) << 16) | ((b3 as u64) << 24) | ((b4 as u64) << 32)
        | ((b5 as u64) << 40) | ((b6 as u64) << 48) | ((b7 as u64) << 56)
}

/// Receives a little-endian `u32`.
pub fn rx_u32<U: Uart>(uart: &mut U) -> (r: u32)
    ensures
        final(uart).received().len() == old(uart).received().len() + 4,
        final(uart).received().subrange(0, old(uart).received().len() as int) == old(uart).received(),
        r == le_u32(final(uart).received(), old(uart).received().len() as int),
        final(uart).sent() == old(uart).sent(),
{
    let b0 = uart.rx();
    let b1 = uart.rx();
    let b2 = uart.rx();
    let b3 = uart.rx();
    proof {
        assert(uart.received().subrange(0, old(uart).received().len() as int) =~= old(uart).received());
    }
    (b0 as u32) | ((b1 as u32) << 8) | ((b2 as u32) << 16) | ((b3 as u32) << 24)
}

/// Sends `u` little-endian.
pub fn tx_u32<U: Uart>(u: u32, uart: &mut U)
    ensures
        final(uart).sent() == old(uart).sent() + u32_bytes(u),
        final(uart).received() == old(uart).received(),
{
    uart.tx(u as u8);
    uart.tx((u >> 8) as u8);
    uart.tx((u >> 16) as u8);
    uart.tx((u >> 24) as u8);
    assert(uart.sent() =~= old(uart).sent() + u32_bytes(u));
}

/// The bytes of `u`, least significant first, appended to `out`.
fn push_word(out: &mut Vec<u8>, u: u32)
    ensures
        final(out)@ == old(out)@ + u32_bytes(u),
{
    out.push(u as u8);
    out.push((u >> 8) as u8);
    out.push((u >> 16) as u8);
    out.push((u >> 24) as u8);
    assert(out@ =~= old(out)@ + u32_bytes(u));
}

/// Where a transfer stands.
#[derive(PartialEq, Eq, Structural, Debug, Clone, Copy)]
pub enum Phase {
    /// Asking the host for a program, until it answers `PutProgInfo`.
    Hello,
    /// Reading the entry point, length and checksum.
    Header,
    /// Reading the host's answer to `GetCode`.
    Tag,
    /// Reading the program's bytes.
    Code,
    /// The program arrived with the right checksum.
    Done,
    /// The transfer failed.
    Failed,
}

/// A program transfer from the host, driven one received byte at a time.
///
/// The loader sends `request()` and waits; once a word has arrived it feeds
/// its bytes, and the transfer moves on when the word is `PutProgInfo`. From
/// then on every byte received is fed, and whatever `feed` returns is sent:
/// after the entry point, length and checksum, `GetCode` and the checksum;
/// after the last byte of the program, `BootSuccess`. A byte that would fail
/// the transfer (an answer other than `PutCode`, or a program whose checksum
/// does not match) is not fed: `rejects` names it and gives the reply to send,
/// `BootError` or `BadCodeCksum`, before the loader stops.
pub struct Transfer {
    pub phase: Phase,
    /// The bytes of the word or header being read.
    pub got: Vec<u8>,
    pub entry: u64,
    pub nbytes: u32,
    pub crc: u32,
    /// The program's bytes read so far.
    pub data: Vec<u8>,
    pub error: Option<BootError>,
}

impl Transfer {
    /// How many bytes the current phase reads before it acts.
    pub open spec fn want(phase: Phase) -> int {
        match phase {
            Phase::Hello => 4,
            Phase::Header => 16,
            Phase::Tag => 4,
            _ => 0,
        }
    }

    /// Well-formedness: a partial word or header is shorter than a whole one,
    /// no byte of the program is in before it is asked for, the program is not
    /// yet complete while it is being read, and an error is recorded exactly
    /// when the transfer failed.
    pub open spec fn wf(&self) -> bool {
        &&& self.got@.len() < Self::want(self.phase) || (self.phase != Phase::Hello && self.phase != Phase::Header
            && self.phase != Phase::Tag)
        &&& self.phase == Phase::Tag ==> self.data@.len() == 0
        &&& self.phase == Phase::Code ==> self.data@.len() < self.nbytes
        &&& (self.error is Some <==> self.phase == Phase::Failed)
    }

    /// Whether the transfer is over.
    pub open spec fn is_over(&self) -> bool {
        self.phase == Phase::Done || self.phase == Phase::Failed
    }

    /// The outcome of the program's bytes `data` against the checksum: the
    /// phase, the error and the reply.
    pub open spec fn finish_spec(data: Seq<u8>, crc: u32) -> (Phase, Option<BootError>, Seq<u8>) {
        if crc32_spec(data) == crc {
            (Phase::Done, None, u32_bytes(BootFlags::BootSuccess.spec_value()))
        } else {
            (Phase::Failed, Some(BootError::BadChecksum), u32_bytes(BootFlags::BadCodeCksum.spec_value()))
        }
    }

    /// A transfer that has not yet reached the host.
    pub fn new() -> (r: Transfer)
        ensures
            r.wf(),
            r.phase == Phase::Hello,
            r.got@.len() == 0,
            r.data@.len() == 0,
            r.entry == 0,
            r.nbytes == 0,
            r.crc == 0,
            r.error is None,
    {
        Transfer {
            phase: Phase::Hello,
            got: Vec::new(),
            entry: 0,
            nbytes: 0,
            crc: 0,
            data: Vec::new(),
            error: None,
        }
    }

    /// The request to send while waiting for the host: `GetProgInfo`.
    pub fn request(&self) -> (r: Vec<u8>)
        ensures
            r@ == u32_bytes(BootFlags::GetProgInfo.spec_value()),
    {
        let mut out: Vec<u8> = Vec::new();
        push_word(&mut out, BootFlags::GetProgInfo.value());
        out
    }

    /// Whether the transfer is over.
    pub fn finished(&self) -> (r: bool)
        ensures
            r == self.is_over(),
    {
        self.phase == Phase::Done || self.phase == Phase::Failed
    }

    /// Checks the program once all its bytes are in.
    fn finish(&mut self) -> (r: Vec<u8>)
        ensures
            ({
                let (ph, err, reply) = Self::finish_spec(old(self).data@, old(self).crc);
                &&& final(self).phase == ph
                &&& final(self).error == err
                &&& r@ == reply
            }),
            final(self).got == old(self).got && final(self).data == old(self).data,
            final(self).entry == old(self).entry && final(self).nbytes == old(self).nbytes
                && final(self).crc == old(self).crc,
    {
        let mut out: Vec<u8> = Vec::new();
        if crc32(self.data.as_slice()) == self.crc {
            self.phase = Phase::Done;
            self.error = None;
            push_word(&mut out, BootFlags::BootSuccess.value());
        } else {
            self.phase = Phase::Failed;
            self.error = Some(BootError::BadChecksum);
            push_word(&mut out, BootFlags::BadCodeCksum.value());
        }
        out
    }

    /// Whether taking in `b` ends the transfer in failure: the host's answer to `GetCode` is not
    /// `PutCode`, or the program's last byte arrives (or there are none) and the checksum does
    /// not match.
    pub open spec fn fails(&self, b: u8) -> bool {
        match self.phase {
            Phase::Tag => self.got@.len() + 1 == 4 && (le_u32(self.got@.push(b), 0) != BootFlags::PutCode.spec_value()
                || (self.nbytes == 0 && crc32_spec(self.data@) != self.crc)),
            Phase::Code => self.data@.len() + 1 == self.nbytes && crc32_spec(self.data@.push(b)) != self.crc,
            _ => false,
        }
    }

    /// The reply that tells the host the transfer failed on `b`: `BootError` for a wrong answer
    /// to `GetCode`, `BadCodeCksum` for a checksum that does not match.
    pub open spec fn fail_reply(&self, b: u8) -> Seq<u8> {
        if self.phase == Phase::Tag && le_u32(self.got@.push(b), 0) != BootFlags::PutCode.spec_value() {
            u32_bytes(BootFlags::BootError.spec_value())
        } else {
            u32_bytes(BootFlags::BadCodeCksum.spec_value())
        }
    }

    /// Whether `b` would end the transfer in failure, and if so the reply to send before the
    /// loader stops.
    pub fn rejects(&self, b: u8) -> (r: Option<Vec<u8>>)
        requires
            self.wf(),
        ensures
            r is Some <==> self.fails(b),
            r matches Some(v) ==> v@ == self.fail_reply(b),
    {
        match self.phase {
            Phase::Tag => {
                if self.got.len() != 3 {
                    return None;
                }
                let mut g: Vec<u8> = Vec::new();
                g.push(self.got[0]);
                g.push(self.got[1]);
                g.push(self.got[2]);
                g.push(b);
                assert(g@ =~= self.got@.push(b));
                let tag = rd_u32(g.as_slice(), 0);
                let mut out: Vec<u8> = Vec::new();
                if tag != BootFlags::PutCode.value() {
                    push_word(&mut out, BootFlags::BootError.value());
                    return Some(out);
                }
                if self.nbytes == 0 && crc32(self.data.as_slice()) != self.crc {
                    push_word(&mut out, BootFlags::BadCodeCksum.value());
                    return Some(out);
                }
                None
            },
            Phase::Code => {
                if (self.data.len() as u64) + 1 != (self.nbytes as u64) {
                    return None;
                }
                let mut d: Vec<u8> = Vec::new();
                let mut i: usize = 0;
                while i < self.data.len()
                    invariant
                        i <= self.data@.len(),
                        d@ == self.data@.subrange(0, i as int),
                    decreases self.data@.len() - i,
                {
                    d.push(self.data[i]);
                    i += 1;
                }
                d.push(b);
                assert(d@ =~= self.data@.push(b));
                if crc32(d.as_slice()) != self.crc {
                    let mut out: Vec<u8> = Vec::new();
                    push_word(&mut out, BootFlags::BadCodeCksum.value());
                    return Some(out);
                }
                None
            },
            _ => None,
        }
    }

    /// Takes in the byte `b` from the host; returns the bytes to send back. A byte on which the
    /// transfer fails (see `rejects`) is not taken in: the loader stops there.
    pub fn feed(&mut self, b: u8) -> (r: Vec<u8>)
        requires
            old(self).wf(),
            !old(self).is_over(),
            !old(self).fails(b),
        ensures
            final(self).wf(),
            ({
                let o = *old(self);
                let g = o.got@.push(b);
                let f = *final(self);
                match o.phase {
                    Phase::Hello => if g.len() < 4 {
                        f.phase == Phase::Hello && f.got@ == g && r@.len() == 0
                    } else {
                        &&& f.phase == (if le_u32(g, 0) == BootFlags::PutProgInfo.spec_value() {
                            Phase::Header
                        } else {
                            Phase::Hello
                        })
                        &&& f.got@.len() == 0
                        &&& r@.len() == 0
                    },
                    Phase::Header => if g.len() < 16 {
                        f.phase == Phase::Header && f.got@ == g && r@.len() == 0
                    } else {
                        &&& f.phase == Phase::Tag
                        &&& f.got@.len() == 0
                        &&& f.entry == le_u64(g, 0)
                        &&& f.nbytes == le_u32(g, 8)
                        &&& f.crc == le_u32(g, 12)
                        &&& f.data@.len() == 0
                        &&& r@ == u32_bytes(BootFlags::GetCode.spec_value()) + u32_bytes(le_u32(g, 12))
                    },
                    Phase::Tag => if g.len() < 4 {
                        f.phase == Phase::Tag && f.got@ == g && r@.len() == 0 && f.nbytes == o.nbytes
                            && f.crc == o.crc && f.entry == o.entry && f.data == o.data
                    } else if le_u32(g, 0) != BootFlags::PutCode.spec_value() {
                        &&& f.phase == Phase::Failed
                        &&& f.error == Some(BootError::NoCode)
                        &&& r@ == u32_bytes(BootFlags::BootError.spec_value())
                    } else if o.nbytes == 0 {
                        let (ph, err, reply) = Self::finish_spec(o.data@, o.crc);
                        &&& f.phase == ph && f.error == err && r@ == reply
                        &&& f.entry == o.entry && f.data == o.data
                    } else {
                        &&& f.phase == Phase::Code
                        &&& f.got@.len() == 0
                        &&& r@.len() == 0
                        &&& f.entry == o.entry && f.nbytes == o.nbytes && f.crc == o.crc && f.data == o.data
                    },
                    _ => {
                        let d = o.data@.push(b);
                        &&& f.data@ == d
                        &&& f.entry == o.entry && f.nbytes == o.nbytes && f.crc == o.crc
                        &&& d.len() < o.nbytes ==> f.phase == Phase::Code && r@.len() == 0
                        &&& d.len() == o.nbytes ==> ({
                            let (ph, err, reply) = Self::finish_spec(d, o.crc);
                            f.phase == ph && f.error == err && r@ == reply
                        })
                    },
                }
            }),
    {
        match self.phase {
            Phase::Hello => {
                self.got.push(b);
                if self.got.len() == 4 {
                    let w = rd_u32(self.got.as_slice(), 0);
                    if w == BootFlags::PutProgInfo.value() {
                        self.phase = Phase::Header;
                    }
                    self.got = Vec::new();
                }
                Vec::new()
            },
            Phase::Header => {
                self.got.push(b);
                if self.got.len() == 16 {
                    self.entry = rd_u64(self.got.as_slice(), 0);
                    self.nbytes = rd_u32(self.got.as_slice(), 8);
                    self.crc = rd_u32(self.got.as_slice(), 12);
                    self.got = Vec::new();
                    self.data = Vec::new();
                    self.phase = Phase::Tag;
                    let mut out: Vec<u8> = Vec::new();
                    push_word(&mut out, BootFlags::GetCode.value());
                    push_word(&mut out, self.crc);
                    out
                } else {
                    Vec::new()
                }
            },
            Phase::Tag => {
                self.got.push(b);
                if self.got.len() < 4 {
                    return Vec::new();
                }
                let tag = rd_u32(self.got.as_slice(), 0);
                self.got = Vec::new();
                if tag != BootFlags::PutCode.value() {
                    self.phase = Phase::Failed;
                    self.error = Some(BootError::NoCode);
                    let mut out: Vec<u8> = Vec::new();
                    push_word(&mut out, BootFlags::BootError.value());
                    out
                } else if self.nbytes == 0 {
                    self.finish()
                } else {
                    self.phase = Phase::Code;
                    Vec::new()
                }
            },
            _ => {
                self.data.push(b);
                if (self.data.len() as u64) < (self.nbytes as u64) {
                    Vec::new()
                } else {
                    self.finish()
                }
            },
        }
    }

    /// The program, once the transfer is over: it, or why it failed.
    pub fn result(self) -> (r: Result<BootData, BootError>)
        requires
            self.wf(),
            self.is_over(),
        ensures
            self.phase == Phase::Done ==> (r matches Ok(d) && d.entry == self.entry && d.data@ == self.data@),
            self.phase == Phase::Failed ==> r == Err::<BootData, BootError>(self.error.unwrap()),
    {
        match self.error {
            Some(e) => Err(e),
            None => Ok(BootData { entry: self.entry, data: self.data }),
        }
    }
}

/// Checks a program that was linked in with the loader: its bytes must have
/// the checksum recorded with them.
pub fn unpack(entry: u64, size: u32, cksum: u32, data: Vec<u8>) -> (r: Result<BootData, BootError>)
    requires
        data@.len() == size,
    ensures
        crc32_spec(data@) == cksum ==> (r matches Ok(d) && d.entry == entry && d.data@ == data@),
        crc32_spec(data@) != cksum ==> r == Err::<BootData, BootError>(BootError::BadChecksum),
{
    if crc32(data.as_slice()) != cksum {
        return Err(BootError::BadChecksum);
    }
    Ok(BootData { entry, data })
}

} // verus!
