use rustiplix::bootloader::{rx_u32, rx_u64, tx_u32, unpack, BootData, BootError, BootFlags, Phase, Transfer};
use rustiplix::crc::crc32;
use rustiplix::dev::uart::virt::VirtUart;
use rustiplix::dev::uart::{Uart, UartWrapper};
use rustiplix::dev::uart::mem::MemUart;

fn word(u: u32) -> Vec<u8> {
    u.to_le_bytes().to_vec()
}

fn announce(entry: u64, code: &[u8], crc: u32, tag: u32) -> Vec<u8> {
    let mut v = entry.to_le_bytes().to_vec();
    v.extend(word(code.len() as u32));
    v.extend(word(crc));
    v.extend(word(tag));
    v.extend_from_slice(code);
    v
}

#[test]
fn flags_have_their_wire_values() {
    assert_eq!(BootFlags::GetProgInfo.value(), 0x11223344);
    assert_eq!(BootFlags::PutProgInfo.value(), 0x33334444);
    assert_eq!(BootFlags::GetCode.value(), 0x55556666);
    assert_eq!(BootFlags::PutCode.value(), 0x77778888);
    assert_eq!(BootFlags::BootSuccess.value(), 0x9999AAAA);
    assert_eq!(BootFlags::BootError.value(), 0xBBBBCCCC);
    assert_eq!(BootFlags::BadCodeCksum.value(), 0xfeedface);
}

#[test]
fn words_are_little_endian() {
    let mut u = MemUart::new(vec![1, 2, 3, 4, 5, 6, 7, 8, 0x44, 0x33, 0x22, 0x11]);
    assert_eq!(rx_u64(&mut u), 0x0807_0605_0403_0201);
    assert_eq!(rx_u32(&mut u), 0x1122_3344);
    tx_u32(0xdead_beef, &mut u);
    assert_eq!(*u.output(), vec![0xef, 0xbe, 0xad, 0xde]);
}

#[test]
fn sent_word_reads_back() {
    let mut a = MemUart::new(vec![]);
    tx_u32(0x1234_5678, &mut a);
    let mut b = MemUart::new(a.output().clone());
    assert_eq!(rx_u32(&mut b), 0x1234_5678);
}

/// Feeds `input` to a transfer, as the loader does once the host has answered;
/// returns the program (or `None` when a byte was rejected), what was sent back,
/// and the bytes left unread.
fn run(input: &[u8]) -> (Option<BootData>, Vec<u8>, usize) {
    let mut t = Transfer::new();
    for b in word(0x3333_4444) {
        assert!(t.feed(b).is_empty());
    }
    assert!(t.phase == Phase::Header);
    let mut sent = vec![];
    let mut i = 0;
    while !t.finished() {
        if let Some(reply) = t.rejects(input[i]) {
            sent.extend(reply);
            return (None, sent, input.len() - i - 1);
        }
        sent.extend(t.feed(input[i]));
        i += 1;
    }
    (t.result().ok(), sent, input.len() - i)
}

#[test]
fn handshake_waits_for_put_prog_info() {
    let mut t = Transfer::new();
    assert_eq!(t.request(), word(0x1122_3344));
    for b in word(0x1111_1111) {
        assert!(t.feed(b).is_empty());
    }
    assert!(t.phase == Phase::Hello);
    for b in word(0x3333_4444) {
        assert!(t.feed(b).is_empty());
    }
    assert!(t.phase == Phase::Header);
}

#[test]
fn good_program_is_received() {
    let code = b"\x13\x00\x00\x00\x6f\x00\x00\x00";
    let crc = crc32(code);
    let (r, sent, left) = run(&announce(0x8020_0000, code, crc, 0x7777_8888));
    let boot = r.unwrap();
    assert_eq!(boot.entry, 0x8020_0000);
    assert_eq!(boot.data, code.to_vec());
    let mut expect = word(0x5555_6666);
    expect.extend(word(crc));
    expect.extend(word(0x9999_AAAA));
    assert_eq!(sent, expect);
    assert_eq!(left, 0);
}

#[test]
fn empty_program_is_checked_at_once() {
    let (r, sent, _) = run(&announce(0x8020_0000, b"", 0, 0x7777_8888));
    assert!(r.unwrap().data.is_empty());
    assert_eq!(&sent[8..], &word(0x9999_AAAA)[..]);
}

#[test]
fn missing_put_code_is_an_error() {
    let (r, sent, _) = run(&announce(0x8020_0000, b"xy", 0, 0x1234_5678));
    assert!(r.is_none());
    let mut expect = word(0x5555_6666);
    expect.extend(word(0));
    expect.extend(word(0xBBBB_CCCC));
    assert_eq!(sent, expect);
}

#[test]
fn bad_checksum_is_an_error() {
    let code = b"abcd";
    let (r, sent, _) = run(&announce(0x8020_0000, code, crc32(code) ^ 1, 0x7777_8888));
    assert!(r.is_none());
    assert_eq!(&sent[8..], &word(0xfeed_face)[..]);
}

#[test]
fn linked_payload_is_checked() {
    let code = b"kernel".to_vec();
    let crc = crc32(&code);
    let ok = unpack(0x8000_0000, 6, crc, code.clone()).ok().unwrap();
    assert_eq!(ok.entry, 0x8000_0000);
    assert_eq!(ok.data, code);
    assert!(matches!(unpack(0x8000_0000, 6, crc ^ 0xff, code), Err(BootError::BadChecksum)));
}

#[test]
fn virt_port_reads_zeros() {
    let mut v = VirtUart::new();
    assert!(v.rx_empty());
    assert_eq!(v.rx(), 0);
    let mut w = UartWrapper::new(VirtUart::new());
    w.write_bytes(b"hi");
}
