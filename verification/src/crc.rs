//! CRC-32 (the reflected IEEE 802.3 polynomial 0xedb88320), computed with a lookup table.
use vstd::prelude::*;

verus! {

/// One bit step of the CRC-32 shift register.
pub open spec fn crc_bit(c: u32) -> u32 {
    if c & 1 == 1 { 0xedb88320u32 ^ (c >> 1u32) } else { c >> 1u32 }
}

/// Eight bit steps of the CRC-32 shift register.
pub open spec fn crc_bits8(c: u32) -> u32 {
    crc_bit(crc_bit(crc_bit(crc_bit(crc_bit(crc_bit(crc_bit(crc_bit(c))))))))
}

/// The CRC-32 shift register after feeding it `bytes`, starting from `c`, one bit at a time.
pub open spec fn crc_update(c: u32, bytes: Seq<u8>) -> u32
    decreases bytes.len(),
{
    if bytes.len() == 0 {
        c
    } else {
        crc_bits8(crc_update(c, bytes.drop_last()) ^ (bytes.last() as u32))
    }
}

/// The CRC-32 of `bytes`.
pub open spec fn crc32_spec(bytes: Seq<u8>) -> u32 {
    !crc_update(!0u32, bytes)
}

/// Table entry `i`: eight bit steps of the shift register, starting from `i`.
fn table_fn(i: u32) -> (r: u32)
    ensures
        r == crc_bits8(i),
{
    let mut out = i;
    out = if out & 1 == 1 { 0xedb88320 ^ (out >> 1) } else { out >> 1 };
    out = if out & 1 == 1 { 0xedb88320 ^ (out >> 1) } else { out >> 1 };
    out = if out & 1 == 1 { 0xedb88320 ^ (out >> 1) } else { out >> 1 };
    out = if out & 1 == 1 { 0xedb88320 ^ (out >> 1) } else { out >> 1 };
    out = if out & 1 == 1 { 0xedb88320 ^ (out >> 1) } else { out >> 1 };
    out = if out & 1 == 1 { 0xedb88320 ^ (out >> 1) } else { out >> 1 };
    out = if out & 1 == 1 { 0xedb88320 ^ (out >> 1) } else { out >> 1 };
    out = if out & 1 == 1 { 0xedb88320 ^ (out >> 1) } else { out >> 1 };
    out
}

/// The lookup table: entry `i` is `table_fn(i)`.
fn get_table() -> (r: [u32; 256])
    ensures
        forall|i: int| 0 <= i < 256 ==> #[trigger] r[i] == crc_bits8(i as u32),
{
    let mut table: [u32; 256] = [0u32; 256];
    let mut i: usize = 0;
    while i < 256
        invariant
            i <= 256,
            forall|j: int| 0 <= j < i ==> #[trigger] table[j] == crc_bits8(j as u32),
        decreases 256 - i,
    {
        table[i] = table_fn(i as u32);
        i += 1;
    }
    table
}

/// Feeding a byte to the shift register bit by bit is the same as one table step.
proof fn lemma_table_step(c: u32, b: u8)
    ensures
        crc_bits8(c ^ (b as u32)) == (c >> 8u32) ^ crc_bits8((c & 0xff) ^ (b as u32)),
{
    let bb = b as u32;
    assert(bb <= 0xff);
    assert(crc_bits8(c ^ bb) == (c >> 8u32) ^ crc_bits8((c & 0xff) ^ bb)) by (bit_vector)
        requires
            bb <= 0xff,
    ;
}

/// The CRC-32 of `buf`.
pub fn crc32(buf: &[u8]) -> (r: u32)
    ensures
        r == crc32_spec(buf@),
{
    let table = get_table();
    let mut out = !0u32;
    let mut i = 0usize;
    while i < buf.len()
        invariant
            i <= buf@.len(),
            forall|j: int| 0 <= j < 256 ==> #[trigger] table[j] == crc_bits8(j as u32),
            out == crc_update(!0u32, buf@.subrange(0, i as int)),
        decreases buf@.len() - i,
    {
        let b = buf[i];
        proof {
            lemma_table_step(out, b);
            assert(buf@.subrange(0, i + 1).drop_last() == buf@.subrange(0, i as int));
        }
        let idx = ((out & 0xff) ^ (b as u32)) as usize;
        assert(idx < 256) by (bit_vector)
            requires
                idx == ((out & 0xff) ^ (b as u32)) as usize,
        ;
        out = (out >> 8) ^ table[idx];
        i += 1;
    }
    assert(buf@.subrange(0, buf@.len() as int) == buf@);
    !out
}

} // verus!
