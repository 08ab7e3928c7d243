use vstd::prelude::*;
use vstd::arithmetic::power2::{pow2, lemma2_to64_rest};
use vstd::bits::{
    lemma_u16_pow2_no_overflow, lemma_u16_shl_is_mul, lemma_u32_pow2_no_overflow,
    lemma_u32_shl_is_mul, lemma_u64_pow2_no_overflow, lemma_u64_shl_is_mul,
    lemma_u8_pow2_no_overflow, lemma_u8_shl_is_mul, lemma_usize_pow2_no_overflow,
    lemma_usize_shl_is_mul,
};

verus! {

/// Bit-level access to unsigned integers.
///
/// Positions count from the least significant bit (position 0). A field `hi..=lo` holds the bits
/// at positions `lo` through `hi`, inclusive.
pub trait Bit: Sized {
    /// Width of the type in bits.
    spec fn width() -> nat;

    /// A value whose low `nbits` bits are set and whose other bits are clear.
    fn mask(nbits: usize) -> Self
        requires
            nbits <= Self::width(),
    ;

    /// Whether the bit at `pos` is set.
    fn bit(self, pos: usize) -> bool
        requires
            pos < Self::width(),
    ;

    /// The field `hi..=lo`, shifted down to position 0.
    fn bits(self, hi: usize, lo: usize) -> Self
        requires
            lo <= hi,
            lo < Self::width(),
            hi - lo < Self::width(),
    ;

    /// This value with the bit at `pos` replaced by `val`.
    fn set_bit(self, pos: usize, val: bool) -> Self
        requires
            pos < Self::width(),
    ;

    /// This value with the field `hi..=lo` cleared and `val << lo` or-ed in.
    fn set_bits(self, hi: usize, lo: usize, val: Self) -> Self
        requires
            lo <= hi,
            lo < Self::width(),
            hi - lo < Self::width(),
    ;
}

// ---------------------------------------------------------------------------------------------
// u64

/// Mask of the low `n` bits of a `u64`.
pub open spec fn mask_u64(n: usize) -> u64 {
    if n >= 64 { !0u64 } else { ((1u64 << n) - 1) as u64 }
}

/// Whether bit `pos` of `x` is set.
pub open spec fn bit_u64(x: u64, pos: usize) -> bool {
    (x >> pos) & 1 != 0
}

/// The field `hi..=lo` of `x`, shifted down to position 0.
pub open spec fn bits_u64(x: u64, hi: usize, lo: usize) -> u64 {
    (x >> lo) & mask_u64((hi - lo + 1) as usize)
}

/// `x` with bit `pos` set to `val`.
pub open spec fn set_bit_u64(x: u64, pos: usize, val: bool) -> u64 {
    (x & !(1u64 << pos)) | ((if val { 1u64 } else { 0u64 }) << pos)
}

/// `x` with the field `hi..=lo` cleared and `val << lo` or-ed in.
pub open spec fn set_bits_u64(x: u64, hi: usize, lo: usize, val: u64) -> u64 {
    (x & !(mask_u64((hi - lo + 1) as usize) << lo)) | (val << lo)
}



/// `mask` holds the value 2^n - 1.
pub proof fn lemma_u64_mask_value(n: usize)
    requires
        n <= 64,
    ensures
        mask_u64(n) as int == pow2(n as nat) - 1,
{
    if n == 64 {
        assert(!0u64 == 0xffff_ffff_ffff_ffffu64) by (bit_vector);
        lemma2_to64_rest();
    } else {
        let s = n as u64;
        lemma_u64_pow2_no_overflow(n as nat);
        lemma_u64_shl_is_mul(1u64, s);
        assert(1u64 << n == 1u64 << s);
    }
}

/// A field written with `set_bits` reads back with `bits`, when the value fits in the field.
pub proof fn lemma_u64_bits_set_bits(x: u64, hi: usize, lo: usize, v: u64)
    requires
        lo <= hi < 64,
        v <= mask_u64((hi - lo + 1) as usize),
    ensures
        bits_u64(set_bits_u64(x, hi, lo, v), hi, lo) == v,
{
    let w = (hi - lo + 1) as usize;
    assert(((((x & !(mask_u64(w) << lo)) | (v << lo)) >> lo) & mask_u64(w)) == v) by (bit_vector)
        requires
            lo <= hi < 64,
            w == hi - lo + 1,
            v <= mask_u64(w),
    ;
}

/// Writing a field with `set_bits` leaves every field that does not overlap it unchanged, when
/// the value fits in the field.
pub proof fn lemma_u64_bits_set_bits_other(x: u64, hi: usize, lo: usize, v: u64, hi2: usize, lo2: usize)
    requires
        lo <= hi < 64,
        lo2 <= hi2 < 64,
        hi2 < lo || hi < lo2,
        v <= mask_u64((hi - lo + 1) as usize),
    ensures
        bits_u64(set_bits_u64(x, hi, lo, v), hi2, lo2) == bits_u64(x, hi2, lo2),
{
    let w = (hi - lo + 1) as usize;
    let w2 = (hi2 - lo2 + 1) as usize;
    assert(((((x & !(mask_u64(w) << lo)) | (v << lo)) >> lo2) & mask_u64(w2)) == ((x >> lo2) & mask_u64(w2))) by (bit_vector)
        requires
            lo <= hi < 64,
            lo2 <= hi2 < 64,
            hi2 < lo || hi < lo2,
            w == hi - lo + 1,
            w2 == hi2 - lo2 + 1,
            v <= mask_u64(w),
    ;
}

/// A bit written with `set_bit` reads back with `bit`, and no other bit changes.
pub proof fn lemma_u64_bit_set_bit(x: u64, pos: usize, val: bool, other: usize)
    requires
        pos < 64,
        other < 64,
    ensures
        bit_u64(set_bit_u64(x, pos, val), pos) == val,
        other != pos ==> bit_u64(set_bit_u64(x, pos, val), other) == bit_u64(x, other),
{
    let v: u64 = if val { 1 } else { 0 };
    assert((((x & !(1u64 << pos)) | (v << pos)) >> pos) & 1 == v) by (bit_vector)
        requires
            pos < 64,
            v <= 1,
    ;
    assert(other != pos ==> (((x & !(1u64 << pos)) | (v << pos)) >> other) & 1 == (x >> other) & 1)
        by (bit_vector)
        requires
            pos < 64,
            other < 64,
            v <= 1,
    ;
}

/// The one-bit field at `pos` is 1 exactly when the bit at `pos` is set.
pub proof fn lemma_u64_bits_single(x: u64, pos: usize)
    requires
        pos < 64,
    ensures
        bits_u64(x, pos, pos) == (if bit_u64(x, pos) { 1u64 } else { 0u64 }),
{
    assert(((x >> pos) & mask_u64(1)) == (if (x >> pos) & 1 != 0 { 1u64 } else { 0u64 })) by (bit_vector)
        requires
            pos < 64,
    ;
}

impl Bit for u64 {
    open spec fn width() -> nat {
        64
    }

    fn mask(nbits: usize) -> (r: u64)
        ensures
            r == mask_u64(nbits),
    {
        if nbits == 64 {
            !0u64
        } else {
            let n = nbits as u64;
            proof {
                lemma_u64_pow2_no_overflow(n as nat);
                lemma_u64_shl_is_mul(1u64, n);
            }
            (1u64 << n) - 1
        }
    }

    fn bit(self, pos: usize) -> (r: bool)
        ensures
            r == bit_u64(self, pos),
    {
        (self >> pos) & 1 != 0
    }

    fn bits(self, hi: usize, lo: usize) -> (r: u64)
        ensures
            r == bits_u64(self, hi, lo),
    {
        (self >> lo) & Self::mask(hi - lo + 1)
    }

    fn set_bit(self, pos: usize, val: bool) -> (r: u64)
        ensures
            r == set_bit_u64(self, pos, val),
    {
        let v: u64 = if val { 1 } else { 0 };
        (self & !(1u64 << pos)) | (v << pos)
    }

    fn set_bits(self, hi: usize, lo: usize, val: u64) -> (r: u64)
        ensures
            r == set_bits_u64(self, hi, lo, val),
    {
        (self & !(Self::mask(hi - lo + 1) << lo)) | (val << lo)
    }
}

// ---------------------------------------------------------------------------------------------
// usize

/// Mask of the low `n` bits of a `usize`.
pub open spec fn mask_usize(n: usize) -> usize {
    if n >= usize::BITS { !0usize } else { ((1usize << n) - 1) as usize }
}

/// Whether bit `pos` of `x` is set.
pub open spec fn bit_usize(x: usize, pos: usize) -> bool {
    (x >> pos) & 1 != 0
}

/// The field `hi..=lo` of `x`, shifted down to position 0.
pub open spec fn bits_usize(x: usize, hi: usize, lo: usize) -> usize {
    (x >> lo) & mask_usize((hi - lo + 1) as usize)
}

/// `x` with bit `pos` set to `val`.
pub open spec fn set_bit_usize(x: usize, pos: usize, val: bool) -> usize {
    (x & !(1usize << pos)) | ((if val { 1usize } else { 0usize }) << pos)
}

/// `x` with the field `hi..=lo` cleared and `val << lo` or-ed in.
pub open spec fn set_bits_usize(x: usize, hi: usize, lo: usize, val: usize) -> usize {
    (x & !(mask_usize((hi - lo + 1) as usize) << lo)) | (val << lo)
}



/// A field written with `set_bits` reads back with `bits`, when the value fits in the field.
pub proof fn lemma_usize_bits_set_bits(x: usize, hi: usize, lo: usize, v: usize)
    requires
        lo <= hi < usize::BITS,
        v <= mask_usize((hi - lo + 1) as usize),
    ensures
        bits_usize(set_bits_usize(x, hi, lo, v), hi, lo) == v,
{
    let w = (hi - lo + 1) as usize;
    assert(((((x & !(mask_usize(w) << lo)) | (v << lo)) >> lo) & mask_usize(w)) == v) by (bit_vector)
        requires
            lo <= hi < usize::BITS,
            w == hi - lo + 1,
            v <= mask_usize(w),
    ;
}

/// Writing a field with `set_bits` leaves every field that does not overlap it unchanged, when
/// the value fits in the field.
pub proof fn lemma_usize_bits_set_bits_other(x: usize, hi: usize, lo: usize, v: usize, hi2: usize, lo2: usize)
    requires
        lo <= hi < usize::BITS,
        lo2 <= hi2 < usize::BITS,
        hi2 < lo || hi < lo2,
        v <= mask_usize((hi - lo + 1) as usize),
    ensures
        bits_usize(set_bits_usize(x, hi, lo, v), hi2, lo2) == bits_usize(x, hi2, lo2),
{
    let w = (hi - lo + 1) as usize;
    let w2 = (hi2 - lo2 + 1) as usize;
    assert(((((x & !(mask_usize(w) << lo)) | (v << lo)) >> lo2) & mask_usize(w2)) == ((x >> lo2) & mask_usize(w2))) by (bit_vector)
        requires
            lo <= hi < usize::BITS,
            lo2 <= hi2 < usize::BITS,
            hi2 < lo || hi < lo2,
            w == hi - lo + 1,
            w2 == hi2 - lo2 + 1,
            v <= mask_usize(w),
    ;
}

/// A bit written with `set_bit` reads back with `bit`, and no other bit changes.
pub proof fn lemma_usize_bit_set_bit(x: usize, pos: usize, val: bool, other: usize)
    requires
        pos < usize::BITS,
        other < usize::BITS,
    ensures
        bit_usize(set_bit_usize(x, pos, val), pos) == val,
        other != pos ==> bit_usize(set_bit_usize(x, pos, val), other) == bit_usize(x, other),
{
    let v: usize = if val { 1 } else { 0 };
    assert((((x & !(1usize << pos)) | (v << pos)) >> pos) & 1 == v) by (bit_vector)
        requires
            pos < usize::BITS,
            v <= 1,
    ;
    assert(other != pos ==> (((x & !(1usize << pos)) | (v << pos)) >> other) & 1 == (x >> other) & 1)
        by (bit_vector)
        requires
            pos < usize::BITS,
            other < usize::BITS,
            v <= 1,
    ;
}

/// The one-bit field at `pos` is 1 exactly when the bit at `pos` is set.
pub proof fn lemma_usize_bits_single(x: usize, pos: usize)
    requires
        pos < usize::BITS,
    ensures
        bits_usize(x, pos, pos) == (if bit_usize(x, pos) { 1usize } else { 0usize }),
{
    assert(((x >> pos) & mask_usize(1)) == (if (x >> pos) & 1 != 0 { 1usize } else { 0usize })) by (bit_vector)
        requires
            pos < usize::BITS,
    ;
}

impl Bit for usize {
    open spec fn width() -> nat {
        usize::BITS as nat
    }

    fn mask(nbits: usize) -> (r: usize)
        ensures
            r == mask_usize(nbits),
    {
        if nbits == usize::BITS as usize {
            !0usize
        } else {
            let n = nbits as usize;
            proof {
                lemma_usize_pow2_no_overflow(n as nat);
                lemma_usize_shl_is_mul(1usize, n);
            }
            (1usize << n) - 1
        }
    }

    fn bit(self, pos: usize) -> (r: bool)
        ensures
            r == bit_usize(self, pos),
    {
        (self >> pos) & 1 != 0
    }

    fn bits(self, hi: usize, lo: usize) -> (r: usize)
        ensures
            r == bits_usize(self, hi, lo),
    {
        (self >> lo) & Self::mask(hi - lo + 1)
    }

    fn set_bit(self, pos: usize, val: bool) -> (r: usize)
        ensures
            r == set_bit_usize(self, pos, val),
    {
        let v: usize = if val { 1 } else { 0 };
        (self & !(1usize << pos)) | (v << pos)
    }

    fn set_bits(self, hi: usize, lo: usize, val: usize) -> (r: usize)
        ensures
            r == set_bits_usize(self, hi, lo, val),
    {
        (self & !(Self::mask(hi - lo + 1) << lo)) | (val << lo)
    }
}

// ---------------------------------------------------------------------------------------------
// u32

/// Mask of the low `n` bits of a `u32`.
pub open spec fn mask_u32(n: usize) -> u32 {
    if n >= 32 { !0u32 } else { ((1u32 << n) - 1) as u32 }
}

/// Whether bit `pos` of `x` is set.
pub open spec fn bit_u32(x: u32, pos: usize) -> bool {
    (x >> pos) & 1 != 0
}

/// The field `hi..=lo` of `x`, shifted down to position 0.
pub open spec fn bits_u32(x: u32, hi: usize, lo: usize) -> u32 {
    (x >> lo) & mask_u32((hi - lo + 1) as usize)
}

/// `x` with bit `pos` set to `val`.
pub open spec fn set_bit_u32(x: u32, pos: usize, val: bool) -> u32 {
    (x & !(1u32 << pos)) | ((if val { 1u32 } else { 0u32 }) << pos)
}

/// `x` with the field `hi..=lo` cleared and `val << lo` or-ed in.
pub open spec fn set_bits_u32(x: u32, hi: usize, lo: usize, val: u32) -> u32 {
    (x & !(mask_u32((hi - lo + 1) as usize) << lo)) | (val << lo)
}



/// The facts behind the field laws for `u32`: a field written with `set_bits` reads back and
/// leaves the fields it does not overlap alone, and likewise for one bit written with `set_bit`.
proof fn u32_field_facts(x: u32, hi: usize, lo: usize, v: u32, hi2: usize, lo2: usize, pos: usize, val: bool, other: usize)
    requires
        lo <= hi < 32,
        lo2 <= hi2 < 32,
        v <= mask_u32((hi - lo + 1) as usize),
        pos < 32,
        other < 32,
    ensures
        bits_u32(set_bits_u32(x, hi, lo, v), hi, lo) == v,
        hi2 < lo || hi < lo2 ==> bits_u32(set_bits_u32(x, hi, lo, v), hi2, lo2) == bits_u32(x, hi2, lo2),
        bit_u32(set_bit_u32(x, pos, val), pos) == val,
        other != pos ==> bit_u32(set_bit_u32(x, pos, val), other) == bit_u32(x, other),
{
    let w = (hi - lo + 1) as usize;
    let w2 = (hi2 - lo2 + 1) as usize;
    let b: u32 = if val { 1 } else { 0 };
    assert({
        &&& ((((x & !(mask_u32(w) << lo)) | (v << lo)) >> lo) & mask_u32(w)) == v
        &&& (hi2 < lo || hi < lo2) ==> ((((x & !(mask_u32(w) << lo)) | (v << lo)) >> lo2) & mask_u32(w2)) == ((x >> lo2) & mask_u32(w2))
        &&& ((((x & !(1u32 << pos)) | (b << pos)) >> pos) & 1 != 0) == (b == 1)
        &&& other != pos ==> ((((x & !(1u32 << pos)) | (b << pos)) >> other) & 1 != 0) == ((x >> other) & 1 != 0)
    }) by (bit_vector)
        requires
            lo <= hi < 32,
            lo2 <= hi2 < 32,
            w == hi - lo + 1,
            w2 == hi2 - lo2 + 1,
            v <= mask_u32(w),
            pos < 32,
            other < 32,
            b <= 1,
    ;
}

/// A field written with `set_bits` reads back with `bits`, when the value fits in the field.
pub proof fn lemma_u32_bits_set_bits(x: u32, hi: usize, lo: usize, v: u32)
    requires
        lo <= hi < 32,
        v <= mask_u32((hi - lo + 1) as usize),
    ensures
        bits_u32(set_bits_u32(x, hi, lo, v), hi, lo) == v,
{
    u32_field_facts(x, hi, lo, v, hi, lo, 0, false, 0);
}

/// Writing a field with `set_bits` leaves every field that does not overlap it unchanged, when
/// the value fits in the field.
pub proof fn lemma_u32_bits_set_bits_other(x: u32, hi: usize, lo: usize, v: u32, hi2: usize, lo2: usize)
    requires
        lo <= hi < 32,
        lo2 <= hi2 < 32,
        hi2 < lo || hi < lo2,
        v <= mask_u32((hi - lo + 1) as usize),
    ensures
        bits_u32(set_bits_u32(x, hi, lo, v), hi2, lo2) == bits_u32(x, hi2, lo2),
{
    u32_field_facts(x, hi, lo, v, hi2, lo2, 0, false, 0);
}

/// A bit written with `set_bit` reads back with `bit`, and no other bit changes.
pub proof fn lemma_u32_bit_set_bit(x: u32, pos: usize, val: bool, other: usize)
    requires
        pos < 32,
        other < 32,
    ensures
        bit_u32(set_bit_u32(x, pos, val), pos) == val,
        other != pos ==> bit_u32(set_bit_u32(x, pos, val), other) == bit_u32(x, other),
{
    u32_field_facts(x, 0, 0, 0, 0, 0, pos, val, other);
}

impl Bit for u32 {
    open spec fn width() -> nat {
        32
    }

    fn mask(nbits: usize) -> (r: u32)
        ensures
            r == mask_u32(nbits),
    {
        if nbits == 32 as usize {
            !0u32
        } else {
            let n = nbits as u32;
            proof {
                lemma_u32_pow2_no_overflow(n as nat);
                lemma_u32_shl_is_mul(1u32, n);
            }
            (1u32 << n) - 1
        }
    }

    fn bit(self, pos: usize) -> (r: bool)
        ensures
            r == bit_u32(self, pos),
    {
        (self >> pos) & 1 != 0
    }

    fn bits(self, hi: usize, lo: usize) -> (r: u32)
        ensures
            r == bits_u32(self, hi, lo),
    {
        (self >> lo) & Self::mask(hi - lo + 1)
    }

    fn set_bit(self, pos: usize, val: bool) -> (r: u32)
        ensures
            r == set_bit_u32(self, pos, val),
    {
        let v: u32 = if val { 1 } else { 0 };
        (self & !(1u32 << pos)) | (v << pos)
    }

    fn set_bits(self, hi: usize, lo: usize, val: u32) -> (r: u32)
        ensures
            r == set_bits_u32(self, hi, lo, val),
    {
        (self & !(Self::mask(hi - lo + 1) << lo)) | (val << lo)
    }
}

// ---------------------------------------------------------------------------------------------
// u16

/// Mask of the low `n` bits of a `u16`.
pub open spec fn mask_u16(n: usize) -> u16 {
    if n >= 16 { !0u16 } else { ((1u16 << n) - 1) as u16 }
}

/// Whether bit `pos` of `x` is set.
pub open spec fn bit_u16(x: u16, pos: usize) -> bool {
    (x >> pos) & 1 != 0
}

/// The field `hi..=lo` of `x`, shifted down to position 0.
pub open spec fn bits_u16(x: u16, hi: usize, lo: usize) -> u16 {
    (x >> lo) & mask_u16((hi - lo + 1) as usize)
}

/// `x` with bit `pos` set to `val`.
pub open spec fn set_bit_u16(x: u16, pos: usize, val: bool) -> u16 {
    (x & !(1u16 << pos)) | ((if val { 1u16 } else { 0u16 }) << pos)
}

/// `x` with the field `hi..=lo` cleared and `val << lo` or-ed in.
pub open spec fn set_bits_u16(x: u16, hi: usize, lo: usize, val: u16) -> u16 {
    (x & !(mask_u16((hi - lo + 1) as usize) << lo)) | (val << lo)
}



/// The facts behind the field laws for `u16`: a field written with `set_bits` reads back and
/// leaves the fields it does not overlap alone, and likewise for one bit written with `set_bit`.
proof fn u16_field_facts(x: u16, hi: usize, lo: usize, v: u16, hi2: usize, lo2: usize, pos: usize, val: bool, other: usize)
    requires
        lo <= hi < 16,
        lo2 <= hi2 < 16,
        v <= mask_u16((hi - lo + 1) as usize),
        pos < 16,
        other < 16,
    ensures
        bits_u16(set_bits_u16(x, hi, lo, v), hi, lo) == v,
        hi2 < lo || hi < lo2 ==> bits_u16(set_bits_u16(x, hi, lo, v), hi2, lo2) == bits_u16(x, hi2, lo2),
        bit_u16(set_bit_u16(x, pos, val), pos) == val,
        other != pos ==> bit_u16(set_bit_u16(x, pos, val), other) == bit_u16(x, other),
{
    let w = (hi - lo + 1) as usize;
    let w2 = (hi2 - lo2 + 1) as usize;
    let b: u16 = if val { 1 } else { 0 };
    assert({
        &&& ((((x & !(mask_u16(w) << lo)) | (v << lo)) >> lo) & mask_u16(w)) == v
        &&& (hi2 < lo || hi < lo2) ==> ((((x & !(mask_u16(w) << lo)) | (v << lo)) >> lo2) & mask_u16(w2)) == ((x >> lo2) & mask_u16(w2))
        &&& ((((x & !(1u16 << pos)) | (b << pos)) >> pos) & 1 != 0) == (b == 1)
        &&& other != pos ==> ((((x & !(1u16 << pos)) | (b << pos)) >> other) & 1 != 0) == ((x >> other) & 1 != 0)
    }) by (bit_vector)
        requires
            lo <= hi < 16,
            lo2 <= hi2 < 16,
            w == hi - lo + 1,
            w2 == hi2 - lo2 + 1,
            v <= mask_u16(w),
            pos < 16,
            other < 16,
            b <= 1,
    ;
}

/// A field written with `set_bits` reads back with `bits`, when the value fits in the field.
pub proof fn lemma_u16_bits_set_bits(x: u16, hi: usize, lo: usize, v: u16)
    requires
        lo <= hi < 16,
        v <= mask_u16((hi - lo + 1) as usize),
    ensures
        bits_u16(set_bits_u16(x, hi, lo, v), hi, lo) == v,
{
    u16_field_facts(x, hi, lo, v, hi, lo, 0, false, 0);
}

/// Writing a field with `set_bits` leaves every field that does not overlap it unchanged, when
/// the value fits in the field.
pub proof fn lemma_u16_bits_set_bits_other(x: u16, hi: usize, lo: usize, v: u16, hi2: usize, lo2: usize)
    requires
        lo <= hi < 16,
        lo2 <= hi2 < 16,
        hi2 < lo || hi < lo2,
        v <= mask_u16((hi - lo + 1) as usize),
    ensures
        bits_u16(set_bits_u16(x, hi, lo, v), hi2, lo2) == bits_u16(x, hi2, lo2),
{
    u16_field_facts(x, hi, lo, v, hi2, lo2, 0, false, 0);
}

/// A bit written with `set_bit` reads back with `bit`, and no other bit changes.
pub proof fn lemma_u16_bit_set_bit(x: u16, pos: usize, val: bool, other: usize)
    requires
        pos < 16,
        other < 16,
    ensures
        bit_u16(set_bit_u16(x, pos, val), pos) == val,
        other != pos ==> bit_u16(set_bit_u16(x, pos, val), other) == bit_u16(x, other),
{
    u16_field_facts(x, 0, 0, 0, 0, 0, pos, val, other);
}

impl Bit for u16 {
    open spec fn width() -> nat {
        16
    }

    fn mask(nbits: usize) -> (r: u16)
        ensures
            r == mask_u16(nbits),
    {
        if nbits == 16 as usize {
            !0u16
        } else {
            let n = nbits as u16;
            proof {
                lemma_u16_pow2_no_overflow(n as nat);
                lemma_u16_shl_is_mul(1u16, n);
            }
            (1u16 << n) - 1
        }
    }

    fn bit(self, pos: usize) -> (r: bool)
        ensures
            r == bit_u16(self, pos),
    {
        (self >> pos) & 1 != 0
    }

    fn bits(self, hi: usize, lo: usize) -> (r: u16)
        ensures
            r == bits_u16(self, hi, lo),
    {
        (self >> lo) & Self::mask(hi - lo + 1)
    }

    fn set_bit(self, pos: usize, val: bool) -> (r: u16)
        ensures
            r == set_bit_u16(self, pos, val),
    {
        let v: u16 = if val { 1 } else { 0 };
        (self & !(1u16 << pos)) | (v << pos)
    }

    fn set_bits(self, hi: usize, lo: usize, val: u16) -> (r: u16)
        ensures
            r == set_bits_u16(self, hi, lo, val),
    {
        (self & !(Self::mask(hi - lo + 1) << lo)) | (val << lo)
    }
}

// ---------------------------------------------------------------------------------------------
// u8

/// Mask of the low `n` bits of a `u8`.
pub open spec fn mask_u8(n: usize) -> u8 {
    if n >= 8 { !0u8 } else { ((1u8 << n) - 1) as u8 }
}

/// Whether bit `pos` of `x` is set.
pub open spec fn bit_u8(x: u8, pos: usize) -> bool {
    (x >> pos) & 1 != 0
}

/// The field `hi..=lo` of `x`, shifted down to position 0.
pub open spec fn bits_u8(x: u8, hi: usize, lo: usize) -> u8 {
    (x >> lo) & mask_u8((hi - lo + 1) as usize)
}

/// `x` with bit `pos` set to `val`.
pub open spec fn set_bit_u8(x: u8, pos: usize, val: bool) -> u8 {
    (x & !(1u8 << pos)) | ((if val { 1u8 } else { 0u8 }) << pos)
}

/// `x` with the field `hi..=lo` cleared and `val << lo` or-ed in.
pub open spec fn set_bits_u8(x: u8, hi: usize, lo: usize, val: u8) -> u8 {
    (x & !(mask_u8((hi - lo + 1) as usize) << lo)) | (val << lo)
}



/// The facts behind the field laws for `u8`: a field written with `set_bits` reads back and
/// leaves the fields it does not overlap alone, and likewise for one bit written with `set_bit`.
proof fn u8_field_facts(x: u8, hi: usize, lo: usize, v: u8, hi2: usize, lo2: usize, pos: usize, val: bool, other: usize)
    requires
        lo <= hi < 8,
        lo2 <= hi2 < 8,
        v <= mask_u8((hi - lo + 1) as usize),
        pos < 8,
        other < 8,
    ensures
        bits_u8(set_bits_u8(x, hi, lo, v), hi, lo) == v,
        hi2 < lo || hi < lo2 ==> bits_u8(set_bits_u8(x, hi, lo, v), hi2, lo2) == bits_u8(x, hi2, lo2),
        bit_u8(set_bit_u8(x, pos, val), pos) == val,
        other != pos ==> bit_u8(set_bit_u8(x, pos, val), other) == bit_u8(x, other),
{
    let w = (hi - lo + 1) as usize;
    let w2 = (hi2 - lo2 + 1) as usize;
    let b: u8 = if val { 1 } else { 0 };
    assert({
        &&& ((((x & !(mask_u8(w) << lo)) | (v << lo)) >> lo) & mask_u8(w)) == v
        &&& (hi2 < lo || hi < lo2) ==> ((((x & !(mask_u8(w) << lo)) | (v << lo)) >> lo2) & mask_u8(w2)) == ((x >> lo2) & mask_u8(w2))
        &&& ((((x & !(1u8 << pos)) | (b << pos)) >> pos) & 1 != 0) == (b == 1)
        &&& other != pos ==> ((((x & !(1u8 << pos)) | (b << pos)) >> other) & 1 != 0) == ((x >> other) & 1 != 0)
    }) by (bit_vector)
        requires
            lo <= hi < 8,
            lo2 <= hi2 < 8,
            w == hi - lo + 1,
            w2 == hi2 - lo2 + 1,
            v <= mask_u8(w),
            pos < 8,
            other < 8,
            b <= 1,
    ;
}

/// A field written with `set_bits` reads back with `bits`, when the value fits in the field.
pub proof fn lemma_u8_bits_set_bits(x: u8, hi: usize, lo: usize, v: u8)
    requires
        lo <= hi < 8,
        v <= mask_u8((hi - lo + 1) as usize),
    ensures
        bits_u8(set_bits_u8(x, hi, lo, v), hi, lo) == v,
{
    u8_field_facts(x, hi, lo, v, hi, lo, 0, false, 0);
}

/// Writing a field with `set_bits` leaves every field that does not overlap it unchanged, when
/// the value fits in the field.
pub proof fn lemma_u8_bits_set_bits_other(x: u8, hi: usize, lo: usize, v: u8, hi2: usize, lo2: usize)
    requires
        lo <= hi < 8,
        lo2 <= hi2 < 8,
        hi2 < lo || hi < lo2,
        v <= mask_u8((hi - lo + 1) as usize),
    ensures
        bits_u8(set_bits_u8(x, hi, lo, v), hi2, lo2) == bits_u8(x, hi2, lo2),
{
    u8_field_facts(x, hi, lo, v, hi2, lo2, 0, false, 0);
}

/// A bit written with `set_bit` reads back with `bit`, and no other bit changes.
pub proof fn lemma_u8_bit_set_bit(x: u8, pos: usize, val: bool, other: usize)
    requires
        pos < 8,
        other < 8,
    ensures
        bit_u8(set_bit_u8(x, pos, val), pos) == val,
        other != pos ==> bit_u8(set_bit_u8(x, pos, val), other) == bit_u8(x, other),
{
    u8_field_facts(x, 0, 0, 0, 0, 0, pos, val, other);
}

impl Bit for u8 {
    open spec fn width() -> nat {
        8
    }

    fn mask(nbits: usize) -> (r: u8)
        ensures
            r == mask_u8(nbits),
    {
        if nbits == 8 as usize {
            !0u8
        } else {
            let n = nbits as u8;
            proof {
                lemma_u8_pow2_no_overflow(n as nat);
                lemma_u8_shl_is_mul(1u8, n);
            }
            (1u8 << n) - 1
        }
    }

    fn bit(self, pos: usize) -> (r: bool)
        ensures
            r == bit_u8(self, pos),
    {
        (self >> pos) & 1 != 0
    }

    fn bits(self, hi: usize, lo: usize) -> (r: u8)
        ensures
            r == bits_u8(self, hi, lo),
    {
        (self >> lo) & Self::mask(hi - lo + 1)
    }

    fn set_bit(self, pos: usize, val: bool) -> (r: u8)
        ensures
            r == set_bit_u8(self, pos, val),
    {
        let v: u8 = if val { 1 } else { 0 };
        (self & !(1u8 << pos)) | (v << pos)
    }

    fn set_bits(self, hi: usize, lo: usize, val: u8) -> (r: u8)
        ensures
            r == set_bits_u8(self, hi, lo, val),
    {
        (self & !(Self::mask(hi - lo + 1) << lo)) | (val << lo)
    }
}

} // verus!
