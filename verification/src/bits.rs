//! Mask words and prefix agreement on 32-bit addresses.

use vstd::prelude::*;

verus! {

/// The netmask word with the top `len` bits set and the rest clear.
pub open spec fn mask_of(len: int) -> u32 {
    if len <= 0 {
        0u32
    } else if len >= 32 {
        0xFFFF_FFFFu32
    } else {
        0xFFFF_FFFFu32 << ((32 - len) as u32)
    }
}

/// Two address words agree on their top `len` bits.
pub open spec fn agree_upto(b1: u32, b2: u32, len: int) -> bool {
    b1 & mask_of(len) == b2 & mask_of(len)
}

/// Basic identities of bitwise `&` with a mask word.
pub proof fn lemma_and_basics(x: u32, m: u32)
    ensures
        x & 0 == 0,
        0 & m == 0,
        (x & m) & m == x & m,
        x & 0xFFFF_FFFFu32 == x,
{
    assert(x & 0 == 0 && 0 & m == 0 && (x & m) & m == x & m && x & 0xFFFF_FFFFu32 == x)
        by (bit_vector);
}

/// A shorter mask absorbs a longer one.
pub proof fn lemma_mask_absorb(a: int, b: int)
    requires
        0 <= a <= b <= 32,
    ensures
        mask_of(a) & mask_of(b) == mask_of(a),
{
    if a == 0 {
        lemma_and_basics(0, mask_of(b));
    } else if b == 32 {
        lemma_and_basics(mask_of(a), 0);
    } else {
        let sa = (32 - a) as u32;
        let sb = (32 - b) as u32;
        assert((0xFFFF_FFFFu32 << sa) & (0xFFFF_FFFFu32 << sb) == (0xFFFF_FFFFu32 << sa))
            by (bit_vector)
            requires
                sb <= sa < 32u32,
        ;
    }
}

/// The 32-bit word built from four octets, most significant first.
pub open spec fn word_of_octets(o1: u8, o2: u8, o3: u8, o4: u8) -> u32 {
    ((o1 as u32) << 24u32) | ((o2 as u32) << 16u32) | ((o3 as u32) << 8u32) | (o4 as u32)
}

pub open spec fn octet1(b: u32) -> u8 {
    ((b >> 24u32) & 0xFF) as u8
}

pub open spec fn octet2(b: u32) -> u8 {
    ((b >> 16u32) & 0xFF) as u8
}

pub open spec fn octet3(b: u32) -> u8 {
    ((b >> 8u32) & 0xFF) as u8
}

pub open spec fn octet4(b: u32) -> u8 {
    (b & 0xFF) as u8
}

/// Masking a value keeps it inside a byte.
pub proof fn lemma_byte_range(x: u32)
    ensures
        (x & 0xFF) < 256,
{
    assert((x & 0xFF) < 256) by (bit_vector);
}

} // verus!
