//! The `Subnet` value type: a canonical (base, mask-length) pair.

use vstd::prelude::*;

use crate::bits::{agree_upto, lemma_and_basics, mask_of};

verus! {

/// An IPv4 subnet: a 32-bit base address whose bits below the mask are
/// clear, the mask length, and the cached mask word.
#[derive(Debug, PartialEq, Eq, Structural, Clone, Copy)]
pub struct Subnet {
    /// Base address; only the top `mask_len` bits may be set.
    pub bits: u32,
    /// Number of significant bits, 0 through 32.
    pub mask_len: u8,
    /// Cached mask word with the top `mask_len` bits set.
    pub mask: u32,
}

impl Subnet {
    /// Canonical form: the mask matches the length and the base carries no
    /// bits below the mask.
    pub open spec fn wf(self) -> bool {
        &&& self.mask_len <= 32
        &&& self.mask == mask_of(self.mask_len as int)
        &&& self.bits & self.mask == self.bits
    }

    /// `self` covers `other`: `self` is an ancestor-or-equal prefix.
    pub open spec fn contains_spec(self, other: Subnet) -> bool {
        self.mask_len <= other.mask_len && other.bits & self.mask == self.bits
    }

    pub open spec fn root_spec() -> Subnet {
        Subnet { bits: 0, mask_len: 0, mask: 0 }
    }

    /// The universal prefix, covering all of the IPv4 address space.
    pub fn root() -> (r: Self)
        ensures
            r == Self::root_spec(),
            r.wf(),
    {
        proof {
            lemma_and_basics(0, 0);
        }
        Subnet { bits: 0, mask_len: 0, mask: 0 }
    }

    /// Whether this subnet includes `other` entirely.
    pub fn contains(&self, other: &Subnet) -> (r: bool)
        ensures
            r == self.contains_spec(*other),
    {
        if self.mask_len > other.mask_len {
            return false;
        }
        other.bits & self.mask == self.bits
    }
}

/// The mask word for a given mask length.
pub fn mask_word(mask_len: u8) -> (r: u32)
    requires
        mask_len <= 32,
    ensures
        r == mask_of(mask_len as int),
{
    if mask_len == 0 {
        0
    } else {
        proof {
            assert(0xFFFF_FFFFu32 << 0u32 == 0xFFFF_FFFFu32) by (bit_vector);
        }
        u32::MAX << ((32 - mask_len) as u32)
    }
}

/// The longest prefix of length at least `min` on which `b1` and `b2`
/// agree, searched downward from `len`; `None` if even length `min` fails.
pub open spec fn common_search(b1: u32, b2: u32, len: int, min: int) -> Option<Subnet>
    decreases len - min + 1,
{
    if min < 0 || len < min {
        None
    } else if agree_upto(b1, b2, len) {
        Some(Subnet { bits: b1 & mask_of(len), mask_len: len as u8, mask: mask_of(len) })
    } else {
        common_search(b1, b2, len - 1, min)
    }
}

/// The search result is canonical, agrees on its whole length, and is the
/// longest agreeing prefix within the allowed range.
pub proof fn lemma_common_search_props(b1: u32, b2: u32, len: int, min: int)
    requires
        0 <= min <= len <= 32,
    ensures
        match common_search(b1, b2, len, min) {
            Some(s) => {
                &&& s.wf()
                &&& min <= s.mask_len <= len
                &&& agree_upto(b1, b2, s.mask_len as int)
                &&& s.bits == b1 & mask_of(s.mask_len as int)
                &&& forall|l: int| s.mask_len < l <= len ==> !agree_upto(b1, b2, l)
            },
            None => forall|l: int| min <= l <= len ==> !agree_upto(b1, b2, l),
        },
    decreases len - min + 1,
{
    if agree_upto(b1, b2, len) {
        lemma_and_basics(b1, mask_of(len));
    } else if len > min {
        lemma_common_search_props(b1, b2, len - 1, min);
    }
}

/// What `common_of` returns: the downward search started at the shorter
/// of the two mask lengths.
pub open spec fn common_of_spec(s1: Subnet, s2: Subnet, min: int) -> Option<Subnet> {
    common_search(
        s1.bits,
        s2.bits,
        if s1.mask_len <= s2.mask_len {
            s1.mask_len as int
        } else {
            s2.mask_len as int
        },
        min,
    )
}

impl Subnet {
    /// The nearest common supernet of `s1` and `s2` that is at least
    /// `min_mask` bits long, or `None` when none that long exists. A
    /// `min_mask` longer than either input signals a broken caller
    /// invariant and is excluded outright.
    pub fn common_of(s1: &Subnet, s2: &Subnet, min_mask: Option<u8>) -> (r: Option<Subnet>)
        requires
            s1.wf(),
            s2.wf(),
            min_mask matches Some(m) ==> m <= s1.mask_len && m <= s2.mask_len,
        ensures
            r == common_of_spec(
                *s1,
                *s2,
                match min_mask {
                    Some(m) => m as int,
                    None => 0,
                },
            ),
    {
        let min_mask_v: u8 = match min_mask {
            Some(m) => m,
            None => 0,
        };
        let start_len: u8 = if s1.mask_len <= s2.mask_len {
            s1.mask_len
        } else {
            s2.mask_len
        };
        let mut curr_len: u8 = start_len;
        while curr_len >= min_mask_v
            invariant
                s1.wf(),
                s2.wf(),
                min_mask_v <= start_len <= 32,
                curr_len <= start_len,
                start_len as int == (if s1.mask_len <= s2.mask_len {
                    s1.mask_len as int
                } else {
                    s2.mask_len as int
                }),
                min_mask_v as int == (match min_mask {
                    Some(m) => m as int,
                    None => 0int,
                }),
                common_search(s1.bits, s2.bits, start_len as int, min_mask_v as int)
                    == common_search(s1.bits, s2.bits, curr_len as int, min_mask_v as int),
            decreases curr_len,
        {
            let mask: u32 = mask_word(curr_len);
            if s1.bits & mask == s2.bits & mask {
                proof {
                    assert(agree_upto(s1.bits, s2.bits, curr_len as int));
                }
                return Some(Subnet { bits: s1.bits & mask, mask_len: curr_len, mask });
            }
            proof {
                lemma_and_basics(s1.bits, 0);
                lemma_and_basics(s2.bits, 0);
                // agreement always holds at length zero, so the search
                // cannot walk past it
                assert(curr_len > 0);
            }
            curr_len = curr_len - 1;
        }
        None
    }
}

/// Every valid prefix contains itself.
pub proof fn lemma_contains_reflexive(p: Subnet)
    requires
        p.wf(),
    ensures
        p.contains_spec(p),
{
}

/// Containment never shortens the mask: a covering prefix is at most as
/// long as what it covers.
pub proof fn lemma_contains_narrows(p: Subnet, q: Subnet)
    requires
        p.contains_spec(q),
    ensures
        p.mask_len <= q.mask_len,
{
}

/// The common supernet of a prefix with itself, with no lower bound, is
/// that prefix unchanged.
pub proof fn lemma_common_of_self(p: Subnet)
    requires
        p.wf(),
    ensures
        common_of_spec(p, p, 0) == Some(p),
{
}

proof fn lemma_common_search_symmetric(b1: u32, b2: u32, len: int, min: int)
    ensures
        common_search(b1, b2, len, min) == common_search(b2, b1, len, min),
    decreases len - min + 1,
{
    if !(min < 0 || len < min) {
        if agree_upto(b1, b2, len) {
        } else {
            lemma_common_search_symmetric(b1, b2, len - 1, min);
        }
    }
}

/// The common-supernet search is symmetric in its two subnets, for every
/// lower bound.
pub proof fn lemma_common_of_symmetric(p: Subnet, q: Subnet, m: int)
    ensures
        common_of_spec(p, q, m) == common_of_spec(q, p, m),
{
    let len: int = if p.mask_len <= q.mask_len {
        p.mask_len as int
    } else {
        q.mask_len as int
    };
    lemma_common_search_symmetric(p.bits, q.bits, len, m);
}

} // verus!
