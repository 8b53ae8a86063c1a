//! Parsing of dotted-quad address text, with or without a `/mask` suffix.

use vstd::prelude::*;

use crate::bits::{lemma_and_basics, mask_of, word_of_octets};
use crate::errors::{NumErrorKind, ParseError, ParseIssue};
use crate::subnet::{mask_word, Subnet};

verus! {

/// Decimal digit test by code point.
pub open spec fn is_digit(c: char) -> bool {
    48 <= c as u32 <= 57
}

/// The value of a decimal digit character.
pub open spec fn digit_val(c: char) -> int {
    c as u32 - 48
}

/// Folds decimal digits onto `acc`; mirrors how std parses a byte, with
/// the overflow check applied digit by digit.
pub open spec fn parse_digits(s: Seq<char>, acc: int) -> Result<u8, NumErrorKind>
    decreases s.len(),
{
    if s.len() == 0 {
        Ok(acc as u8)
    } else if !is_digit(s[0]) {
        Err(NumErrorKind::InvalidDigit)
    } else if acc * 10 + digit_val(s[0]) > 255 {
        Err(NumErrorKind::PosOverflow)
    } else {
        parse_digits(s.drop_first(), acc * 10 + digit_val(s[0]))
    }
}

/// What parsing the text as a byte yields: an optional leading `+`, then
/// decimal digits.
pub open spec fn parse_u8_spec(s: Seq<char>) -> Result<u8, NumErrorKind> {
    if s.len() == 0 {
        Err(NumErrorKind::Empty)
    } else {
        let digits = if s[0] == '+' {
            s.drop_first()
        } else {
            s
        };
        if digits.len() == 0 {
            Err(NumErrorKind::InvalidDigit)
        } else {
            parse_digits(digits, 0)
        }
    }
}

/// The index of the first occurrence of `c`, or the length if absent.
pub open spec fn find_char(s: Seq<char>, c: char) -> int
    decreases s.len(),
{
    if s.len() == 0 {
        0
    } else if s[0] == c {
        0
    } else {
        1 + find_char(s.drop_first(), c)
    }
}

pub proof fn lemma_find_char(s: Seq<char>, c: char)
    ensures
        0 <= find_char(s, c) <= s.len(),
        forall|j: int| 0 <= j < find_char(s, c) ==> s[j] != c,
        find_char(s, c) < s.len() ==> s[find_char(s, c)] == c,
    decreases s.len(),
{
    if s.len() > 0 && s[0] != c {
        lemma_find_char(s.drop_first(), c);
        assert forall|j: int| 0 <= j < find_char(s, c) implies s[j] != c by {
            if j > 0 {
                assert(s.drop_first()[j - 1] == s[j]);
            }
        }
    }
}

/// A position with no occurrence before it, holding `c` or at the end, is
/// the first occurrence.
pub proof fn lemma_find_char_at(s: Seq<char>, c: char, i: int)
    requires
        0 <= i <= s.len(),
        forall|j: int| 0 <= j < i ==> s[j] != c,
        i < s.len() ==> s[i] == c,
    ensures
        find_char(s, c) == i,
    decreases s.len(),
{
    if s.len() > 0 && s[0] != c {
        lemma_find_char_at(s.drop_first(), c, i - 1);
    }
}

/// Finds the first occurrence of `c` in `s`, or the length if absent.
fn scan_char(s: &str, c: char) -> (r: usize)
    ensures
        r as int == find_char(s@, c),
        r <= s@.len(),
{
    let n: usize = s.unicode_len();
    let mut i: usize = 0;
    while i < n
        invariant
            i <= n,
            n == s@.len(),
            forall|j: int| 0 <= j < i ==> s@[j] != c,
        decreases n - i,
    {
        if s.get_char(i) == c {
            proof {
                lemma_find_char_at(s@, c, i as int);
            }
            return i;
        }
        i = i + 1;
    }
    proof {
        lemma_find_char_at(s@, c, n as int);
    }
    n
}

/// Parses the whole text as a byte, as std's byte parsing does.
pub fn parse_u8(s: &str) -> (r: Result<u8, NumErrorKind>)
    ensures
        r == parse_u8_spec(s@),
{
    let n: usize = s.unicode_len();
    if n == 0 {
        return Err(NumErrorKind::Empty);
    }
    let first = s.get_char(0);
    let start: usize = if first == '+' {
        1
    } else {
        0
    };
    if n == start {
        return Err(NumErrorKind::InvalidDigit);
    }
    proof {
        if first == '+' {
            assert(s@.drop_first() =~= s@.skip(1));
        } else {
            assert(s@ =~= s@.skip(0));
        }
    }
    let mut acc: u16 = 0;
    let mut i: usize = start;
    while i < n
        invariant
            start <= i <= n,
            n == s@.len(),
            acc <= 255,
            parse_u8_spec(s@) == parse_digits(s@.skip(i as int), acc as int),
        decreases n - i,
    {
        let c = s.get_char(i);
        let cv: u32 = c as u32;
        if cv < 48 || cv > 57 {
            return Err(NumErrorKind::InvalidDigit);
        }
        let v: u32 = (acc as u32) * 10 + (cv - 48);
        if v > 255 {
            return Err(NumErrorKind::PosOverflow);
        }
        proof {
            assert(s@.skip(i as int).drop_first() =~= s@.skip(i as int + 1));
        }
        acc = v as u16;
        i = i + 1;
    }
    Ok(acc as u8)
}

/// The octet values between the dots, folded left to right; the first
/// failing octet wins.
pub open spec fn parse_octets_spec(s: Seq<char>) -> Result<Seq<u8>, NumErrorKind>
    decreases s.len(),
    via parse_octets_spec_decreases
{
    let p = find_char(s, '.');
    if p == s.len() {
        match parse_u8_spec(s) {
            Ok(v) => Ok(seq![v]),
            Err(k) => Err(k),
        }
    } else {
        match parse_u8_spec(s.take(p)) {
            Err(k) => Err(k),
            Ok(v) => match parse_octets_spec(s.skip(p + 1)) {
                Ok(rest) => Ok(seq![v] + rest),
                Err(k) => Err(k),
            },
        }
    }
}

#[via_fn]
proof fn parse_octets_spec_decreases(s: Seq<char>) {
    lemma_find_char(s, '.');
}

/// Parses dot-separated octets, returning them in order.
fn parse_octets(s: &str) -> (r: Result<Vec<u8>, NumErrorKind>)
    ensures
        match r {
            Ok(v) => parse_octets_spec(s@) == Ok::<Seq<u8>, NumErrorKind>(v@),
            Err(k) => parse_octets_spec(s@) == Err::<Seq<u8>, NumErrorKind>(k),
        },
    decreases s@.len(),
{
    let n: usize = s.unicode_len();
    let p: usize = scan_char(s, '.');
    if p == n {
        match parse_u8(s) {
            Ok(v) => {
                let mut out: Vec<u8> = Vec::new();
                out.push(v);
                proof {
                    assert(out@ =~= seq![v]);
                }
                Ok(out)
            },
            Err(k) => Err(k),
        }
    } else {
        let head = s.substring_char(0, p);
        proof {
            assert(head@ =~= s@.take(p as int));
        }
        match parse_u8(head) {
            Err(k) => Err(k),
            Ok(v) => {
                let tail = s.substring_char(p + 1, n);
                proof {
                    assert(tail@ =~= s@.skip(p as int + 1));
                }
                match parse_octets(tail) {
                    Err(k) => Err(k),
                    Ok(mut rest) => {
                        let ghost rest0 = rest@;
                        rest.insert(0, v);
                        proof {
                            assert(rest@ =~= seq![v] + rest0);
                        }
                        Ok(rest)
                    },
                }
            },
        }
    }
}

/// What parsing a full subnet or address text yields: at most one `/`, a
/// byte-sized mask, four octets, a mask of at most 32 bits.
pub open spec fn from_str_spec(s: Seq<char>) -> Result<Subnet, ParseIssue> {
    let p = find_char(s, '/');
    if p == s.len() {
        parse_addr_spec(s, 32)
    } else {
        let rest = s.skip(p + 1);
        if find_char(rest, '/') != rest.len() {
            Err(ParseIssue::TooManySlashes)
        } else {
            match parse_u8_spec(rest) {
                Ok(m) => parse_addr_spec(s.take(p), m),
                Err(_) => Err(ParseIssue::BadMask(s)),
            }
        }
    }
}

/// What the address part together with a mask length yields.
pub open spec fn parse_addr_spec(addr: Seq<char>, mask_len: u8) -> Result<Subnet, ParseIssue> {
    match parse_octets_spec(addr) {
        Err(k) => Err(ParseIssue::BadOctet(addr, k)),
        Ok(os) => if os.len() != 4 {
            Err(ParseIssue::WrongOctetCount(addr))
        } else if mask_len > 32 {
            Err(ParseIssue::MaskTooLong)
        } else {
            Ok(Subnet::new_spec(os[0], os[1], os[2], os[3], mask_len))
        },
    }
}

/// The view of a parse result, for stating what `from_str` returns.
pub open spec fn parse_result_view(r: Result<Subnet, ParseError>) -> Result<Subnet, ParseIssue> {
    match r {
        Ok(s) => Ok(s),
        Err(e) => Err(e@),
    }
}

impl Subnet {
    pub open spec fn new_spec(o1: u8, o2: u8, o3: u8, o4: u8, mask_len: u8) -> Subnet {
        Subnet {
            bits: word_of_octets(o1, o2, o3, o4) & mask_of(mask_len as int),
            mask_len,
            mask: mask_of(mask_len as int),
        }
    }

    /// Builds a subnet from four octets and a mask length, clearing any
    /// bits set below the mask; rejects a mask longer than 32.
    pub fn new(o1: u8, o2: u8, o3: u8, o4: u8, mask_len: u8) -> (r: Result<Self, ParseError>)
        ensures
            mask_len <= 32 ==> r == Ok::<Subnet, ParseError>(
                Self::new_spec(o1, o2, o3, o4, mask_len),
            ),
            mask_len <= 32 ==> (r matches Ok(s) && s.wf() && s.mask_len == mask_len),
            mask_len > 32 ==> (r matches Err(e) && e is MaskTooLong),
    {
        if mask_len > 32 {
            Err(ParseError::MaskTooLong)
        } else {
            let mask: u32 = mask_word(mask_len);
            let word: u32 = ((o1 as u32) << 24u32) | ((o2 as u32) << 16u32) | ((o3 as u32)
                << 8u32) | (o4 as u32);
            proof {
                lemma_and_basics(word, mask);
            }
            Ok(Subnet { bits: word & mask, mask_len, mask })
        }
    }

    /// Parses address text, with an optional `/mask` suffix; a bare
    /// address gets mask length 32.
    pub fn from_str(src: &str) -> (r: Result<Subnet, ParseError>)
        ensures
            parse_result_view(r) == from_str_spec(src@),
    {
        let n: usize = src.unicode_len();
        let p: usize = scan_char(src, '/');
        let (addr_str, mask_len): (&str, u8) = if p == n {
            (src, 32)
        } else {
            let rest = src.substring_char(p + 1, n);
            proof {
                assert(rest@ =~= src@.skip(p as int + 1));
            }
            let p2: usize = scan_char(rest, '/');
            if p2 < rest.unicode_len() {
                return Err(ParseError::TooManySlashes);
            }
            match parse_u8(rest) {
                Ok(m) => {
                    let head = src.substring_char(0, p);
                    proof {
                        assert(head@ =~= src@.take(p as int));
                    }
                    (head, m)
                },
                Err(_) => {
                    return Err(ParseError::BadMask { src: src.to_owned() });
                },
            }
        };
        proof {
            assert(from_str_spec(src@) == parse_addr_spec(addr_str@, mask_len));
        }
        match parse_octets(addr_str) {
            Err(k) => Err(ParseError::BadOctet { addr: addr_str.to_owned(), kind: k }),
            Ok(os) => {
                if os.len() != 4 {
                    return Err(ParseError::WrongOctetCount { addr: addr_str.to_owned() });
                }
                let o1: u8 = os[0];
                let o2: u8 = os[1];
                let o3: u8 = os[2];
                let o4: u8 = os[3];
                match Subnet::new(o1, o2, o3, o4, mask_len) {
                    Ok(s) => Ok(s),
                    Err(e) => Err(e),
                }
            },
        }
    }
}

} // verus!
