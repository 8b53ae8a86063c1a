//! Rendering subnets as dotted-quad text with a mask suffix.

use vstd::prelude::*;

use crate::bits::{lemma_byte_range, octet1, octet2, octet3, octet4};
use crate::subnet::Subnet;

verus! {

/// The character for one decimal digit.
pub open spec fn digit_char(d: int) -> char {
    if d == 0 {
        '0'
    } else if d == 1 {
        '1'
    } else if d == 2 {
        '2'
    } else if d == 3 {
        '3'
    } else if d == 4 {
        '4'
    } else if d == 5 {
        '5'
    } else if d == 6 {
        '6'
    } else if d == 7 {
        '7'
    } else if d == 8 {
        '8'
    } else {
        '9'
    }
}

/// The decimal rendering of a non-negative number, without leading zeros.
pub open spec fn dec_rep(n: int) -> Seq<char>
    decreases n,
{
    if n < 10 {
        seq![digit_char(n)]
    } else {
        dec_rep(n / 10).push(digit_char(n % 10))
    }
}

/// Appends the character of the digit `d`.
fn push_digit(out: &mut String, d: u8)
    requires
        d < 10,
    ensures
        final(out)@ == old(out)@ + seq![digit_char(d as int)],
{
    match d {
        0 => {
            proof {
                reveal_strlit("0");
                assert(old(out)@ + "0"@ =~= old(out)@ + seq![digit_char(0)]);
            }
            out.append("0");
        },
        1 => {
            proof {
                reveal_strlit("1");
                assert(old(out)@ + "1"@ =~= old(out)@ + seq![digit_char(1)]);
            }
            out.append("1");
        },
        2 => {
            proof {
                reveal_strlit("2");
                assert(old(out)@ + "2"@ =~= old(out)@ + seq![digit_char(2)]);
            }
            out.append("2");
        },
        3 => {
            proof {
                reveal_strlit("3");
                assert(old(out)@ + "3"@ =~= old(out)@ + seq![digit_char(3)]);
            }
            out.append("3");
        },
        4 => {
            proof {
                reveal_strlit("4");
                assert(old(out)@ + "4"@ =~= old(out)@ + seq![digit_char(4)]);
            }
            out.append("4");
        },
        5 => {
            proof {
                reveal_strlit("5");
                assert(old(out)@ + "5"@ =~= old(out)@ + seq![digit_char(5)]);
            }
            out.append("5");
        },
        6 => {
            proof {
                reveal_strlit("6");
                assert(old(out)@ + "6"@ =~= old(out)@ + seq![digit_char(6)]);
            }
            out.append("6");
        },
        7 => {
            proof {
                reveal_strlit("7");
                assert(old(out)@ + "7"@ =~= old(out)@ + seq![digit_char(7)]);
            }
            out.append("7");
        },
        8 => {
            proof {
                reveal_strlit("8");
                assert(old(out)@ + "8"@ =~= old(out)@ + seq![digit_char(8)]);
            }
            out.append("8");
        },
        _ => {
            proof {
                reveal_strlit("9");
                assert(old(out)@ + "9"@ =~= old(out)@ + seq![digit_char(9)]);
            }
            out.append("9");
        },
    }
}

/// Appends the decimal rendering of `n`.
pub fn push_dec(out: &mut String, n: u8)
    ensures
        final(out)@ == old(out)@ + dec_rep(n as int),
    decreases n,
{
    if n >= 10 {
        push_dec(out, n / 10);
        push_digit(out, n % 10);
        proof {
            assert(out@ =~= old(out)@ + dec_rep(n as int));
        }
    } else {
        push_digit(out, n);
    }
}

impl Subnet {
    /// The dotted-quad text of the base address alone, `a.b.c.d`.
    pub open spec fn addr_text_spec(self) -> Seq<char> {
        dec_rep(octet1(self.bits) as int) + seq!['.'] + dec_rep(octet2(self.bits) as int)
            + seq!['.'] + dec_rep(octet3(self.bits) as int) + seq!['.'] + dec_rep(
            octet4(self.bits) as int,
        )
    }

    /// The full text form `a.b.c.d/len`.
    pub open spec fn text_spec(self) -> Seq<char> {
        self.addr_text_spec() + seq!['/'] + dec_rep(self.mask_len as int)
    }

    /// Renders the base address as dotted-quad text.
    pub fn to_addr_text(&self) -> (r: String)
        ensures
            r@ == self.addr_text_spec(),
    {
        proof {
            lemma_byte_range(self.bits >> 24u32);
            lemma_byte_range(self.bits >> 16u32);
            lemma_byte_range(self.bits >> 8u32);
            lemma_byte_range(self.bits);
            reveal_strlit(".");
        }
        let o1: u8 = ((self.bits >> 24) & 0xFF) as u8;
        let o2: u8 = ((self.bits >> 16) & 0xFF) as u8;
        let o3: u8 = ((self.bits >> 8) & 0xFF) as u8;
        let o4: u8 = (self.bits & 0xFF) as u8;
        let mut out = String::new();
        push_dec(&mut out, o1);
        out.append(".");
        push_dec(&mut out, o2);
        out.append(".");
        push_dec(&mut out, o3);
        out.append(".");
        push_dec(&mut out, o4);
        proof {
            assert("."@ =~= seq!['.']);
            assert(out@ =~= self.addr_text_spec());
        }
        out
    }

    /// Renders the subnet as dotted-quad text plus `/mask_len`.
    pub fn to_text(&self) -> (r: String)
        ensures
            r@ == self.text_spec(),
    {
        proof {
            reveal_strlit("/");
        }
        let mut out = self.to_addr_text();
        out.append("/");
        push_dec(&mut out, self.mask_len);
        proof {
            assert("/"@ =~= seq!['/']);
            assert(out@ =~= self.text_spec());
        }
        out
    }
}

} // verus!
