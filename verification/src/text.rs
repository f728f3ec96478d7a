//! Decimal numerals of integers, as text.
use vstd::prelude::*;

verus! {

/// The character of the decimal digit `d`.
pub open spec fn digit_char(d: int) -> char {
    (48 + d) as char
}

/// The decimal numeral of `n >= 0`.
pub open spec fn nat_dec(n: int) -> Seq<char>
    decreases n,
{
    if n < 10 || n <= 0 {
        seq![digit_char(n)]
    } else {
        nat_dec(n / 10).push(digit_char(n % 10))
    }
}

/// The decimal numeral of `v`, with a leading `-` when negative.
pub open spec fn dec(v: int) -> Seq<char> {
    if v < 0 {
        seq!['-'] + nat_dec(-v)
    } else {
        nat_dec(v)
    }
}

/// Appends the character of the decimal digit `d`.
pub(crate) fn push_digit(out: &mut String, d: u64)
    requires
        d < 10,
    ensures
        final(out)@ == old(out)@.push(digit_char(d as int)),
{
    match d {
        0 => {
            proof {
                reveal_strlit("0");
            }
            out.append("0");
        },
        1 => {
            proof {
                reveal_strlit("1");
            }
            out.append("1");
        },
        2 => {
            proof {
                reveal_strlit("2");
            }
            out.append("2");
        },
        3 => {
            proof {
                reveal_strlit("3");
            }
            out.append("3");
        },
        4 => {
            proof {
                reveal_strlit("4");
            }
            out.append("4");
        },
        5 => {
            proof {
                reveal_strlit("5");
            }
            out.append("5");
        },
        6 => {
            proof {
                reveal_strlit("6");
            }
            out.append("6");
        },
        7 => {
            proof {
                reveal_strlit("7");
            }
            out.append("7");
        },
        8 => {
            proof {
                reveal_strlit("8");
            }
            out.append("8");
        },
        9 => {
            proof {
                reveal_strlit("9");
            }
            out.append("9");
        },
        _ => {},
    }
}

/// Appends the decimal numeral of `n`.
pub(crate) fn push_nat(out: &mut String, n: u64)
    ensures
        final(out)@ == old(out)@ + nat_dec(n as int),
    decreases n,
{
    if n >= 10 {
        push_nat(out, n / 10);
    }
    push_digit(out, n % 10);
    proof {
        if n < 10 {
            assert(nat_dec(n as int) == seq![digit_char(n as int)]);
        }
    }
}

/// Appends the decimal numeral of `v`, with `-` when negative.
pub(crate) fn push_int(out: &mut String, v: i64)
    ensures
        final(out)@ == old(out)@ + dec(v as int),
{
    if v < 0 {
        proof {
            reveal_strlit("-");
        }
        out.append("-");
        let n: u64 = if v == i64::MIN { 0x8000_0000_0000_0000 } else { (-v) as u64 };
        push_nat(out, n);
    } else {
        push_nat(out, v as u64);
    }
}

} // verus!
