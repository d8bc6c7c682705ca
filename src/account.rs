//! Account identifiers: the 1-based account index written in decimal,
//! padded with zeros to at least three digits.
use vstd::prelude::*;

verus! {

/// The decimal digit character for `d < 10`.
pub open spec fn digit_char(d: nat) -> char {
    (('0' as u32) + d) as char
}

/// The decimal representation of `n`, without leading zeros.
pub open spec fn decimal(n: nat) -> Seq<char>
    decreases n,
{
    if n < 10 {
        seq![digit_char(n)]
    } else {
        decimal(n / 10).push(digit_char(n % 10))
    }
}

/// The identifier of the account with 1-based index `n`.
pub open spec fn account_label(n: nat) -> Seq<char> {
    let d = decimal(n);
    if d.len() < 3 {
        Seq::new((3 - d.len()) as nat, |i: int| '0') + d
    } else {
        d
    }
}

proof fn lemma_decimal_nonempty(n: nat)
    ensures
        decimal(n).len() >= 1,
    decreases n,
{
    if n >= 10 {
        lemma_decimal_nonempty(n / 10);
    }
}

fn digit_text(d: u32) -> (r: &'static str)
    requires
        d < 10,
    ensures
        r@ == seq![digit_char(d as nat)],
{
    proof {
        reveal_strlit("0");
        reveal_strlit("1");
        reveal_strlit("2");
        reveal_strlit("3");
        reveal_strlit("4");
        reveal_strlit("5");
        reveal_strlit("6");
        reveal_strlit("7");
        reveal_strlit("8");
        reveal_strlit("9");
    }
    match d {
        0 => "0",
        1 => "1",
        2 => "2",
        3 => "3",
        4 => "4",
        5 => "5",
        6 => "6",
        7 => "7",
        8 => "8",
        _ => "9",
    }
}

fn decimal_text(n: u32) -> (r: String)
    ensures
        r@ == decimal(n as nat),
    decreases n,
{
    if n < 10 {
        let mut s = String::new();
        s.append(digit_text(n));
        proof {
            assert(s@ =~= decimal(n as nat));
        }
        s
    } else {
        let mut s = decimal_text(n / 10);
        s.append(digit_text(n % 10));
        s
    }
}

/// The identifier of the account with 1-based index `n`: `1` gives `"001"`,
/// `42` gives `"042"`, `1234` gives `"1234"`.
pub fn account_id(n: u32) -> (r: String)
    ensures
        r@ == account_label(n as nat),
{
    let digits = decimal_text(n);
    proof {
        lemma_decimal_nonempty(n as nat);
    }
    if n < 10 {
        let mut s = String::new();
        proof {
            reveal_strlit("00");
        }
        s.append("00");
        s.append(digits.as_str());
        proof {
            assert(s@ =~= account_label(n as nat));
        }
        s
    } else if n < 100 {
        let mut s = String::new();
        proof {
            reveal_strlit("0");
            assert(decimal(n as nat) == decimal((n / 10) as nat).push(digit_char((n % 10) as nat)));
        }
        s.append("0");
        s.append(digits.as_str());
        proof {
            assert(s@ =~= account_label(n as nat));
        }
        s
    } else {
        proof {
            assert(decimal(n as nat).len() >= 3) by {
                lemma_decimal_nonempty((n / 100) as nat);
                assert((n / 10) / 10 == n / 100);
                assert(decimal((n / 10) as nat).len() == decimal((n / 100) as nat).len() + 1);
            }
        }
        digits
    }
}

} // verus!
