//! Counts written out in decimal, for the messages that carry them.

use vstd::prelude::*;

verus! {

/// The decimal digits.
pub open spec fn decimal_digits() -> Seq<char> {
    "0123456789"@
}

/// `n` in decimal, with no leading zeros; zero is `0`.
pub open spec fn decimal_text(n: nat) -> Seq<char>
    decreases n,
{
    if n < 10 {
        seq![decimal_digits()[n as int]]
    } else {
        decimal_text(n / 10) + seq![decimal_digits()[(n % 10) as int]]
    }
}

/// `n` in decimal.
pub fn decimal(n: u64) -> (s: String)
    ensures
        s@ == decimal_text(n as nat),
    decreases n,
{
    let digits = "0123456789";
    proof {
        reveal_strlit("0123456789");
    }
    let last = (n % 10) as usize;
    let digit = digits.substring_ascii(last, last + 1);
    if n < 10 {
        let mut s = String::new();
        s.append(digit);
        assert(s@ =~= seq![decimal_digits()[n as int]]);
        s
    } else {
        let mut s = decimal(n / 10);
        let ghost before = s@;
        s.append(digit);
        assert(s@ =~= before + seq![decimal_digits()[(n % 10) as int]]);
        s
    }
}

} // verus!
