//! Small helpers on owned strings and their views.

use vstd::prelude::*;
use vstd::string::StringExecFns;

verus! {

/// The view of an optional string.
pub open spec fn opt_text(o: Option<String>) -> Option<Seq<char>> {
    match o {
        Some(s) => Some(s@),
        None => None,
    }
}

/// Copies an optional string.
pub fn copy_opt(o: &Option<String>) -> (r: Option<String>)
    ensures
        opt_text(r) == opt_text(*o),
{
    match o {
        Some(s) => Some(s.clone()),
        None => None,
    }
}

/// Whether an optional string is present and spells `s`.
pub fn opt_is(o: &Option<String>, s: &String) -> (r: bool)
    ensures
        r == (opt_text(*o) == Some(s@)),
{
    match o {
        Some(t) => *t == *s,
        None => false,
    }
}

} // verus!

verus! {

/// The digit `d` as text.
pub open spec fn digit_text(d: int) -> Seq<char> {
    if d == 0 {
        "0"@
    } else if d == 1 {
        "1"@
    } else if d == 2 {
        "2"@
    } else if d == 3 {
        "3"@
    } else if d == 4 {
        "4"@
    } else if d == 5 {
        "5"@
    } else if d == 6 {
        "6"@
    } else if d == 7 {
        "7"@
    } else if d == 8 {
        "8"@
    } else {
        "9"@
    }
}

/// The number `n` written in decimal digits.
pub open spec fn decimal(n: nat) -> Seq<char>
    decreases n,
{
    if n < 10 {
        digit_text(n as int)
    } else {
        decimal(n / 10) + digit_text((n % 10) as int)
    }
}

fn digit_str(d: u32) -> (r: &'static str)
    requires
        d < 10,
    ensures
        r@ == digit_text(d as int),
{
    if d == 0 {
        "0"
    } else if d == 1 {
        "1"
    } else if d == 2 {
        "2"
    } else if d == 3 {
        "3"
    } else if d == 4 {
        "4"
    } else if d == 5 {
        "5"
    } else if d == 6 {
        "6"
    } else if d == 7 {
        "7"
    } else if d == 8 {
        "8"
    } else {
        "9"
    }
}

/// The number `n` written in decimal digits.
pub fn decimal_string(n: u32) -> (r: String)
    ensures
        r@ == decimal(n as nat),
    decreases n,
{
    if n < 10 {
        String::from_str(digit_str(n))
    } else {
        let mut s = decimal_string(n / 10);
        s.append(digit_str(n % 10));
        s
    }
}

/// `a` followed by `b`.
pub fn joined(a: &str, b: &str) -> (r: String)
    ensures
        r@ == a@ + b@,
{
    let mut s = String::from_str(a);
    s.append(b);
    s
}

/// The whole days that `now` milliseconds are.
pub open spec fn day_of(now: i64) -> i64 {
    (now as int / 86_400_000) as i64
}

/// The whole days that `now` milliseconds are, rounded down.
pub fn day_number(now: i64) -> (r: i64)
    ensures
        r == day_of(now),
        -106_751_991_168 <= r <= 106_751_991_167,
{
    if now >= 0 {
        now / 86_400_000
    } else {
        let m: i64 = -(now + 1);
        let q: i64 = m / 86_400_000;
        proof {
            let r = m as int % 86_400_000;
            assert(m as int == 86_400_000 * (m as int / 86_400_000) + r) by {
                vstd::arithmetic::div_mod::lemma_fundamental_div_mod(m as int, 86_400_000);
            }
            assert(now as int == (-(q as int) - 1) * 86_400_000 + (86_400_000 - r - 1));
            vstd::arithmetic::div_mod::lemma_fundamental_div_mod_converse(
                now as int,
                86_400_000,
                -(q as int) - 1,
                86_400_000 - r - 1,
            );
        }
        -q - 1
    }
}

} // verus!
