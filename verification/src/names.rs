//! Decimal identifier suffixes.
//!
//! The lowerer names its inputs, bounds, iterators and stores with a
//! short prefix and a decimal counter (`in0`, `b2`, `i2`, `s1`).  The
//! spelling of a counter is fixed here so that identifier contracts can
//! be stated exactly.

use vstd::prelude::*;
use vstd::string::StringExecFns;

verus! {

/// The digit character of a value below ten.
pub open spec fn digit_char(d: nat) -> char {
    if d == 0 { '0' }
    else if d == 1 { '1' }
    else if d == 2 { '2' }
    else if d == 3 { '3' }
    else if d == 4 { '4' }
    else if d == 5 { '5' }
    else if d == 6 { '6' }
    else if d == 7 { '7' }
    else if d == 8 { '8' }
    else { '9' }
}

/// The decimal spelling of `n`, most significant digit first.
pub open spec fn dec_digits(n: nat) -> Seq<char>
    decreases n,
{
    if n < 10 {
        seq![digit_char(n)]
    } else {
        dec_digits(n / 10).push(digit_char(n % 10))
    }
}

/// The one-character string of a digit.
fn digit_str(d: usize) -> (r: &'static str)
    requires
        d < 10,
    ensures
        r@ == seq![digit_char(d as nat)],
{
    let r: &'static str = if d == 0 { "0" }
    else if d == 1 { "1" }
    else if d == 2 { "2" }
    else if d == 3 { "3" }
    else if d == 4 { "4" }
    else if d == 5 { "5" }
    else if d == 6 { "6" }
    else if d == 7 { "7" }
    else if d == 8 { "8" }
    else { "9" };
    proof {
        reveal_strlit("0");
        reveal_strlit("1");
        reveal_strlit("2");
        reveal_strlit("3");
        reveal_strlit("4");
        reveal_strlit("5");
        reveal_strlit("6");
        reveal_strlit("7");
        reveal_strlit("8");
        reveal_strlit("9");
        assert(r@ =~= seq![digit_char(d as nat)]);
    }
    r
}

/// The decimal spelling of `n`.
pub fn dec_string(n: usize) -> (r: String)
    ensures
        r@ == dec_digits(n as nat),
    decreases n,
{
    if n < 10 {
        String::from_str(digit_str(n))
    } else {
        let mut s = dec_string(n / 10);
        s.append(digit_str(n % 10));
        proof {
            assert(s@ =~= dec_digits(n as nat));
        }
        s
    }
}

/// A string made of a prefix and a decimal counter.
pub fn counted_name(prefix: &str, n: usize) -> (r: String)
    ensures
        r@ == prefix@ + dec_digits(n as nat),
{
    let mut s = String::from_str(prefix);
    let d = dec_string(n);
    s.append(d.as_str());
    s
}

/// `left`, an underscore, then `right`.
pub fn joined_name(left: &str, right: &str) -> (r: String)
    ensures
        r@ == left@ + seq!['_'] + right@,
{
    let mut s = String::from_str(left);
    s.append("_");
    s.append(right);
    proof {
        reveal_strlit("_");
        assert(s@ =~= left@ + seq!['_'] + right@);
    }
    s
}

} // verus!
