use vstd::prelude::*;

verus! {

use vstd::string::StrSliceExecFns;
use vstd::arithmetic::div_mod::lemma_div_denominator;

/// Character-wise string equality, pinned to the sequence-of-chars views.
pub fn str_eq(a: &str, b: &str) -> (r: bool)
    ensures
        r == (a@ == b@),
{
    let n = a.unicode_len();
    let m = b.unicode_len();
    if n != m {
        return false;
    }
    for i in 0..n
        invariant
            n == a@.len(),
            n == b@.len(),
            forall|k: int| 0 <= k < i ==> a@[k] == b@[k],
    {
        if a.get_char(i) != b.get_char(i) {
            return false;
        }
    }
    proof {
        assert(a@ =~= b@);
    }
    true
}

/// True exactly when the character `c` occurs somewhere in `s`.
pub fn contains_char(s: &str, c: char) -> (r: bool)
    ensures
        r == s@.contains(c),
{
    let n = s.unicode_len();
    for i in 0..n
        invariant
            n == s@.len(),
            forall|k: int| 0 <= k < i ==> s@[k] != c,
    {
        if s.get_char(i) == c {
            return true;
        }
    }
    false
}

/// Relies on String::push: appends exactly one character at the end.
#[verifier::external_body]
pub fn push_char(s: &mut String, c: char)
    ensures
        final(s)@ == old(s)@.push(c),
{
    s.push(c);
}

pub open spec fn digit_char(d: int) -> char {
    ((48 + d) as u8) as char
}

/// The decimal notation of `n` as a sequence of characters, no leading zeros.
pub open spec fn dec_str(n: int) -> Seq<char>
    recommends
        0 <= n,
    decreases n,
{
    if n < 10 {
        seq![digit_char(n)]
    } else {
        dec_str(n / 10).push(digit_char(n % 10))
    }
}

/// Renders a byte in decimal, matching `dec_str`.
pub fn u8_to_decimal(n: u8) -> (r: String)
    ensures
        r@ == dec_str(n as int),
{
    let mut s = String::new();
    if n >= 100 {
        push_char(&mut s, (48 + n / 100) as char);
        push_char(&mut s, (48 + (n / 10) % 10) as char);
        push_char(&mut s, (48 + n % 10) as char);
        proof {
            reveal_with_fuel(dec_str, 3);
            lemma_div_denominator(n as int, 10, 10);
            assert((n as int) / 10 / 10 == (n as int) / 100);
            assert(s@ =~= dec_str(n as int));
        }
    } else if n >= 10 {
        push_char(&mut s, (48 + n / 10) as char);
        push_char(&mut s, (48 + n % 10) as char);
        proof {
            reveal_with_fuel(dec_str, 2);
            assert(s@ =~= dec_str(n as int));
        }
    } else {
        push_char(&mut s, (48 + n) as char);
        proof {
            assert(s@ =~= dec_str(n as int));
        }
    }
    s
}


} // verus!
