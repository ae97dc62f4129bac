//! Decimal rendering of unsigned integers, with a proof that distinct
//! numbers render to distinct strings.  The benchmark uses it to mint
//! unique transaction identifiers.

use vstd::prelude::*;
use vstd::string::StringExecFns;

verus! {

/// The decimal digit character for a value below ten.
pub open spec fn dec_digit(d: nat) -> char {
    if d == 0 { '0' }
    else if d == 1 { '1' }
    else if d == 2 { '2' }
    else if d == 3 { '3' }
    else if d == 4 { '4' }
    else if d == 5 { '5' }
    else if d == 6 { '6' }
    else if d == 7 { '7' }
    else if d == 8 { '8' }
    else { '9' }
}

/// The decimal rendering of `n`, most significant digit first, with no
/// leading zero except for zero itself.
pub open spec fn dec_of(n: nat) -> Seq<char>
    decreases n,
{
    if n < 10 {
        seq![dec_digit(n)]
    } else {
        dec_of(n / 10).push(dec_digit(n % 10))
    }
}

/// A rendering is never empty.
pub proof fn lemma_dec_of_len(n: nat)
    ensures
        dec_of(n).len() >= 1,
    decreases n,
{
    if n >= 10 {
        lemma_dec_of_len(n / 10);
    }
}

/// Digit characters are distinct.
proof fn lemma_dec_digit_injective(a: nat, b: nat)
    requires
        a < 10,
        b < 10,
        dec_digit(a) == dec_digit(b),
    ensures
        a == b,
{
}

/// Distinct numbers have distinct decimal renderings.
pub proof fn lemma_dec_of_injective(a: nat, b: nat)
    requires
        dec_of(a) == dec_of(b),
    ensures
        a == b,
    decreases a + b,
{
    if a < 10 && b < 10 {
        assert(dec_of(a)[0] == dec_digit(a));
        assert(dec_of(b)[0] == dec_digit(b));
        lemma_dec_digit_injective(a, b);
    } else if a < 10 {
        lemma_dec_of_len(b / 10);
        assert(dec_of(b).len() >= 2);
        assert(dec_of(a).len() == 1);
    } else if b < 10 {
        lemma_dec_of_len(a / 10);
        assert(dec_of(a).len() >= 2);
        assert(dec_of(b).len() == 1);
    } else {
        let la = dec_of(a).len();
        assert(dec_of(a).last() == dec_digit(a % 10));
        assert(dec_of(b).last() == dec_digit(b % 10));
        lemma_dec_digit_injective(a % 10, b % 10);
        assert(dec_of(a).drop_last() =~= dec_of(a / 10));
        assert(dec_of(b).drop_last() =~= dec_of(b / 10));
        lemma_dec_of_injective(a / 10, b / 10);
    }
}

/// The one-character string for a digit.
fn digit_str(d: u64) -> (s: &'static str)
    requires
        d < 10,
    ensures
        s@ == seq![dec_digit(d as nat)],
{
    if d == 0 { proof { reveal_strlit("0"); assert("0"@ =~= seq![dec_digit(0)]); } "0" }
    else if d == 1 { proof { reveal_strlit("1"); assert("1"@ =~= seq![dec_digit(1)]); } "1" }
    else if d == 2 { proof { reveal_strlit("2"); assert("2"@ =~= seq![dec_digit(2)]); } "2" }
    else if d == 3 { proof { reveal_strlit("3"); assert("3"@ =~= seq![dec_digit(3)]); } "3" }
    else if d == 4 { proof { reveal_strlit("4"); assert("4"@ =~= seq![dec_digit(4)]); } "4" }
    else if d == 5 { proof { reveal_strlit("5"); assert("5"@ =~= seq![dec_digit(5)]); } "5" }
    else if d == 6 { proof { reveal_strlit("6"); assert("6"@ =~= seq![dec_digit(6)]); } "6" }
    else if d == 7 { proof { reveal_strlit("7"); assert("7"@ =~= seq![dec_digit(7)]); } "7" }
    else if d == 8 { proof { reveal_strlit("8"); assert("8"@ =~= seq![dec_digit(8)]); } "8" }
    else { proof { reveal_strlit("9"); assert("9"@ =~= seq![dec_digit(9)]); } "9" }
}

/// Renders `n` in decimal.
pub fn render_u64(n: u64) -> (s: String)
    ensures
        s@ == dec_of(n as nat),
    decreases n,
{
    if n < 10 {
        String::from_str(digit_str(n))
    } else {
        let mut s = render_u64(n / 10);
        s.append(digit_str(n % 10));
        proof {
            assert(s@ =~= dec_of((n / 10) as nat).push(dec_digit((n % 10) as nat)));
        }
        s
    }
}

} // verus!
