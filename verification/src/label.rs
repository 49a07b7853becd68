//! Decimal rendering for page labels.

use vstd::prelude::*;

use crate::codec::push_char;
use vstd::string::StringExecFns;

verus! {

/// The character for one decimal digit.
pub open spec fn digit_char(d: nat) -> char {
    if d == 0 {
        '0'
    } else if d == 1 {
        '1'
    } else if d == 2 {
        '2'
    } else if d == 3 {
        '3'
    } else if d == 4 {
        '4'
    } else if d == 5 {
        '5'
    } else if d == 6 {
        '6'
    } else if d == 7 {
        '7'
    } else if d == 8 {
        '8'
    } else {
        '9'
    }
}

/// The decimal rendering of `n`, most significant digit first, with no
/// leading zeroes except for zero itself.
pub open spec fn dec_digits(n: nat) -> Seq<char>
    decreases n,
{
    if n < 10 {
        seq![digit_char(n)]
    } else {
        dec_digits(n / 10).push(digit_char(n % 10))
    }
}

/// The label of page number `n`.
pub open spec fn page_label(n: nat) -> Seq<char> {
    "Page #"@ + dec_digits(n)
}

fn digit_to_char(d: usize) -> (c: char)
    requires
        d < 10,
    ensures
        c == digit_char(d as nat),
{
    if d == 0 {
        '0'
    } else if d == 1 {
        '1'
    } else if d == 2 {
        '2'
    } else if d == 3 {
        '3'
    } else if d == 4 {
        '4'
    } else if d == 5 {
        '5'
    } else if d == 6 {
        '6'
    } else if d == 7 {
        '7'
    } else if d == 8 {
        '8'
    } else {
        '9'
    }
}

/// Renders `n` in decimal.
pub fn usize_to_decimal(n: usize) -> (r: String)
    ensures
        r@ == dec_digits(n as nat),
{
    let mut digits: Vec<char> = Vec::new();
    let mut m: usize = n;
    digits.push(digit_to_char(m % 10));
    m = m / 10;
    proof {
        assert(digits@ =~= seq![digit_char((n as nat) % 10)]);
        if n >= 10 {
            assert(dec_digits(n as nat) =~= dec_digits((n as nat) / 10) + digits@.reverse());
        } else {
            assert(dec_digits(n as nat) =~= digits@.reverse());
        }
    }
    while m > 0
        invariant
            digits@.len() >= 1,
            dec_digits(n as nat) == (if m > 0 {
                dec_digits(m as nat) + digits@.reverse()
            } else {
                digits@.reverse()
            }),
        decreases m,
    {
        let d = m % 10;
        digits.push(digit_to_char(d));
        proof {
            let ghost prev = digits@.drop_last();
            assert(digits@.reverse() =~= seq![digit_char(d as nat)] + prev.reverse());
            if m >= 10 {
                assert(dec_digits(m as nat) + prev.reverse() =~= dec_digits((m as nat) / 10)
                    + digits@.reverse());
            } else {
                assert(dec_digits(m as nat) + prev.reverse() =~= digits@.reverse());
            }
        }
        m = m / 10;
    }
    let mut out = String::new();
    let mut k: usize = digits.len();
    while k > 0
        invariant
            k <= digits@.len(),
            out@.len() == digits@.len() - k,
            forall|i: int| 0 <= i < out@.len() ==> out@[i] == digits@[digits@.len() - 1 - i],
        decreases k,
    {
        push_char(&mut out, digits[k - 1]);
        k = k - 1;
    }
    proof {
        assert(out@ =~= digits@.reverse());
    }
    out
}

/// Renders the label of page number `n`.
pub fn make_page_label(n: usize) -> (r: String)
    ensures
        r@ == page_label(n as nat),
{
    let mut out = String::from_str("Page #");
    let num = usize_to_decimal(n);
    out.append(num.as_str());
    out
}

} // verus!
