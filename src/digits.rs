//! Decimal width of a number, for aligning printed columns.

use vstd::prelude::*;

verus! {

/// The number of decimal digits of `n`; zero has one digit.
pub open spec fn digit_count(n: nat) -> nat
    decreases n,
{
    if n < 10 {
        1
    } else {
        1 + digit_count(n / 10)
    }
}

proof fn lemma_digit_count_bounds(n: nat)
    ensures
        1 <= digit_count(n) <= n + 1,
        n >= 1 ==> digit_count(n) <= n,
        n >= 10 ==> digit_count(n) >= 2,
    decreases n,
{
    if n >= 10 {
        lemma_digit_count_bounds(n / 10);
    }
}

/// The number of decimal digits needed to print `given`.
pub fn usize_len(given: usize) -> (r: usize)
    ensures
        r == digit_count(given as nat),
{
    let mut n = given;
    let mut r: usize = 1;
    while n >= 10
        invariant
            r + digit_count(n as nat) == digit_count(given as nat) + 1,
            r >= 1,
        decreases n,
    {
        proof {
            lemma_digit_count_bounds(n as nat);
            lemma_digit_count_bounds(given as nat);
        }
        n = n / 10;
        r = r + 1;
    }
    r
}

} // verus!
