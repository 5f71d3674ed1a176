//! Decimal digit positions of `u32` values, for the radix passes.

use vstd::prelude::*;

verus! {

use vstd::arithmetic::div_mod::{lemma_breakdown, lemma_mod_bound, lemma_small_mod};
use crate::order::is_sorted;

/// The `p`-th power of ten.
pub open spec fn pow10(p: nat) -> nat
    decreases p,
{
    if p == 0 {
        1
    } else {
        10 * pow10((p - 1) as nat)
    }
}

/// The value of `x` below digit position `p`: its last `p` decimal digits.
pub open spec fn low(x: u32, p: nat) -> nat {
    (x as nat) % pow10(p)
}

/// The decimal digit of `x` at position `p`, least significant first.
pub open spec fn digit_at(x: u32, p: nat) -> nat {
    ((x as nat) / pow10(p)) % 10
}

/// `s` is sorted when only the last `p` decimal digits of each element count.
pub open spec fn sorted_low(s: Seq<u32>, p: nat) -> bool {
    forall|i: int, j: int| 0 <= i <= j < s.len() ==> low(s[i], p) <= low(s[j], p)
}

/// Powers of ten are positive.
pub proof fn lemma_pow10_pos(p: nat)
    ensures
        pow10(p) >= 1,
    decreases p,
{
    if p > 0 {
        lemma_pow10_pos((p - 1) as nat);
    }
}

/// Powers of ten grow with the exponent.
pub proof fn lemma_pow10_mono(i: nat, j: nat)
    requires
        i <= j,
    ensures
        pow10(i) <= pow10(j),
    decreases j,
{
    if i < j {
        lemma_pow10_mono(i, (j - 1) as nat);
        lemma_pow10_pos((j - 1) as nat);
    }
}

/// Ten decimal digits cover the whole range of `u32`.
pub proof fn lemma_pow10_ten()
    ensures
        pow10(8) == 100_000_000,
        pow10(9) == 1_000_000_000,
        pow10(10) == 10_000_000_000,
{
    assert(pow10(0) == 1);
    assert(pow10(1) == 10);
    assert(pow10(2) == 100);
    assert(pow10(3) == 1000);
    assert(pow10(4) == 10000);
    assert(pow10(5) == 100000);
    assert(pow10(6) == 1000000);
    assert(pow10(7) == 10000000);
    assert(pow10(8) == 100000000);
    assert(pow10(9) == 1000000000);
    assert(pow10(10) == 10_000_000_000);
}

/// The digits below position `p + 1` are the digit at `p` followed by the
/// digits below `p`, and the latter stay below `pow10(p)`.
pub proof fn lemma_low_breakdown(x: u32, p: nat)
    ensures
        low(x, p + 1) == digit_at(x, p) * pow10(p) + low(x, p),
        low(x, p) < pow10(p),
        digit_at(x, p) < 10,
{
    lemma_pow10_pos(p);
    let xi = x as int;
    let pp = pow10(p) as int;
    lemma_breakdown(xi, pp, 10);
    assert(xi % (pp * 10) == pp * ((xi / pp) % 10) + xi % pp);
    lemma_mod_bound(xi, pp);
    lemma_mod_bound(xi / pp, 10);
    assert(pow10(p + 1) == 10 * pow10(p));
    assert(pow10(p + 1) as int == pp * 10) by (nonlinear_arith)
        requires
            pow10(p + 1) == 10 * pow10(p),
            pp == pow10(p) as int,
    {}
    assert(low(x, p + 1) as int == xi % (pp * 10));
    assert(digit_at(x, p) as int == (xi / pp) % 10);
    assert(low(x, p) as int == xi % pp);
    assert((digit_at(x, p) * pow10(p)) as int == pp * ((xi / pp) % 10)) by (nonlinear_arith)
        requires
            digit_at(x, p) as int == (xi / pp) % 10,
            pp == pow10(p) as int,
            pp >= 1,
            (xi / pp) % 10 >= 0,
    {}
}

/// Once the position passes every digit of `u32`, the low part is the value.
pub proof fn lemma_low_full(x: u32)
    ensures
        low(x, 10) == x as nat,
{
    lemma_pow10_ten();
    lemma_small_mod(x as nat, pow10(10));
}

/// A smaller digit at position `p` decides the order of the low parts one
/// position higher, whatever the digits below say.
pub proof fn lemma_digit_lt_low(e1: u32, e2: u32, p: nat)
    requires
        digit_at(e1, p) < digit_at(e2, p),
    ensures
        low(e1, p + 1) < low(e2, p + 1),
{
    lemma_low_breakdown(e1, p);
    lemma_low_breakdown(e2, p);
    lemma_pow10_pos(p);
    assert(digit_at(e1, p) * pow10(p) + low(e1, p) < digit_at(e2, p) * pow10(p) + low(e2, p))
        by (nonlinear_arith)
        requires
            digit_at(e1, p) < digit_at(e2, p),
            low(e1, p) < pow10(p),
            low(e2, p) >= 0,
            pow10(p) >= 1,
    {}
}

/// With equal digits at position `p`, the order of the low parts carries up
/// one position.
pub proof fn lemma_digit_le_low(e1: u32, e2: u32, p: nat)
    requires
        digit_at(e1, p) == digit_at(e2, p),
        low(e1, p) <= low(e2, p),
    ensures
        low(e1, p + 1) <= low(e2, p + 1),
{
    lemma_low_breakdown(e1, p);
    lemma_low_breakdown(e2, p);
}

/// At position zero nothing of the value counts yet.
pub proof fn lemma_sorted_low_zero(s: Seq<u32>)
    ensures
        sorted_low(s, 0),
{
    assert forall|i: int, j: int| 0 <= i <= j < s.len() implies low(s[i], 0) <= low(s[j], 0) by {
        assert(low(s[i], 0) == (s[i] as nat) % 1);
        assert(low(s[j], 0) == (s[j] as nat) % 1);
    }
}

/// Sorting by all ten digit positions is sorting outright.
pub proof fn lemma_sorted_low_full(s: Seq<u32>)
    requires
        sorted_low(s, 10),
    ensures
        is_sorted(s),
{
    assert forall|i: int, j: int| 0 <= i <= j < s.len() implies s[i] <= s[j] by {
        lemma_low_full(s[i]);
        lemma_low_full(s[j]);
        assert(low(s[i], 10) <= low(s[j], 10));
    }
}

} // verus!
