//! Integer helpers for sizes, offsets and alignments.

use vstd::prelude::*;

verus! {

/// `a` is a power of two.
pub open spec fn is_pow2(a: nat) -> bool
    decreases a,
{
    if a <= 1 {
        a == 1
    } else {
        a % 2 == 0 && is_pow2(a / 2)
    }
}

/// The smallest multiple of 8 that is at least `x`.
pub open spec fn round8(x: nat) -> nat {
    if x % 8 == 0 {
        x
    } else {
        (x + 8 - x % 8) as nat
    }
}

/// The smallest multiple of `a` that is at least `x` (for `a > 0`).
pub open spec fn align_up(x: nat, a: nat) -> nat
    recommends
        a > 0,
{
    if x % a == 0 {
        x
    } else {
        (x + a - x % a) as nat
    }
}

pub proof fn lemma_round8(x: nat)
    ensures
        round8(x) % 8 == 0,
        x <= round8(x) < x + 8,
        x == 0 ==> round8(x) == 0,
        x % 8 == 0 ==> round8(x) == x,
{
}

pub proof fn lemma_round8_monotone(x: nat, y: nat)
    requires
        x <= y,
    ensures
        round8(x) <= round8(y),
{
}

pub proof fn lemma_align_up(x: nat, a: nat)
    requires
        a > 0,
    ensures
        align_up(x, a) % a == 0,
        x <= align_up(x, a) < x + a,
{
    if x % a != 0 {
        vstd::arithmetic::div_mod::lemma_fundamental_div_mod(x as int, a as int);
        vstd::arithmetic::div_mod::lemma_mod_multiples_basic(x as int / a as int + 1, a as int);
        assert((x + a - x % a) == (x as int / a as int + 1) * a) by (nonlinear_arith)
            requires
                x == a * (x as int / a as int) + x % a,
        ;
    }
}

/// A power of two above 8 is a multiple of 8.
pub proof fn lemma_pow2_large_mult8(a: nat)
    requires
        is_pow2(a),
        a >= 8,
    ensures
        a % 8 == 0,
    decreases a,
{
    if a > 8 {
        assert(a % 2 == 0 && is_pow2(a / 2));
        if a / 2 >= 8 {
            lemma_pow2_large_mult8(a / 2);
        } else {
            lemma_pow2_small_divides8((a / 2) as nat);
        }
    }
}

/// A power of two up to 8 divides 8.
pub proof fn lemma_pow2_small_divides8(a: nat)
    requires
        is_pow2(a),
        a <= 8,
    ensures
        a == 1 || a == 2 || a == 4 || a == 8,
{
    if a > 1 {
        assert(is_pow2(a / 2));
        if a / 2 > 1 {
            assert(is_pow2(a / 4));
            if a / 4 > 1 {
                assert(is_pow2(a / 8));
            }
        }
    }
}

/// A multiple of 8 is aligned to every power of two up to 8.
pub proof fn lemma_mult8_aligned_small(x: nat, a: nat)
    requires
        is_pow2(a),
        a <= 8,
        x % 8 == 0,
    ensures
        x % a == 0,
{
    lemma_pow2_small_divides8(a);
}

/// Whether `x` is a power of two.
pub fn is_power_of_two(x: usize) -> (r: bool)
    ensures
        r == is_pow2(x as nat),
{
    let mut y: usize = x;
    while y > 1 && y % 2 == 0
        invariant
            y <= x,
            is_pow2(x as nat) == is_pow2(y as nat),
        decreases y,
    {
        y = y / 2;
    }
    y == 1
}

/// Rounds `x` up to a multiple of 8; `None` where that does not fit a `usize`.
pub fn round_up8(x: usize) -> (r: Option<usize>)
    ensures
        r matches Some(v) ==> v == round8(x as nat),
        r is None <==> round8(x as nat) > usize::MAX,
{
    proof {
        lemma_round8(x as nat);
    }
    let rem: usize = x % 8;
    if rem == 0 {
        Some(x)
    } else {
        x.checked_add(8 - rem)
    }
}

/// Rounds `x` up to a multiple of `div`; `None` where that does not fit a
/// `usize`.
pub fn align_up_usize(x: usize, div: usize) -> (r: Option<usize>)
    requires
        div > 0,
    ensures
        r matches Some(v) ==> v == align_up(x as nat, div as nat),
        r is None <==> align_up(x as nat, div as nat) > usize::MAX,
{
    let rem: usize = x % div;
    if rem == 0 {
        Some(x)
    } else {
        x.checked_add(div - rem)
    }
}

/// Whether `x` is a multiple of `align`.
pub fn is_aligned(x: usize, align: usize) -> (r: bool)
    requires
        align > 0,
    ensures
        r == (x % align == 0),
{
    x % align == 0
}

} // verus!
