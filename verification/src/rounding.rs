//! Rounding to 24 significant bits, as single precision arithmetic does it.
use vstd::prelude::*;

verus! {

/// From here on not every integer is represented.
pub const EXACT_BELOW: u64 = 0x100_0000;

/// The distance of the represented numbers round `n`.
pub open spec fn spacing(n: nat) -> nat
    decreases n,
{
    if n < EXACT_BELOW {
        1
    } else {
        2 * spacing(n / 2)
    }
}

/// The multiple of `step` that is nearest to `n`, and of two that are equally near the
/// even one.
pub open spec fn nearest_multiple(n: nat, step: nat) -> nat {
    let below = n / step;
    let rest = n % step;
    if 2 * rest > step || (2 * rest == step && below % 2 == 1) {
        (below + 1) * step
    } else {
        below * step
    }
}

/// `n` rounded to 24 significant bits, ties to even.
pub open spec fn round24(n: nat) -> nat {
    nearest_multiple(n, spacing(n))
}

pub proof fn lemma_spacing(n: nat)
    ensures
        spacing(n) >= 1,
        n < EXACT_BELOW * spacing(n),
        n >= EXACT_BELOW ==> EXACT_BELOW * spacing(n) <= 2 * n,
        n >= EXACT_BELOW ==> spacing(n) % 2 == 0,
    decreases n,
{
    if n >= EXACT_BELOW {
        lemma_spacing(n / 2);
        if n / 2 < EXACT_BELOW {
            assert(spacing(n / 2) == 1);
        }
    }
}

/// A step that fits is the step.
proof fn lemma_spacing_is(n: nat, e: nat)
    requires
        EXACT_BELOW <= n,
        n < EXACT_BELOW * vstd::arithmetic::power2::pow2(e),
        EXACT_BELOW * vstd::arithmetic::power2::pow2(e) <= 2 * n,
    ensures
        spacing(n) == vstd::arithmetic::power2::pow2(e),
    decreases n,
{
    vstd::arithmetic::power2::lemma2_to64();
    if e == 0 {
        assert(false);
    }
    vstd::arithmetic::power2::lemma_pow2_unfold(e);
    let half = (e - 1) as nat;
    if n / 2 < EXACT_BELOW {
        assert(spacing(n / 2) == 1);
        if half > 0 {
            vstd::arithmetic::power2::lemma_pow2_unfold(half);
            assert(vstd::arithmetic::power2::pow2((half - 1) as nat) >= 1) by {
                vstd::arithmetic::power2::lemma_pow2_pos((half - 1) as nat);
            }
            assert(false);
        }
    } else {
        lemma_spacing_is(n / 2, half);
    }
}

/// `n` rounded to 24 significant bits, ties to even.
pub fn round_to_24_bits(n: u64) -> (r: u64)
    requires
        n < 0x1000_0000_0000_0000,
    ensures
        r == round24(n as nat),
        r <= 2 * n,
{
    let mut step: u64 = 1;
    let ghost mut e: nat = 0;
    proof {
        vstd::arithmetic::power2::lemma2_to64();
    }
    while n / step >= EXACT_BELOW
        invariant
            step == vstd::arithmetic::power2::pow2(e),
            1 <= step,
            step <= n || step == 1,
            n < 0x1000_0000_0000_0000,
            step > 1 ==> EXACT_BELOW * step <= 2 * n,
            step > 1 ==> n >= EXACT_BELOW,
        decreases n + 1 - step,
    {
        proof {
            vstd::arithmetic::power2::lemma_pow2_unfold(e + 1);
            e = e + 1;
            assert(EXACT_BELOW * step <= n) by (nonlinear_arith)
                requires
                    n / step >= EXACT_BELOW,
                    step >= 1,
            ;
        }
        step = step * 2;
    }
    proof {
        assert(n < EXACT_BELOW * step) by (nonlinear_arith)
            requires
                n / step < EXACT_BELOW,
                step >= 1,
        ;
        if n < EXACT_BELOW {
            assert(step == 1);
        } else {
            lemma_spacing_is(n as nat, e);
        }
        vstd::arithmetic::div_mod::lemma_fundamental_div_mod(n as int, step as int);
    }
    let below = n / step;
    let rest = n % step;
    assert(below * step <= n && (below + 1) * step <= 2 * n + 1) by (nonlinear_arith)
        requires
            n == step * below + rest,
            0 <= rest < step,
            step <= n || step == 1,
    ;
    if 2 * rest > step || (2 * rest == step && below % 2 == 1) {
        assert((below + 1) * step <= 2 * n) by (nonlinear_arith)
            requires
                n == step * below + rest,
                0 <= rest < step,
                step <= n || step == 1,
                2 * rest >= step,
        ;
        (below + 1) * step
    } else {
        below * step
    }
}

proof fn lemma_spacing_grows(m: nat, n: nat)
    requires
        m <= n,
    ensures
        spacing(m) == spacing(n) || 2 * spacing(m) <= spacing(n),
    decreases n,
{
    lemma_spacing(n / 2);
    if m >= EXACT_BELOW {
        lemma_spacing_grows(m / 2, n / 2);
    }
}

proof fn lemma_between_multiples(n: nat, step: nat, a: nat, b: nat)
    requires
        step >= 1,
        a * step <= n <= b * step,
    ensures
        a * step <= nearest_multiple(n, step) <= b * step,
{
    let below = n / step;
    let rest = n % step;
    vstd::arithmetic::div_mod::lemma_fundamental_div_mod(n as int, step as int);
    assert(a <= below) by (nonlinear_arith)
        requires
            n == step * below + rest,
            0 <= rest < step,
            a * step <= n,
            step >= 1,
    ;
    assert(a * step <= below * step) by (nonlinear_arith)
        requires
            a <= below,
            step >= 1,
    ;
    assert(below * step <= (below + 1) * step) by (nonlinear_arith);
    assert(below * step == step * below) by (nonlinear_arith);
    if rest > 0 {
        assert(below + 1 <= b) by (nonlinear_arith)
            requires
                n == step * below + rest,
                0 < rest < step,
                n <= b * step,
                step >= 1,
        ;
        assert((below + 1) * step <= b * step) by (nonlinear_arith)
            requires
                below + 1 <= b,
                step >= 1,
        ;
    }
}

proof fn lemma_same_step(m: nat, n: nat, step: nat)
    requires
        step >= 1,
        m <= n,
    ensures
        nearest_multiple(m, step) <= nearest_multiple(n, step),
{
    let qm = m / step;
    let qn = n / step;
    vstd::arithmetic::div_mod::lemma_fundamental_div_mod(m as int, step as int);
    vstd::arithmetic::div_mod::lemma_fundamental_div_mod(n as int, step as int);
    vstd::arithmetic::div_mod::lemma_div_is_ordered(m as int, n as int, step as int);
    assert(qn * step <= (qn + 1) * step) by (nonlinear_arith);
    assert(qm * step <= (qm + 1) * step) by (nonlinear_arith);
    if qm < qn {
        assert((qm + 1) * step <= qn * step) by (nonlinear_arith)
            requires
                qm + 1 <= qn,
                step >= 1,
        ;
    }
}

/// Rounding goes no farther than one step.
pub proof fn lemma_rounding_error(n: nat)
    ensures
        round24(n) <= n + spacing(n),
        n <= round24(n) + spacing(n),
{
    lemma_spacing(n);
    let step = spacing(n);
    vstd::arithmetic::div_mod::lemma_fundamental_div_mod(n as int, step as int);
    assert((n / step) * step == step * (n / step)) by (nonlinear_arith);
    assert((n / step + 1) * step == step * (n / step) + step) by (nonlinear_arith);
}

/// Rounding keeps the order.
pub proof fn law_rounding_keeps_order(m: nat, n: nat)
    requires
        m <= n,
    ensures
        round24(m) <= round24(n),
{
    lemma_spacing(m);
    lemma_spacing(n);
    lemma_spacing_grows(m, n);
    if spacing(m) == spacing(n) {
        lemma_same_step(m, n, spacing(m));
    } else {
        let low = (EXACT_BELOW / 2) as nat;
        let high = EXACT_BELOW as nat;
        if n < EXACT_BELOW {
            assert(spacing(m) == 1 && spacing(n) == 1);
        }
        lemma_between_multiples(m, spacing(m), 0, high);
        assert(low * spacing(n) <= n && n <= high * spacing(n));
        lemma_between_multiples(n, spacing(n), low, high);
        assert(high * spacing(m) <= low * spacing(n));
    }
}

/// Numbers under 2^24 are not changed by rounding.
pub proof fn law_small_numbers_are_exact(n: nat)
    requires
        n < EXACT_BELOW,
    ensures
        round24(n) == n,
{
    assert(spacing(n) == 1);
    assert(n / 1 == n && n % 1 == 0);
}

/// Between 2^(23+e) and 2^(24+e) a number is rounded to a multiple of 2^e that none is nearer
/// than, and of two that are equally near to the one with the even factor.
pub proof fn law_rounding_is_to_the_nearest(n: nat, e: nat)
    requires
        e > 0,
        0x80_0000 * vstd::arithmetic::power2::pow2(e) <= n,
        n < 0x100_0000 * vstd::arithmetic::power2::pow2(e),
    ensures
        ({
            let step = vstd::arithmetic::power2::pow2(e) as int;
            &&& exists|factor: int| #[trigger] (factor * step) == round24(n) && (2 * (round24(n) - n)
                == step || 2 * (n - round24(n)) == step ==> factor % 2 == 0)
            &&& 2 * (round24(n) - n) <= step
            &&& 2 * (n - round24(n)) <= step
        }),
{
    let step = vstd::arithmetic::power2::pow2(e) as int;
    vstd::arithmetic::power2::lemma_pow2_pos(e);
    vstd::arithmetic::power2::lemma2_to64();
    assert(step >= 2) by {
        if e > 1 {
            vstd::arithmetic::power2::lemma_pow2_strictly_increases(1, e);
        }
    }
    assert(EXACT_BELOW <= n);
    lemma_spacing_is(n, e);
    let below = n as int / step;
    let rest = n as int % step;
    vstd::arithmetic::div_mod::lemma_fundamental_div_mod(n as int, step);
    assert(below * step == step * below) by (nonlinear_arith);
    assert((below + 1) * step == step * below + step) by (nonlinear_arith);
    if 2 * rest > step || (2 * rest == step && below % 2 == 1) {
        assert((below + 1) * step == round24(n));
    } else {
        assert(below * step == round24(n));
    }
}

/// Rounding changes a number by no more than one part in 2^24.
pub proof fn law_rounding_is_slight(n: nat)
    ensures
        0x100_0000 * (round24(n) - n) <= n,
        0x100_0000 * (n - round24(n)) <= n,
{
    lemma_spacing(n);
    if n < EXACT_BELOW {
        law_small_numbers_are_exact(n);
    } else {
        let step = spacing(n) as int;
        let below = n as int / step;
        let rest = n as int % step;
        vstd::arithmetic::div_mod::lemma_fundamental_div_mod(n as int, step);
        assert(below * step == step * below) by (nonlinear_arith);
        assert((below + 1) * step == step * below + step) by (nonlinear_arith);
    }
}

} // verus!
