//! Distances of quantised vectors, as single precision arithmetic gives them, and the order
//! of single precision numbers.
use crate::rounding::round_to_24_bits;
use crate::wire::DIM;
use vstd::prelude::*;

verus! {

use crate::rounding::{round24, spacing, EXACT_BELOW};

/// The square of a difference.
pub open spec fn square(a: int, b: int) -> nat {
    ((a - b) * (a - b)) as nat
}

/// The squared distance of the first `n` components.
pub open spec fn squared(q: Seq<i16>, v: Seq<i16>, n: nat) -> nat
    decreases n,
{
    if n == 0 {
        0
    } else {
        squared(q, v, (n - 1) as nat) + square(q[n - 1] as int, v[n - 1] as int)
    }
}

/// The sum that `acc` and the square `sq` make: with one rounding where the machine
/// multiplies and adds in one step, else with one for the square and one for the sum.
pub open spec fn accumulated(acc: nat, sq: nat, fused: bool) -> nat {
    if fused {
        round24(acc + sq)
    } else {
        round24(acc + round24(sq))
    }
}

/// The squared distance of the first `n` components, accumulated component by component.
pub open spec fn stepwise(q: Seq<i16>, v: Seq<i16>, n: nat, fused: bool) -> nat
    decreases n,
{
    if n == 0 {
        0
    } else {
        accumulated(
            stepwise(q, v, (n - 1) as nat, fused),
            square(q[n - 1] as int, v[n - 1] as int),
            fused,
        )
    }
}

/// How far `q` lies outside the range from `lo` to `hi`.
pub open spec fn outside(q: int, lo: int, hi: int) -> int {
    if q < lo {
        lo - q
    } else if q > hi {
        q - hi
    } else {
        0
    }
}

/// The squared distance of the first `n` components of `q` from a box.
pub open spec fn squared_from_box(q: Seq<i16>, lo: Seq<i16>, hi: Seq<i16>, n: nat) -> nat
    decreases n,
{
    if n == 0 {
        0
    } else {
        squared_from_box(q, lo, hi, (n - 1) as nat) + square(
            outside(q[n - 1] as int, lo[n - 1] as int, hi[n - 1] as int),
            0,
        )
    }
}

/// What a single precision number of these bits is ordered by; `None` if it is not a
/// number.
pub open spec fn order_key(bits: u32) -> Option<i64> {
    let magnitude = bits as int % 0x8000_0000;
    if magnitude > 0x7f80_0000 {
        None
    } else if bits >= 0x8000_0000 {
        Some((-magnitude) as i64)
    } else {
        Some(magnitude as i64)
    }
}

proof fn lemma_square(d: int, bound: int)
    by (nonlinear_arith)
    requires
        -bound <= d <= bound,
    ensures
        0 <= d * d <= bound * bound,
{
}

/// The square of the difference of two components.
pub fn square_of(a: i16, b: i16) -> (r: u64)
    ensures
        r == square(a as int, b as int),
        r < 0x1_0000_0000,
{
    let d = a as i64 - b as i64;
    proof {
        lemma_square(d as int, 65535);
    }
    (d * d) as u64
}

/// The square of the distance of a component from a range.
pub fn square_outside(q: i16, lo: i16, hi: i16) -> (r: u64)
    ensures
        r == square(outside(q as int, lo as int, hi as int), 0),
        r < 0x1_0000_0000,
{
    let d: i64 = if q < lo {
        lo as i64 - q as i64
    } else if q > hi {
        q as i64 - hi as i64
    } else {
        0
    };
    proof {
        lemma_square(d as int, 65535);
    }
    (d * d) as u64
}

/// A step of the accumulation.
pub fn accumulate(acc: u64, sq: u64, fused: bool) -> (r: u64)
    requires
        acc < 0x40_0000_0000,
        sq < 0x1_0000_0000,
    ensures
        r == accumulated(acc as nat, sq as nat, fused),
        r <= acc + 0x2_0000_0000,
{
    let added = if fused {
        sq
    } else {
        proof {
            crate::rounding::lemma_rounding_error(sq as nat);
            crate::rounding::lemma_spacing(sq as nat);
        }
        round_to_24_bits(sq)
    };
    proof {
        crate::rounding::lemma_rounding_error((acc + added) as nat);
        crate::rounding::lemma_spacing((acc + added) as nat);
        assert(spacing((acc + added) as nat) <= 0x1_0000);
    }
    round_to_24_bits(acc + added)
}

/// What a single precision number of these bits is ordered by; `None` if it is not a
/// number.
pub fn key_of_bits(bits: u32) -> (r: Option<i64>)
    ensures
        r == order_key(bits),
{
    let magnitude = (bits % 0x8000_0000) as i64;
    if magnitude > 0x7f80_0000 {
        None
    } else if bits >= 0x8000_0000 {
        Some(-magnitude)
    } else {
        Some(magnitude)
    }
}

pub proof fn lemma_squared_bound(q: Seq<i16>, v: Seq<i16>, n: nat)
    ensures
        squared(q, v, n) <= n * 0x1_0000_0000,
    decreases n,
{
    if n > 0 {
        lemma_squared_bound(q, v, (n - 1) as nat);
        lemma_square(q[n - 1] - v[n - 1], 65535);
    }
}

pub proof fn lemma_stepwise_bound(q: Seq<i16>, v: Seq<i16>, n: nat, fused: bool)
    requires
        n <= DIM,
    ensures
        stepwise(q, v, n, fused) <= n * 0x2_0000_0000,
    decreases n,
{
    if n > 0 {
        lemma_stepwise_bound(q, v, (n - 1) as nat, fused);
        let acc = stepwise(q, v, (n - 1) as nat, fused);
        let sq = square(q[n - 1] as int, v[n - 1] as int);
        lemma_square(q[n - 1] - v[n - 1], 65535);
        crate::rounding::lemma_rounding_error(sq);
        crate::rounding::lemma_spacing(sq);
        let added = if fused {
            sq
        } else {
            round24(sq)
        };
        crate::rounding::lemma_rounding_error(acc + added);
        crate::rounding::lemma_spacing(acc + added);
    }
}

/// A squared distance under 2^24 is exact however it is accumulated.
pub proof fn law_small_distances_are_exact(q: Seq<i16>, v: Seq<i16>, n: nat, fused: bool)
    requires
        squared(q, v, n) < EXACT_BELOW,
    ensures
        stepwise(q, v, n, fused) == squared(q, v, n),
        round24(squared(q, v, n)) == squared(q, v, n),
    decreases n,
{
    crate::rounding::law_small_numbers_are_exact(squared(q, v, n));
    if n > 0 {
        law_small_distances_are_exact(q, v, (n - 1) as nat, fused);
        crate::rounding::law_small_numbers_are_exact(
            square(q[n - 1] as int, v[n - 1] as int),
        );
    }
}

/// No vector within a box is nearer than the box, before and after rounding.
pub proof fn law_box_is_nearer(q: Seq<i16>, v: Seq<i16>, lo: Seq<i16>, hi: Seq<i16>, n: nat)
    requires
        forall|d: int| 0 <= d < n ==> lo[d] <= #[trigger] v[d] <= hi[d],
    ensures
        squared_from_box(q, lo, hi, n) <= squared(q, v, n),
        round24(squared_from_box(q, lo, hi, n)) <= round24(squared(q, v, n)),
    decreases n,
{
    if n > 0 {
        law_box_is_nearer(q, v, lo, hi, (n - 1) as nat);
        let a = outside(q[n - 1] as int, lo[n - 1] as int, hi[n - 1] as int);
        let b = q[n - 1] - v[n - 1];
        assert(lo[n - 1] <= v[n - 1] <= hi[n - 1]);
        assert(a * a <= b * b) by (nonlinear_arith)
            requires
                0 <= a,
                a <= b || a <= -b,
        ;
        assert((a - 0) * (a - 0) == a * a);
    }
    crate::rounding::law_rounding_keeps_order(
        squared_from_box(q, lo, hi, n),
        squared(q, v, n),
    );
}

/// A vector is at no distance from itself, and two vectors are equally far from each other
/// both ways.
pub proof fn law_distance(q: Seq<i16>, v: Seq<i16>, n: nat, fused: bool)
    ensures
        squared(q, v, n) == squared(v, q, n),
        stepwise(q, v, n, fused) == stepwise(v, q, n, fused),
        squared(q, q, n) == 0,
    decreases n,
{
    if n > 0 {
        law_distance(q, v, (n - 1) as nat, fused);
        let a = q[n - 1] as int;
        let b = v[n - 1] as int;
        assert((a - b) * (a - b) == (b - a) * (b - a)) by (nonlinear_arith);
        assert((a - a) * (a - a) == 0) by (nonlinear_arith);
    }
}

/// However a squared distance is accumulated, each component puts it off by no more than
/// three parts in 2^24.
pub proof fn law_distances_are_nearly_exact(q: Seq<i16>, v: Seq<i16>, n: nat, fused: bool)
    requires
        n <= 14,
    ensures
        0x100_0000 * (stepwise(q, v, n, fused) - squared(q, v, n)) <= 3 * n * squared(q, v, n),
        0x100_0000 * (squared(q, v, n) - stepwise(q, v, n, fused)) <= 3 * n * squared(q, v, n),
        0x100_0000 * (round24(squared(q, v, n)) - squared(q, v, n)) <= squared(q, v, n),
        0x100_0000 * (squared(q, v, n) - round24(squared(q, v, n))) <= squared(q, v, n),
    decreases n,
{
    crate::rounding::law_rounding_is_slight(squared(q, v, n));
    if n > 0 {
        let m = (n - 1) as nat;
        law_distances_are_nearly_exact(q, v, m, fused);
        let acc = stepwise(q, v, m, fused) as int;
        let sum = squared(q, v, m) as int;
        let a = q[n - 1] - v[n - 1];
        assert(a * a >= 0) by (nonlinear_arith);
        let sq = square(q[n - 1] as int, v[n - 1] as int);
        let added = if fused {
            sq
        } else {
            round24(sq)
        };
        crate::rounding::law_rounding_is_slight(sq);
        crate::rounding::law_rounding_is_slight((acc + added) as nat);
        assert(3 * m * sum <= 42 * sum) by (nonlinear_arith)
            requires
                m <= 14,
                sum >= 0,
        ;
        assert(3 * n * (sum + sq) == 3 * m * sum + 3 * sum + 3 * n * sq) by (nonlinear_arith)
            requires
                n == m + 1,
        ;
        assert(3 * n * sq >= 3 * sq) by (nonlinear_arith)
            requires
                n >= 1,
                sq >= 0,
        ;
    }
}

/// The distance from a box is that of its point that is nearest: the query itself moved
/// into the box, component by component.
pub proof fn law_box_is_reached(q: Seq<i16>, v: Seq<i16>, lo: Seq<i16>, hi: Seq<i16>, n: nat)
    requires
        forall|d: int|
            0 <= d < n ==> #[trigger] v[d] == if q[d] < lo[d] {
                lo[d]
            } else if q[d] > hi[d] {
                hi[d]
            } else {
                q[d]
            },
    ensures
        squared_from_box(q, lo, hi, n) == squared(q, v, n),
    decreases n,
{
    if n > 0 {
        law_box_is_reached(q, v, lo, hi, (n - 1) as nat);
        let a = outside(q[n - 1] as int, lo[n - 1] as int, hi[n - 1] as int);
        let b = q[n - 1] - v[n - 1];
        assert(v[n - 1] == v[n - 1]);
        assert(a == b || a == -b);
        assert((a - 0) * (a - 0) == b * b) by (nonlinear_arith)
            requires
                a == b || a == -b,
        ;
    }
}

/// Each component adds the square of its difference. A machine that multiplies and adds in
/// one step rounds the sum; another one rounds the square as well.
pub proof fn law_components_are_accumulated(q: Seq<i16>, v: Seq<i16>, n: nat)
    ensures
        stepwise(q, v, 0, true) == 0,
        stepwise(q, v, 0, false) == 0,
        stepwise(q, v, n + 1, true) == round24(
            stepwise(q, v, n, true) + ((q[n as int] - v[n as int]) * (q[n as int]
                - v[n as int])) as nat,
        ),
        stepwise(q, v, n + 1, false) == round24(
            stepwise(q, v, n, false) + round24(
                ((q[n as int] - v[n as int]) * (q[n as int] - v[n as int])) as nat,
            ),
        ),
{
}

} // verus!
