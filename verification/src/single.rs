//! Single precision numbers: what the bits of one stand for.
use vstd::prelude::*;

verus! {

use crate::distance::order_key;
use vstd::arithmetic::power2::pow2;

/// The exponent field of a single precision number.
pub open spec fn exponent_of(bits: u32) -> int {
    bits as int / 0x80_0000 % 0x100
}

/// The fraction field of a single precision number.
pub open spec fn fraction_of(bits: u32) -> int {
    bits as int % 0x80_0000
}

/// Whether the bits stand for a number or an infinity, and not for what is no number.
pub open spec fn is_number(bits: u32) -> bool {
    exponent_of(bits) == 255 ==> fraction_of(bits) == 0
}

/// How far from zero the number is, in units of the least single precision number above
/// zero. An infinity counts as the number that would follow the greatest finite one.
pub open spec fn magnitude_of(bits: u32) -> int {
    if exponent_of(bits) == 0 {
        fraction_of(bits)
    } else {
        (0x80_0000 + fraction_of(bits)) * pow2((exponent_of(bits) - 1) as nat)
    }
}

/// What the bits stand for, in units of the least single precision number above zero.
pub open spec fn value_of(bits: u32) -> int {
    if bits >= 0x8000_0000 {
        -magnitude_of(bits)
    } else {
        magnitude_of(bits)
    }
}

/// Whether `a` stands for a smaller number than `b`.
pub open spec fn less(a: u32, b: u32) -> bool {
    is_number(a) && is_number(b) && value_of(a) < value_of(b)
}

proof fn lemma_magnitude_grows(a: u32, b: u32)
    requires
        a as int % 0x8000_0000 < b as int % 0x8000_0000,
    ensures
        0 <= magnitude_of(a) < magnitude_of(b),
{
    let ea = exponent_of(a);
    let eb = exponent_of(b);
    let fa = fraction_of(a);
    let fb = fraction_of(b);
    assert(a as int % 0x8000_0000 == ea * 0x80_0000 + fa);
    assert(b as int % 0x8000_0000 == eb * 0x80_0000 + fb);
    if ea > 0 {
        vstd::arithmetic::power2::lemma_pow2_pos((ea - 1) as nat);
        let p = pow2((ea - 1) as nat) as int;
        assert(0 <= (0x80_0000 + fa) * p) by (nonlinear_arith)
            requires
                0 <= fa,
                0 < p,
        ;
    }
    if eb > 0 {
        vstd::arithmetic::power2::lemma_pow2_pos((eb - 1) as nat);
        let p = pow2((eb - 1) as nat) as int;
        if ea == eb {
            assert((0x80_0000 + fa) * p < (0x80_0000 + fb) * p) by (nonlinear_arith)
                requires
                    fa < fb,
                    0 < p,
            ;
        } else if ea == 0 {
            assert(0x80_0000 <= (0x80_0000 + fb) * p) by (nonlinear_arith)
                requires
                    0 <= fb,
                    0 < p,
            ;
        } else {
            let l = pow2((ea - 1) as nat) as int;
            vstd::arithmetic::power2::lemma_pow2_unfold(ea as nat);
            if ea < eb - 1 {
                vstd::arithmetic::power2::lemma_pow2_strictly_increases(
                    ea as nat,
                    (eb - 1) as nat,
                );
            }
            assert(2 * l <= p);
            assert((0x80_0000 + fa) * l < (0x80_0000 + fb) * p) by (nonlinear_arith)
                requires
                    0 <= fa < 0x80_0000,
                    0 <= fb,
                    0 < l,
                    2 * l <= p,
            ;
        }
    }
}

/// Distances are compared as the single precision numbers that they are: the smaller number
/// comes first, zero is zero with either sign, and what is no number is neither smaller nor
/// greater than anything.
pub proof fn law_order_of_numbers(a: u32, b: u32)
    ensures
        order_key(a) is Some <==> is_number(a),
        less(a, b) <==> (order_key(a) matches Some(x) && order_key(b) matches Some(y) && x < y),
        is_number(a) && is_number(b) ==> (value_of(a) == value_of(b) <==> order_key(a)
            == order_key(b)),
{
    let ka = a as int % 0x8000_0000;
    let kb = b as int % 0x8000_0000;
    assert(ka == exponent_of(a) * 0x80_0000 + fraction_of(a));
    assert(kb == exponent_of(b) * 0x80_0000 + fraction_of(b));
    if ka < kb {
        lemma_magnitude_grows(a, b);
    } else if kb < ka {
        lemma_magnitude_grows(b, a);
    } else {
        assert(magnitude_of(a) == magnitude_of(b));
    }
    if ka > 0 {
        lemma_magnitude_grows(0, a);
    }
    if kb > 0 {
        lemma_magnitude_grows(0, b);
    }
}

} // verus!
