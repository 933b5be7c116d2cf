//! Every element of the field but zero has an inverse.
//!
//! Squaring is additive, so it is a map on the coefficient words with a closed
//! form. From it one reads off that zero and one are the only elements equal to
//! their own square, and that only zero has the square zero. Among the powers
//! of an element two are equal, hence some power equals its own square: it is
//! zero, and then so is the element, or it is one, and then the element has an
//! inverse.

use crate::field::{
    coefficient, lemma_add_associates, lemma_add_self, lemma_add_zero, lemma_add_zero_iff_equal,
    lemma_mul_associates, lemma_mul_commutes, lemma_mul_distributes, lemma_mul_exchanges,
    lemma_mul_one, lemma_mul_zero, lemma_product_of_one, lemma_product_times_x,
    lemma_times_x_pow_of_one, product_below, times_x, times_x_pow, F128,
};
use crate::sums::power;
use vstd::arithmetic::power2::{lemma2_to64, lemma_pow2_adds, pow2};
use vstd::prelude::*;
use vstd::set_lib::{lemma_int_range, lemma_len_subset, lemma_map_size, set_int_range};

verus! {

/// The low 64 bits of `a`, with a zero above each.
pub open spec fn spread(a: u128) -> u128 {
    let a0 = a & 0xffff_ffff_ffff_ffff;
    let a1 = (a0 ^ (a0 << 32)) & 0x00000000_ffffffff_00000000_ffffffff;
    let a2 = (a1 ^ (a1 << 16)) & 0x0000ffff_0000ffff_0000ffff_0000ffff;
    let a3 = (a2 ^ (a2 << 8)) & 0x00ff00ff_00ff00ff_00ff00ff_00ff00ff;
    let a4 = (a3 ^ (a3 << 4)) & 0x0f0f0f0f_0f0f0f0f_0f0f0f0f_0f0f0f0f;
    let a5 = (a4 ^ (a4 << 2)) & 0x33333333_33333333_33333333_33333333;
    (a5 ^ (a5 << 1)) & 0x55555555_55555555_55555555_55555555
}

/// The coefficients of the square: those of `a` at the even exponents, the
/// upper half reduced.
pub open spec fn square_bits(a: u128) -> u128 {
    let lo = spread(a);
    let hi = spread(a >> 64);
    let over = (hi >> 127) ^ (hi >> 126) ^ (hi >> 121);
    lo ^ hi ^ (hi << 1) ^ (hi << 2) ^ (hi << 7) ^ over ^ (over << 1) ^ (over << 2) ^ (over << 7)
}

proof fn lemma_square_bits_add(a: u128, b: u128)
    ensures
        square_bits(a ^ b) == square_bits(a) ^ square_bits(b),
{
    assert(square_bits(a ^ b) == square_bits(a) ^ square_bits(b)) by (bit_vector);
}

/// Multiplication by `x`.
pub proof fn lemma_mul_x(a: F128)
    ensures
        (F128 { bits: 2 }) * a == (F128 { bits: times_x(a.bits) }),
{
    reveal(F128::spec_mul);
    assert(times_x(1) == 2) by (bit_vector);
    lemma_product_times_x(1, a.bits, 128);
    lemma_product_of_one(a.bits, 128);
}

/// The square of `x^n`.
proof fn lemma_square_of_x_pow(n: nat)
    requires
        n < 128,
    ensures
        (F128 { bits: times_x_pow(1, n) }) * (F128 { bits: times_x_pow(1, n) }) == (F128 {
            bits: square_bits(times_x_pow(1, n)),
        }),
    decreases n,
{
    if n == 0 {
        assert(square_bits(1) == 1) by (bit_vector);
        lemma_mul_one(F128::one());
    } else {
        let m = (n - 1) as nat;
        lemma_square_of_x_pow(m);
        lemma_times_x_pow_of_one(m);
        lemma_times_x_pow_of_one(n);
        let x = F128 { bits: 2 };
        let low = F128 { bits: times_x_pow(1, m) };
        lemma_mul_x(low);
        lemma_mul_exchanges(x, low, x, low);
        lemma_mul_associates(x, x, low * low);
        lemma_mul_x(low * low);
        lemma_mul_x(x * (low * low));
        let i = m as u128;
        assert(i < 127 ==> square_bits(1u128 << ((i + 1) as u128)) == times_x(
            times_x(square_bits(1u128 << i)),
        )) by (bit_vector);
    }
}

/// Squaring is additive.
proof fn lemma_square_adds(a: F128, b: F128)
    ensures
        (a + b) * (a + b) == a * a + b * b,
{
    lemma_mul_distributes(a + b, a, b);
    lemma_mul_distributes(a, a, b);
    lemma_mul_distributes(b, a, b);
    lemma_mul_commutes(a, b);
    let ab = a * b;
    lemma_add_associates(a * a, ab, ab + b * b);
    lemma_add_associates(ab, ab, b * b);
    lemma_add_self(ab);
    lemma_add_zero(b * b);
}

proof fn lemma_square_of_terms(a: u128, n: nat)
    requires
        n <= 128,
    ensures
        (F128 { bits: product_below(1, a, n) }) * (F128 { bits: product_below(1, a, n) }) == (F128 {
            bits: square_bits(product_below(1, a, n)),
        }),
    decreases n,
{
    assert(square_bits(0) == 0) by (bit_vector);
    lemma_mul_zero(F128::zero());
    if n > 0 {
        let m = (n - 1) as nat;
        lemma_square_of_terms(a, m);
        let low = product_below(1, a, m);
        let top = if coefficient(a, m) {
            times_x_pow(1, m)
        } else {
            0
        };
        lemma_square_of_x_pow(m);
        lemma_square_adds(F128 { bits: low }, F128 { bits: top });
        lemma_square_bits_add(low, top);
    }
}

/// The square of an element, by its coefficients.
pub proof fn lemma_square(a: F128)
    ensures
        a * a == (F128 { bits: square_bits(a.bits) }),
{
    lemma_square_of_terms(a.bits, 128);
    lemma_product_of_one(a.bits, 128);
}

/// Zero and one are the only elements equal to their own square.
pub proof fn lemma_idempotent(a: F128)
    requires
        a * a == a,
    ensures
        a == F128::zero() || a == F128::one(),
{
    lemma_square(a);
    let e = a.bits;
    assert(square_bits(e) == e ==> e == 0 || e == 1) by (bit_vector);
}

/// Only zero has the square zero.
pub proof fn lemma_square_zero(a: F128)
    requires
        a * a == F128::zero(),
    ensures
        a == F128::zero(),
{
    lemma_square(a);
    let e = a.bits;
    assert(square_bits(e) == 0 ==> e == 0) by (bit_vector);
}

/// `a^(i + j) = a^i a^j`.
pub proof fn lemma_power_adds(a: F128, i: nat, j: nat)
    ensures
        power(a, i + j) == power(a, i) * power(a, j),
    decreases j,
{
    if j == 0 {
        lemma_mul_one(power(a, i));
    } else {
        lemma_power_adds(a, i, (j - 1) as nat);
        assert(power(a, i + j) == power(a, (i + (j - 1)) as nat) * a);
        lemma_mul_associates(power(a, i), power(a, (j - 1) as nat), a);
    }
}

/// An element with a power that is zero is zero.
proof fn lemma_nilpotent(a: F128, n: nat)
    requires
        n >= 1,
        power(a, n) == F128::zero(),
    ensures
        a == F128::zero(),
    decreases n,
{
    if n == 1 {
        assert(power(a, 1) == power(a, 0) * a);
        lemma_mul_one(a);
    } else {
        let half = (n + 1) / 2;
        if n % 2 == 1 {
            lemma_mul_zero(a);
            assert(power(a, n + 1) == power(a, n) * a);
        }
        lemma_power_adds(a, half, half);
        lemma_square_zero(power(a, half));
        lemma_nilpotent(a, half);
    }
}

/// Powers that repeat once repeat forever.
proof fn lemma_powers_repeat(a: F128, i: nat, p: nat, n: nat, k: nat)
    requires
        power(a, i + p) == power(a, i),
        i <= n,
    ensures
        power(a, n + k * p) == power(a, n),
    decreases k,
{
    if k == 0 {
        assert(0 * p == 0) by (nonlinear_arith);
    } else {
        let before = (n + (k - 1) * p) as nat;
        assert(k * p == (k - 1) * p + p && (k - 1) * p >= 0) by (nonlinear_arith)
            requires
                k >= 1,
        ;
        lemma_powers_repeat(a, i, p, n, (k - 1) as nat);
        let rest = (before - i) as nat;
        lemma_power_adds(a, rest, i + p);
        lemma_power_adds(a, rest, i);
        assert(rest + (i + p) == n + k * p);
        assert(rest + i == before);
    }
}

/// The field has `2^128` elements.
pub proof fn lemma_field_size()
    ensures
        Set::<F128>::full().finite(),
        Set::<F128>::full().len() == pow2(128),
{
    lemma2_to64();
    lemma_pow2_adds(64, 64);
    let range = set_int_range(0, pow2(128) as int);
    lemma_int_range(0, pow2(128) as int);
    let f = |i: int| F128 { bits: i as u128 };
    assert forall|a: F128| range.map(f).contains(a) by {
        assert(range.contains(a.bits as int) && f(a.bits as int) == a);
    }
    assert(range.map(f) =~= Set::full());
    lemma_map_size(range, Set::full(), f);
}

/// Two powers of an element are equal.
proof fn lemma_powers_meet(a: F128) -> (pair: (nat, nat))
    ensures
        1 <= pair.0 < pair.1,
        power(a, pair.0) == power(a, pair.1),
{
    let top = pow2(128) + 2;
    let range = set_int_range(1, top as int);
    let f = |i: int| power(a, i as nat);
    lemma_int_range(1, top as int);
    lemma_field_size();
    if vstd::relations::injective_on(f, range) {
        lemma_map_size(range, range.map(f), f);
        lemma_len_subset(range.map(f), Set::full());
    }
    let (i, j) = choose|i: int, j: int|
        range.contains(i) && range.contains(j) && #[trigger] f(i) == #[trigger] f(j) && i != j;
    if i < j {
        (i as nat, j as nat)
    } else {
        (j as nat, i as nat)
    }
}

/// Every element but zero has an inverse.
pub proof fn lemma_inverse(a: F128) -> (b: F128)
    requires
        a != F128::zero(),
    ensures
        a * b == F128::one(),
{
    let (i, j) = lemma_powers_meet(a);
    let p = (j - i) as nat;
    let n = i * p;
    assert(n >= i && n >= 1) by (nonlinear_arith)
        requires
            n == i * p,
            p >= 1,
            i >= 1,
    ;
    lemma_powers_repeat(a, i, p, n, i);
    lemma_power_adds(a, n, n);
    let e = power(a, n);
    lemma_idempotent(e);
    if e == F128::zero() {
        lemma_nilpotent(a, n);
    }
    let b = power(a, (n - 1) as nat);
    lemma_mul_commutes(a, b);
    b
}

/// A product is zero only if a factor is.
pub proof fn lemma_no_zero_divisors(a: F128, b: F128)
    requires
        a * b == F128::zero(),
    ensures
        a == F128::zero() || b == F128::zero(),
{
    if a != F128::zero() {
        let c = lemma_inverse(a);
        lemma_mul_commutes(a, c);
        lemma_mul_associates(c, a, b);
        lemma_mul_one(b);
        lemma_mul_zero(c);
    }
}

/// A factor that is not zero cancels.
pub proof fn lemma_mul_cancels(a: F128, b: F128, c: F128)
    requires
        a != F128::zero(),
        a * b == a * c,
    ensures
        b == c,
{
    lemma_mul_distributes(a, b, c);
    lemma_add_self(a * b);
    lemma_no_zero_divisors(a, b + c);
    lemma_add_zero_iff_equal(b, c);
}

} // verus!
