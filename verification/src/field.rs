//! The binary field `GF(2^128) = GF(2)[x] / (x^128 + x^7 + x^2 + x + 1)`.
//!
//! An element is the 128 coefficients of its reduced polynomial, bit `i` the
//! coefficient of `x^i`. Addition is exclusive or; multiplication adds the
//! multiples `a * x^i` over the set bits `i` of the other factor.

use vstd::prelude::*;

verus! {

/// An element of the field.
#[derive(Clone, Copy, Debug, PartialEq, Eq, Structural, Hash)]
pub struct F128 {
    pub bits: u128,
}

/// `a * x`, reduced.
pub open spec fn times_x(a: u128) -> u128 {
    (a << 1) ^ (if a >> 127 == 1 {
        0x87u128
    } else {
        0u128
    })
}

/// `a * x^n`, reduced.
pub open spec fn times_x_pow(a: u128, n: nat) -> u128
    decreases n,
{
    if n == 0 {
        a
    } else {
        times_x(times_x_pow(a, (n - 1) as nat))
    }
}

/// The coefficient of `x^i` in `b`.
pub open spec fn coefficient(b: u128, i: nat) -> bool {
    (b >> (i as u128)) & 1 == 1
}

/// The product of `a` with the terms of `b` below `x^n`.
pub open spec fn product_below(a: u128, b: u128, n: nat) -> u128
    decreases n,
{
    if n == 0 {
        0
    } else {
        product_below(a, b, (n - 1) as nat) ^ (if coefficient(b, (n - 1) as nat) {
            times_x_pow(a, (n - 1) as nat)
        } else {
            0
        })
    }
}

impl F128 {
    /// The sum.
    pub open spec fn spec_add(self, other: F128) -> F128 {
        F128 { bits: self.bits ^ other.bits }
    }

    /// The product.
    #[verifier::opaque]
    pub open spec fn spec_mul(self, other: F128) -> F128 {
        F128 { bits: product_below(self.bits, other.bits, 128) }
    }

    /// The zero of the field.
    #[verifier::allow_in_spec]
    pub fn zero() -> F128
        returns
            (F128 { bits: 0 }),
    {
        F128 { bits: 0 }
    }

    /// The one of the field.
    #[verifier::allow_in_spec]
    pub fn one() -> F128
        returns
            (F128 { bits: 1 }),
    {
        F128 { bits: 1 }
    }

    /// The element whose coefficients of `x^0 .. x^63` are `lo` and whose
    /// coefficients of `x^64 .. x^127` are `hi`.
    pub fn new(lo: u64, hi: u64) -> (element: F128)
        ensures
            element.bits == lo + hi * 0x1_0000_0000_0000_0000,
    {
        let bits: u128 = ((hi as u128) << 64) | (lo as u128);
        assert(((hi as u128) << 64) | (lo as u128) == (lo as u128) + (hi as u128)
            * 0x1_0000_0000_0000_0000u128) by (bit_vector);
        F128 { bits }
    }
}

impl vstd::std_specs::ops::AddSpecImpl<F128> for F128 {
    open spec fn obeys_add_spec() -> bool {
        true
    }

    open spec fn add_req(self, other: F128) -> bool {
        true
    }

    open spec fn add_spec(self, other: F128) -> F128 {
        self.spec_add(other)
    }
}

impl core::ops::Add<F128> for F128 {
    type Output = F128;

    fn add(self, other: F128) -> (sum: F128) {
        F128 { bits: self.bits ^ other.bits }
    }
}

impl vstd::std_specs::ops::MulSpecImpl<F128> for F128 {
    open spec fn obeys_mul_spec() -> bool {
        true
    }

    open spec fn mul_req(self, other: F128) -> bool {
        true
    }

    open spec fn mul_spec(self, other: F128) -> F128 {
        self.spec_mul(other)
    }
}

impl core::ops::Mul<F128> for F128 {
    type Output = F128;

    fn mul(self, other: F128) -> (product: F128) {
        let mut sum: u128 = 0;
        let mut multiple: u128 = self.bits;
        let mut i: u32 = 0;
        while i < 128
            invariant
                i <= 128,
                sum == product_below(self.bits, other.bits, i as nat),
                multiple == times_x_pow(self.bits, i as nat),
            decreases 128 - i,
        {
            let b = other.bits;
            assert((b >> (i as u128)) & 1 == (b >> i) & 1);
            if (b >> i) & 1 == 1 {
                sum = sum ^ multiple;
            } else {
                assert(sum ^ 0 == sum) by (bit_vector);
            }
            let carry: u128 = if multiple >> 127 == 1 {
                0x87
            } else {
                0
            };
            multiple = (multiple << 1) ^ carry;
            i = i + 1;
        }
        proof {
            reveal(F128::spec_mul);
        }
        F128 { bits: sum }
    }
}

// The additive laws.

pub proof fn lemma_add_commutes(a: F128, b: F128)
    ensures
        (a + b) == b + a,
{
    let (x, y) = (a.bits, b.bits);
    assert(x ^ y == y ^ x) by (bit_vector);
}

pub proof fn lemma_add_associates(a: F128, b: F128, c: F128)
    ensures
        ((a + b) + c) == a + (b + c),
{
    let (x, y, z) = (a.bits, b.bits, c.bits);
    assert((x ^ y) ^ z == x ^ (y ^ z)) by (bit_vector);
}

pub proof fn lemma_add_zero(a: F128)
    ensures
        (a + F128::zero()) == a,
        F128::zero() + a == a,
{
    let x = a.bits;
    assert(x ^ 0 == x && 0 ^ x == x) by (bit_vector);
}

pub proof fn lemma_add_self(a: F128)
    ensures
        (a + a) == F128::zero(),
{
    let x = a.bits;
    assert(x ^ x == 0) by (bit_vector);
}

/// In characteristic two, adding a term twice cancels it.
pub proof fn lemma_add_cancels(a: F128, b: F128)
    ensures
        (a + (a + b)) == b,
{
    let (x, y) = (a.bits, b.bits);
    assert(x ^ (x ^ y) == y) by (bit_vector);
}

/// Two elements are equal exactly when their sum is zero.
pub proof fn lemma_add_zero_iff_equal(a: F128, b: F128)
    ensures
        (a + b == F128::zero()) <==> a == b,
{
    let (x, y) = (a.bits, b.bits);
    assert((x ^ y == 0) <==> x == y) by (bit_vector);
}

/// `(a + b) + (c + d) = (a + c) + (b + d)`.
pub proof fn lemma_add_exchanges(a: F128, b: F128, c: F128, d: F128)
    ensures
        (a + b) + (c + d) == (a + c) + (b + d),
{
    let (x, y, z, w) = (a.bits, b.bits, c.bits, d.bits);
    assert((x ^ y) ^ (z ^ w) == (x ^ z) ^ (y ^ w)) by (bit_vector);
}

// Multiplication, first over the coefficient words.

proof fn lemma_times_x_linear(a: u128, b: u128)
    ensures
        times_x(a ^ b) == times_x(a) ^ times_x(b),
        times_x(0) == 0,
{
    assert(times_x(a ^ b) == times_x(a) ^ times_x(b)) by (bit_vector);
    assert(times_x(0) == 0) by (bit_vector);
}

proof fn lemma_times_x_pow_linear(a: u128, b: u128, n: nat)
    ensures
        times_x_pow(a ^ b, n) == times_x_pow(a, n) ^ times_x_pow(b, n),
        times_x_pow(0, n) == 0,
    decreases n,
{
    if n > 0 {
        let m = (n - 1) as nat;
        lemma_times_x_pow_linear(a, b, m);
        lemma_times_x_linear(times_x_pow(a, m), times_x_pow(b, m));
    }
}

proof fn lemma_times_x_pow_steps(a: u128, n: nat)
    ensures
        times_x_pow(times_x(a), n) == times_x(times_x_pow(a, n)),
    decreases n,
{
    if n > 0 {
        lemma_times_x_pow_steps(a, (n - 1) as nat);
    }
}

pub(crate) proof fn lemma_times_x_pow_of_one(n: nat)
    requires
        n < 128,
    ensures
        times_x_pow(1, n) == 1u128 << (n as u128),
    decreases n,
{
    if n == 0 {
        assert(1u128 << 0 == 1) by (bit_vector);
    } else {
        let m = (n - 1) as u128;
        lemma_times_x_pow_of_one((n - 1) as nat);
        assert(m < 127 ==> times_x(1u128 << m) == 1u128 << ((m + 1) as u128)) by (bit_vector);
    }
}

/// Four terms, paired either way.
pub(crate) proof fn lemma_words_exchange(a: u128, b: u128, c: u128, d: u128)
    ensures
        (a ^ b) ^ (c ^ d) == (a ^ c) ^ (b ^ d),
        (a ^ b) ^ c == (a ^ c) ^ b,
        a ^ 0 == a,
        0 ^ a == a,
{
    assert((a ^ b) ^ (c ^ d) == (a ^ c) ^ (b ^ d)) by (bit_vector);
    assert((a ^ b) ^ c == (a ^ c) ^ b) by (bit_vector);
    assert(a ^ 0 == a && 0 ^ a == a) by (bit_vector);
}

proof fn lemma_product_linear_left(a: u128, b: u128, c: u128, n: nat)
    ensures
        product_below(a ^ b, c, n) == product_below(a, c, n) ^ product_below(b, c, n),
        product_below(0, c, n) == 0,
    decreases n,
{
    assert(0u128 ^ 0 == 0) by (bit_vector);
    if n > 0 {
        let m = (n - 1) as nat;
        lemma_product_linear_left(a, b, c, m);
        lemma_times_x_pow_linear(a, b, m);
        let (p, q) = (product_below(a, c, m), product_below(b, c, m));
        let (s, t) = (times_x_pow(a, m), times_x_pow(b, m));
        lemma_words_exchange(p, q, s, t);
        lemma_words_exchange(p ^ q, 0, 0, 0);
        lemma_words_exchange(p, 0, 0, 0);
        lemma_words_exchange(q, 0, 0, 0);
    }
}

proof fn lemma_product_linear_right(a: u128, b: u128, c: u128, n: nat)
    requires
        n <= 128,
    ensures
        product_below(a, b ^ c, n) == product_below(a, b, n) ^ product_below(a, c, n),
        product_below(a, 0, n) == 0,
    decreases n,
{
    assert(0u128 ^ 0 == 0) by (bit_vector);
    if n > 0 {
        let m = (n - 1) as nat;
        lemma_product_linear_right(a, b, c, m);
        let i = m as u128;
        assert(i < 128 ==> (((b ^ c) >> i) & 1 == 1) == (((b >> i) & 1 == 1) != ((c >> i) & 1 == 1))
            && (0u128 >> i) & 1 == 0) by (bit_vector);
        let (p, q, t) = (product_below(a, b, m), product_below(a, c, m), times_x_pow(a, m));
        lemma_words_exchange(p, q, t, t);
        lemma_words_exchange(p, q, t, 0);
        lemma_words_exchange(p, q, 0, t);
        assert(t ^ t == 0) by (bit_vector);
        lemma_words_exchange(p ^ q, 0, 0, 0);
        lemma_words_exchange(p, 0, 0, 0);
        lemma_words_exchange(q, 0, 0, 0);
        lemma_words_exchange(t, 0, 0, 0);
    }
}

pub(crate) proof fn lemma_product_times_x(a: u128, b: u128, n: nat)
    ensures
        product_below(times_x(a), b, n) == times_x(product_below(a, b, n)),
    decreases n,
{
    lemma_times_x_linear(0, 0);
    if n > 0 {
        let m = (n - 1) as nat;
        lemma_product_times_x(a, b, m);
        lemma_times_x_pow_steps(a, m);
        lemma_times_x_linear(product_below(a, b, m), times_x_pow(a, m));
        lemma_times_x_linear(product_below(a, b, m), 0);
        lemma_times_x_linear(0, 0);
    }
}

proof fn lemma_product_times_x_pow(a: u128, b: u128, n: nat, k: nat)
    ensures
        product_below(times_x_pow(a, k), b, n) == times_x_pow(product_below(a, b, n), k),
    decreases k,
{
    if k > 0 {
        let j = (k - 1) as nat;
        lemma_product_times_x_pow(a, b, n, j);
        lemma_product_times_x(times_x_pow(a, j), b, n);
    }
}

/// Multiplying by `b` and multiplying by `c` commute.
proof fn lemma_products_commute(a: u128, b: u128, c: u128, n: nat, k: nat)
    ensures
        product_below(product_below(a, b, n), c, k) == product_below(product_below(a, c, k), b, n),
    decreases n,
{
    if n == 0 {
        lemma_product_linear_left(0, 0, c, k);
    } else {
        let m = (n - 1) as nat;
        lemma_products_commute(a, b, c, m, k);
        lemma_product_linear_left(product_below(a, b, m), times_x_pow(a, m), c, k);
        lemma_product_linear_left(product_below(a, b, m), 0, c, k);
        lemma_product_times_x_pow(a, c, k, m);
    }
}

pub(crate) proof fn lemma_product_of_one(b: u128, n: nat)
    requires
        n <= 128,
    ensures
        product_below(1, b, n) == (if n == 128 {
            b
        } else {
            b & (((1u128 << (n as u128)) - 1) as u128)
        }),
    decreases n,
{
    if n == 0 {
        assert(b & (((1u128 << 0) - 1) as u128) == 0) by (bit_vector);
    } else {
        let m = (n - 1) as nat;
        lemma_product_of_one(b, m);
        lemma_times_x_pow_of_one(m);
        let i = m as u128;
        assert(i < 127 ==> (b & (((1u128 << i) - 1) as u128)) ^ (if (b >> i) & 1 == 1 {
            1u128 << i
        } else {
            0
        }) == b & (((1u128 << ((i + 1) as u128)) - 1) as u128)) by (bit_vector);
        assert(i == 127 ==> (b & (((1u128 << i) - 1) as u128)) ^ (if (b >> i) & 1 == 1 {
            1u128 << i
        } else {
            0
        }) == b) by (bit_vector);
    }
}

proof fn lemma_product_by_one(a: u128, n: nat)
    requires
        1 <= n <= 128,
    ensures
        product_below(a, 1, n) == a,
    decreases n,
{
    let m = (n - 1) as nat;
    let i = m as u128;
    assert((1u128 >> 0) & 1 == 1) by (bit_vector);
    assert(0 < i < 128 ==> (1u128 >> i) & 1 == 0) by (bit_vector);
    lemma_words_exchange(a, 0, 0, 0);
    if n == 1 {
        assert(product_below(a, 1, 0) == 0);
        assert(times_x_pow(a, 0) == a);
    } else {
        lemma_product_by_one(a, m);
    }
}

// The multiplicative laws.

pub proof fn lemma_mul_commutes(a: F128, b: F128)
    ensures
        (a * b) == b * a,
{
    reveal(F128::spec_mul);
    lemma_product_of_one(a.bits, 128);
    lemma_product_of_one(b.bits, 128);
    lemma_products_commute(1, a.bits, b.bits, 128, 128);
}

pub proof fn lemma_mul_associates(a: F128, b: F128, c: F128)
    ensures
        ((a * b) * c) == a * (b * c),
{
    lemma_mul_commutes(a, b);
    lemma_mul_commutes(a, b * c);
    reveal(F128::spec_mul);
    lemma_products_commute(b.bits, a.bits, c.bits, 128, 128);
}

pub proof fn lemma_mul_one(a: F128)
    ensures
        (a * F128::one()) == a,
        F128::one() * a == a,
{
    lemma_mul_commutes(a, F128::one());
    reveal(F128::spec_mul);
    lemma_product_by_one(a.bits, 128);
}

pub proof fn lemma_mul_zero(a: F128)
    ensures
        (a * F128::zero()) == F128::zero(),
        F128::zero() * a == F128::zero(),
{
    lemma_mul_commutes(a, F128::zero());
    reveal(F128::spec_mul);
    lemma_product_linear_left(0, 0, a.bits, 128);
}

pub proof fn lemma_mul_distributes(a: F128, b: F128, c: F128)
    ensures
        a * (b + c) == a * b + a * c,
        (b + c) * a == b * a + c * a,
{
    reveal(F128::spec_mul);
    lemma_product_linear_right(a.bits, b.bits, c.bits, 128);
    lemma_product_linear_left(b.bits, c.bits, a.bits, 128);
}

/// `(a b) (c d) = (a c) (b d)`.
pub proof fn lemma_mul_exchanges(a: F128, b: F128, c: F128, d: F128)
    ensures
        (a * b) * (c * d) == (a * c) * (b * d),
{
    lemma_mul_associates(a, b, c * d);
    lemma_mul_associates(b, c, d);
    lemma_mul_commutes(b, c);
    lemma_mul_associates(c, b, d);
    lemma_mul_associates(a, c, b * d);
}

} // verus!
