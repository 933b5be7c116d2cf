//! Polynomials in one unknown and their roots.
//!
//! The entries of a tuple `p` are the coefficients of a polynomial, whose value
//! at `x` is `weighted(p, x)`.

use crate::field::{
    lemma_add_zero, lemma_add_zero_iff_equal, lemma_mul_associates, lemma_mul_commutes,
    lemma_mul_distributes, lemma_mul_one, lemma_mul_zero, F128,
};
use crate::inverse::lemma_no_zero_divisors;
use crate::sums::{lemma_sum_adds, lemma_sum_scales, lemma_sum_splits, power, sum};
use crate::tuples::weighted;
use vstd::prelude::*;
use vstd::set_lib::{lemma_len_subset, lemma_set_subset_finite};

verus! {

/// The roots of a polynomial.
pub open spec fn roots(p: Seq<F128>) -> Set<F128> {
    Set::new(|x: F128| weighted(p, x) == F128::zero())
}

/// Some coefficient is not zero.
pub open spec fn nonzero(p: Seq<F128>) -> bool {
    exists|k: int| 0 <= k < p.len() && #[trigger] p[k] != F128::zero()
}

/// The quotient of a polynomial by `x + r`.
pub open spec fn quotient(p: Seq<F128>, r: F128) -> Seq<F128> {
    Seq::new((p.len() - 1) as nat, |k: int| weighted(p.skip(k + 1), r))
}

/// Horner's rule.
pub proof fn lemma_horner(p: Seq<F128>, x: F128)
    requires
        p.len() > 0,
    ensures
        weighted(p, x) == p[0] + x * weighted(p.drop_first(), x),
{
    let rest = p.drop_first();
    let n = rest.len();
    let f = |k: int| power(x, k as nat) * p[k];
    let g = |k: int| power(x, k as nat) * rest[k];
    let h = |k: int| f(1 + k);
    lemma_sum_splits(f, h, 1, n);
    assert forall|k: int| 0 <= k < n implies #[trigger] h(k) == x * g(k) by {
        assert(power(x, (1 + k) as nat) == power(x, k as nat) * x);
        lemma_mul_commutes(power(x, k as nat), x);
        lemma_mul_associates(x, power(x, k as nat), rest[k]);
    }
    lemma_sum_scales(x, g, h, n);
    assert(sum(f, 1) == sum(f, 0) + f(0));
    lemma_mul_one(p[0]);
    lemma_add_zero(p[0]);
}

/// `p(x) = (x + r) q(x) + p(r)` for the quotient `q`.
pub proof fn lemma_divides(p: Seq<F128>, r: F128, x: F128)
    requires
        p.len() > 0,
    ensures
        weighted(p, x) == (x + r) * weighted(quotient(p, r), x) + weighted(p, r),
    decreases p.len(),
{
    let rest = p.drop_first();
    let q = quotient(p, r);
    lemma_horner(p, x);
    lemma_horner(p, r);
    if p.len() == 1 {
        assert(weighted(rest, x) == F128::zero());
        assert(weighted(rest, r) == F128::zero());
        assert(weighted(q, x) == F128::zero());
        lemma_mul_zero(x);
        lemma_mul_zero(r);
        lemma_mul_zero(x + r);
        lemma_add_zero(p[0]);
    } else {
        lemma_divides(rest, r, x);
        lemma_horner(q, x);
        assert(p.skip(1) =~= rest);
        assert(q.drop_first() =~= quotient(rest, r)) by {
            assert forall|k: int| 0 <= k < rest.len() - 1 implies #[trigger] q.drop_first()[k]
                == quotient(rest, r)[k] by {
                assert(p.skip(k + 2) =~= rest.skip(k + 1));
            }
        }
        let left = weighted(rest, r);
        let high = weighted(quotient(rest, r), x);
        lemma_division_step(p[0], x, r, high, left);
    }
}

/// `a + x ((x + r) h + l) = (x + r) (l + x h) + (a + r l)`.
proof fn lemma_division_step(a: F128, x: F128, r: F128, h: F128, l: F128)
    ensures
        a + x * ((x + r) * h + l) == (x + r) * (l + x * h) + (a + r * l),
{
    let s = x + r;
    let top = s * (x * h);
    lemma_mul_distributes(x, s * h, l);
    lemma_mul_associates(x, s, h);
    lemma_mul_commutes(x, s);
    lemma_mul_associates(s, x, h);
    assert(x * (s * h + l) == top + x * l);
    lemma_mul_distributes(s, l, x * h);
    lemma_mul_distributes(l, x, r);
    assert(s * (l + x * h) == (x * l + r * l) + top);
    // (x l + r l) + top + (a + r l) = a + (top + x l)
    let (xl, rl) = (x * l, r * l);
    let (b0, b1, b2, b3) = (a.bits, xl.bits, rl.bits, top.bits);
    assert(b0 ^ (b3 ^ b1) == ((b1 ^ b2) ^ b3) ^ (b0 ^ b2)) by (bit_vector);
}

/// Dividing by a root keeps some coefficient away from zero.
proof fn lemma_quotient_nonzero(p: Seq<F128>, r: F128)
    requires
        nonzero(p),
        weighted(p, r) == F128::zero(),
    ensures
        nonzero(quotient(p, r)),
{
    let q = quotient(p, r);
    if !nonzero(q) {
        assert forall|k: int| 0 <= k <= p.len() implies #[trigger] weighted(p.skip(k), r)
            == F128::zero() by {
            if k == 0 {
                assert(p.skip(0) =~= p);
            } else if k == p.len() {
                assert(p.skip(k).len() == 0);
            } else {
                assert(q[k - 1] == F128::zero());
            }
        }
        assert forall|k: int| 0 <= k < p.len() implies #[trigger] p[k] == F128::zero() by {
            let tail = p.skip(k);
            lemma_horner(tail, r);
            assert(tail.drop_first() =~= p.skip(k + 1));
            assert(weighted(p.skip(k), r) == F128::zero());
            assert(weighted(p.skip(k + 1), r) == F128::zero());
            lemma_mul_zero(r);
            lemma_add_zero(p[k]);
        }
    }
}

/// A polynomial with `n` coefficients, not all of them zero, has fewer than `n`
/// roots.
pub proof fn lemma_root_count(p: Seq<F128>)
    requires
        nonzero(p),
    ensures
        roots(p).finite(),
        roots(p).len() < p.len(),
    decreases p.len(),
{
    if exists|r: F128| #[trigger] weighted(p, r) == F128::zero() {
        let r = choose|r: F128| #[trigger] weighted(p, r) == F128::zero();
        let q = quotient(p, r);
        lemma_quotient_nonzero(p, r);
        lemma_root_count(q);
        let bound = roots(q).insert(r);
        assert forall|x: F128| roots(p).contains(x) implies bound.contains(x) by {
            lemma_divides(p, r, x);
            lemma_add_zero((x + r) * weighted(q, x));
            lemma_no_zero_divisors(x + r, weighted(q, x));
            lemma_add_zero_iff_equal(x, r);
        }
        lemma_set_subset_finite(bound, roots(p));
        lemma_len_subset(roots(p), bound);
    } else {
        assert(roots(p) =~= Set::empty());
    }
}

/// The sum of two polynomials with as many coefficients.
pub open spec fn summed(p: Seq<F128>, q: Seq<F128>) -> Seq<F128> {
    Seq::new(p.len(), |k: int| p[k] + q[k])
}

/// The value of the sum.
pub proof fn lemma_summed(p: Seq<F128>, q: Seq<F128>, x: F128)
    requires
        p.len() == q.len(),
    ensures
        weighted(summed(p, q), x) == weighted(p, x) + weighted(q, x),
{
    let f = |k: int| power(x, k as nat) * p[k];
    let g = |k: int| power(x, k as nat) * q[k];
    let h = |k: int| power(x, k as nat) * summed(p, q)[k];
    assert forall|k: int| 0 <= k < p.len() implies #[trigger] h(k) == f(k) + g(k) by {
        lemma_mul_distributes(power(x, k as nat), p[k], q[k]);
    }
    lemma_sum_adds(f, g, h, p.len());
}

/// Two polynomials with `n` coefficients that differ agree at fewer than `n`
/// points.
pub proof fn lemma_agreements(p: Seq<F128>, q: Seq<F128>)
    requires
        p.len() == q.len(),
        p != q,
    ensures
        roots(summed(p, q)).finite(),
        roots(summed(p, q)).len() < p.len(),
        forall|x: F128|
            #[trigger] roots(summed(p, q)).contains(x) <==> weighted(p, x) == weighted(q, x),
{
    let s = summed(p, q);
    assert(nonzero(s)) by {
        if !nonzero(s) {
            assert forall|k: int| 0 <= k < p.len() implies p[k] == q[k] by {
                assert(s[k] == F128::zero());
                lemma_add_zero_iff_equal(p[k], q[k]);
            }
            assert(p =~= q);
        }
    }
    lemma_root_count(s);
    assert forall|x: F128| #[trigger] roots(s).contains(x) <==> weighted(p, x) == weighted(q, x) by {
        lemma_summed(p, q, x);
        lemma_add_zero_iff_equal(weighted(p, x), weighted(q, x));
    }
}

} // verus!
