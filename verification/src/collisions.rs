//! How often the products of different multisets of tuples agree.
//!
//! Every fingerprint is monic in `beta`, so the product over a multiset keeps
//! the multiplicities. Two multisets of tuples of width `W`, of at most `N`
//! tuples each, whose products agree at `(alpha, beta)` either have tuples that
//! `alpha` merges, which happens for at most `N (W - 1)` values of `alpha`, or
//! have at `alpha` two different polynomials in `beta` of degree at most `N`.

use crate::field::{
    lemma_add_zero, lemma_add_zero_iff_equal, lemma_mul_associates, lemma_mul_commutes,
    lemma_mul_distributes, lemma_mul_one, lemma_mul_zero, F128,
};
use crate::inverse::{lemma_field_size, lemma_mul_cancels, lemma_no_zero_divisors};
use crate::roots::{lemma_agreements, lemma_horner, lemma_summed, roots, summed};
use crate::sums::{
    lemma_product_concatenates, lemma_sum_congruent, lemma_sum_scales, power, product, sum,
};
use crate::tuples::{fingerprint, fingerprints, grand_product, weighted};
use vstd::arithmetic::power2::pow2;
use vstd::prelude::*;
use vstd::seq_lib::to_multiset_remove;
use vstd::set_lib::{lemma_len_subset, lemma_len_union, lemma_map_size, lemma_set_subset_finite};

verus! {

/// A tuple, filled up with zeros to the width `n`.
pub open spec fn padded(t: Seq<F128>, n: nat) -> Seq<F128> {
    Seq::new(
        n,
        |k: int|
            if k < t.len() {
                t[k]
            } else {
                F128::zero()
            },
    )
}

/// Tuples, each filled up with zeros to the width `n`.
pub open spec fn all_padded(tuples: Seq<Seq<F128>>, n: nat) -> Seq<Seq<F128>> {
    Seq::new(tuples.len(), |i: int| padded(tuples[i], n))
}

/// Every tuple has at most the width `n`.
pub open spec fn width_at_most(tuples: Seq<Seq<F128>>, n: nat) -> bool {
    forall|i: int| 0 <= i < tuples.len() ==> (#[trigger] tuples[i]).len() <= n
}

/// Zeros at the end of a tuple do not count.
pub proof fn lemma_padded(t: Seq<F128>, n: nat, x: F128)
    requires
        t.len() <= n,
    ensures
        weighted(padded(t, n), x) == weighted(t, x),
    decreases n,
{
    let p = padded(t, n);
    let f = |k: int| power(x, k as nat) * t[k];
    let g = |k: int| power(x, k as nat) * p[k];
    if n == t.len() {
        assert(p =~= t);
    } else {
        let m = (n - 1) as nat;
        let shorter = padded(t, m);
        lemma_padded(t, m, x);
        let h = |k: int| power(x, k as nat) * shorter[k];
        assert forall|k: int| 0 <= k < m implies #[trigger] h(k) == g(k) by {}
        lemma_sum_congruent(h, g, m);
        assert(sum(g, n) == sum(g, m) + g(n - 1));
        lemma_mul_zero(power(x, m));
        lemma_add_zero(sum(g, m));
    }
}

// The polynomials in `beta`.

/// `a + x` for each `a`.
pub open spec fn shifted(values: Seq<F128>, x: F128) -> Seq<F128> {
    Seq::new(values.len(), |i: int| x + values[i])
}

/// The coefficients of `(x + a) p`.
spec fn times_linear(p: Seq<F128>, a: F128) -> Seq<F128> {
    summed(seq![F128::zero()] + p, Seq::new(p.len(), |k: int| a * p[k]).push(F128::zero()))
}

proof fn lemma_times_linear(p: Seq<F128>, a: F128, x: F128)
    ensures
        weighted(times_linear(p, a), x) == (x + a) * weighted(p, x),
{
    let up = seq![F128::zero()] + p;
    let scaled = Seq::new(p.len(), |k: int| a * p[k]);
    let filled = scaled.push(F128::zero());
    lemma_summed(up, filled, x);
    lemma_horner(up, x);
    assert(up.drop_first() =~= p);
    lemma_add_zero(x * weighted(p, x));
    assert(filled =~= padded(scaled, p.len() + 1));
    lemma_padded(scaled, p.len() + 1, x);
    let f = |k: int| power(x, k as nat) * p[k];
    let g = |k: int| power(x, k as nat) * scaled[k];
    assert forall|k: int| 0 <= k < p.len() implies #[trigger] g(k) == a * f(k) by {
        lemma_mul_associates(power(x, k as nat), a, p[k]);
        lemma_mul_commutes(power(x, k as nat), a);
        lemma_mul_associates(a, power(x, k as nat), p[k]);
    }
    lemma_sum_scales(a, f, g, p.len());
    lemma_mul_distributes(weighted(p, x), x, a);
}

/// The coefficients of the product of `x + a` over the values `a`.
spec fn expanded(values: Seq<F128>) -> Seq<F128>
    decreases values.len(),
{
    if values.len() == 0 {
        seq![F128::one()]
    } else {
        times_linear(expanded(values.drop_last()), values.last())
    }
}

proof fn lemma_expanded(values: Seq<F128>, x: F128)
    ensures
        expanded(values).len() == values.len() + 1,
        weighted(expanded(values), x) == product(shifted(values, x)),
    decreases values.len(),
{
    if values.len() == 0 {
        let p = seq![F128::one()];
        lemma_horner(p, x);
        assert(weighted(p.drop_first(), x) == F128::zero());
        lemma_mul_zero(x);
        lemma_add_zero(F128::one());
    } else {
        let rest = values.drop_last();
        lemma_expanded(rest, x);
        lemma_times_linear(expanded(rest), values.last(), x);
        assert(shifted(values, x).drop_last() =~= shifted(rest, x));
        lemma_mul_commutes(product(shifted(rest, x)), x + values.last());
    }
}

/// A factor taken out of a product.
pub proof fn lemma_product_remove(s: Seq<F128>, i: int)
    requires
        0 <= i < s.len(),
    ensures
        product(s) == product(s.remove(i)) * s[i],
{
    let (low, high) = (s.take(i), s.skip(i + 1));
    assert(s =~= (low + seq![s[i]]) + high);
    assert(s.remove(i) =~= low + high);
    lemma_product_concatenates(low + seq![s[i]], high);
    lemma_product_concatenates(low, seq![s[i]]);
    lemma_product_concatenates(low, high);
    assert(product(seq![s[i]].drop_last()) == F128::one());
    lemma_mul_one(s[i]);
    lemma_mul_associates(product(low), s[i], product(high));
    lemma_mul_commutes(s[i], product(high));
    lemma_mul_associates(product(low), product(high), s[i]);
}

/// A product is zero exactly when a factor is.
pub proof fn lemma_product_zero(s: Seq<F128>)
    ensures
        product(s) == F128::zero() <==> s.contains(F128::zero()),
    decreases s.len(),
{
    if s.contains(F128::zero()) {
        let i = s.index_of(F128::zero());
        lemma_product_remove(s, i);
        lemma_mul_zero(product(s.remove(i)));
    } else if s.len() > 0 {
        let rest = s.drop_last();
        assert(s.last() != F128::zero());
        assert forall|i: int| 0 <= i < rest.len() implies rest[i] != F128::zero() by {
            assert(rest[i] == s[i]);
        }
        lemma_product_zero(rest);
        if product(s) == F128::zero() {
            lemma_no_zero_divisors(product(rest), s.last());
        }
    }
}

/// The points at which the products of `x + a` over two sequences agree.
pub open spec fn meets(left: Seq<F128>, right: Seq<F128>) -> Set<F128> {
    Set::new(|x: F128| product(shifted(left, x)) == product(shifted(right, x)))
}

/// The longer length.
pub open spec fn longer(left: nat, right: nat) -> nat {
    if left < right {
        right
    } else {
        left
    }
}

/// Removing an element that both sequences hold keeps their multisets apart.
pub proof fn lemma_remove_common<A>(left: Seq<A>, right: Seq<A>, i: int, j: int)
    requires
        0 <= i < left.len(),
        0 <= j < right.len(),
        left[i] == right[j],
    ensures
        left.to_multiset() == right.to_multiset() <==> left.remove(i).to_multiset()
            == right.remove(j).to_multiset(),
{
    broadcast use {vstd::multiset::group_multiset_axioms, vstd::seq_lib::group_to_multiset_ensures};

    let a = left[i];
    to_multiset_remove(left, i);
    to_multiset_remove(right, j);
    assert(left.contains(a) && right.contains(a));
    assert(left.to_multiset() =~= left.remove(i).to_multiset().insert(a));
    assert(right.to_multiset() =~= right.remove(j).to_multiset().insert(a));
}

/// Two sequences of at most `n` values with different multisets have products
/// of `x + a` that agree at no more than `n` points `x`.
pub proof fn lemma_meets(left: Seq<F128>, right: Seq<F128>)
    requires
        left.to_multiset() != right.to_multiset(),
    ensures
        meets(left, right).finite(),
        meets(left, right).len() <= longer(left.len(), right.len()),
    decreases left.len(),
{
    if exists|i: int, j: int|
        0 <= i < left.len() && 0 <= j < right.len() && #[trigger] left[i] == #[trigger] right[j] {
        let (i, j) = choose|i: int, j: int|
            0 <= i < left.len() && 0 <= j < right.len() && #[trigger] left[i] == #[trigger] right[j];
        let a = left[i];
        let (left1, right1) = (left.remove(i), right.remove(j));
        lemma_remove_common(left, right, i, j);
        lemma_meets(left1, right1);
        let bound = meets(left1, right1).insert(a);
        assert forall|x: F128| meets(left, right).contains(x) implies bound.contains(x) by {
            lemma_product_remove(shifted(left, x), i);
            lemma_product_remove(shifted(right, x), j);
            assert(shifted(left, x).remove(i) =~= shifted(left1, x));
            assert(shifted(right, x).remove(j) =~= shifted(right1, x));
            let (p, q) = (product(shifted(left1, x)), product(shifted(right1, x)));
            lemma_mul_commutes(p, x + a);
            lemma_mul_commutes(q, x + a);
            lemma_add_zero_iff_equal(x, a);
            if x != a {
                lemma_mul_cancels(x + a, p, q);
            }
        }
        lemma_set_subset_finite(bound, meets(left, right));
        lemma_len_subset(meets(left, right), bound);
    } else {
        let n = longer(left.len(), right.len()) + 1;
        let p = padded(expanded(left), n);
        let q = padded(expanded(right), n);
        if left.len() == 0 && right.len() == 0 {
            assert(left =~= right);
        }
        let x0 = if left.len() > 0 {
            left[0]
        } else {
            right[0]
        };
        assert forall|x: F128| #[trigger] weighted(p, x) == product(shifted(left, x)) && weighted(
            q,
            x,
        ) == product(shifted(right, x)) by {
            lemma_expanded(left, x);
            lemma_expanded(right, x);
            lemma_padded(expanded(left), n, x);
            lemma_padded(expanded(right), n, x);
        }
        assert(p != q) by {
            assert(weighted(p, x0) == product(shifted(left, x0)));
            lemma_product_zero(shifted(left, x0));
            lemma_product_zero(shifted(right, x0));
            assert forall|i: int| 0 <= i < left.len() implies (shifted(left, x0)[i] == F128::zero()
                <==> left[i] == x0) by {
                lemma_add_zero_iff_equal(x0, left[i]);
            }
            assert forall|i: int| 0 <= i < right.len() implies (shifted(right, x0)[i]
                == F128::zero() <==> right[i] == x0) by {
                lemma_add_zero_iff_equal(x0, right[i]);
            }
            if left.len() > 0 {
                assert(shifted(left, x0)[0] == F128::zero());
                assert(!shifted(right, x0).contains(F128::zero())) by {
                    assert forall|j: int| 0 <= j < right.len() implies shifted(right, x0)[j]
                        != F128::zero() by {
                        assert(left[0] != right[j]);
                    }
                }
            } else {
                assert(shifted(right, x0)[0] == F128::zero());
            }
        }
        lemma_agreements(p, q);
        assert forall|x: F128| meets(left, right).contains(x) <==> roots(summed(p, q)).contains(
            x,
        ) by {
            assert(weighted(p, x) == product(shifted(left, x)));
        }
        assert(meets(left, right) =~= roots(summed(p, q)));
    }
}

// The values of `alpha` that merge tuples.

/// The values of tuples at `alpha`.
pub open spec fn values(tuples: Seq<Seq<F128>>, alpha: F128) -> Seq<F128> {
    Seq::new(tuples.len(), |i: int| weighted(tuples[i], alpha))
}

/// The `alpha` at which two sequences of tuples have the same values, counted
/// with multiplicity.
pub open spec fn merges(left: Seq<Seq<F128>>, right: Seq<Seq<F128>>) -> Set<F128> {
    Set::new(
        |alpha: F128| values(left, alpha).to_multiset() == values(right, alpha).to_multiset(),
    )
}

/// The `alpha` at which a tuple has the value of one of the first `n` others.
spec fn hits(t: Seq<F128>, others: Seq<Seq<F128>>, n: nat) -> Set<F128> {
    Set::new(
        |alpha: F128|
            exists|j: int|
                0 <= j < n && weighted(t, alpha) == weighted(#[trigger] others[j], alpha),
    )
}

proof fn lemma_hits(t: Seq<F128>, others: Seq<Seq<F128>>, n: nat, width: nat)
    requires
        width >= 1,
        t.len() == width,
        n <= others.len(),
        forall|j: int| 0 <= j < n ==> (#[trigger] others[j]).len() == width && others[j] != t,
    ensures
        hits(t, others, n).finite(),
        hits(t, others, n).len() <= n * (width - 1),
    decreases n,
{
    if n == 0 {
        assert(hits(t, others, 0) =~= Set::empty());
        assert(0 * (width - 1) == 0) by (nonlinear_arith);
    } else {
        let m = (n - 1) as nat;
        lemma_hits(t, others, m, width);
        let last = roots(summed(t, others[n - 1]));
        lemma_agreements(t, others[n - 1]);
        let bound = hits(t, others, m).union(last);
        lemma_len_union(hits(t, others, m), last);
        assert forall|alpha: F128| hits(t, others, n).contains(alpha) implies bound.contains(
            alpha,
        ) by {
            let j = choose|j: int|
                0 <= j < n && weighted(t, alpha) == weighted(#[trigger] others[j], alpha);
            if j < m {
                assert(hits(t, others, m).contains(alpha));
            }
        }
        lemma_set_subset_finite(bound, hits(t, others, n));
        lemma_len_subset(hits(t, others, n), bound);
        assert(n * (width - 1) == m * (width - 1) + (width - 1)) by (nonlinear_arith)
            requires
                n == m + 1,
        ;
    }
}

/// Every tuple has the width `n`.
pub open spec fn width_exactly(tuples: Seq<Seq<F128>>, n: nat) -> bool {
    forall|i: int| 0 <= i < tuples.len() ==> (#[trigger] tuples[i]).len() == n
}

/// At most `n (width - 1)` values of `alpha` give two different multisets of at
/// most `n` tuples the same values.
pub proof fn lemma_merges(left: Seq<Seq<F128>>, right: Seq<Seq<F128>>, width: nat)
    requires
        width >= 1,
        width_exactly(left, width),
        width_exactly(right, width),
        left.to_multiset() != right.to_multiset(),
    ensures
        merges(left, right).finite(),
        merges(left, right).len() <= longer(left.len(), right.len()) * (width - 1),
    decreases left.len(),
{
    broadcast use vstd::seq_lib::group_to_multiset_ensures;

    if exists|i: int, j: int|
        0 <= i < left.len() && 0 <= j < right.len() && #[trigger] left[i] == #[trigger] right[j] {
        let (i, j) = choose|i: int, j: int|
            0 <= i < left.len() && 0 <= j < right.len() && #[trigger] left[i] == #[trigger] right[j];
        let (left1, right1) = (left.remove(i), right.remove(j));
        lemma_remove_common(left, right, i, j);
        lemma_merges(left1, right1, width);
        assert forall|alpha: F128| merges(left, right).contains(alpha) <==> merges(
            left1,
            right1,
        ).contains(alpha) by {
            lemma_remove_common(values(left, alpha), values(right, alpha), i, j);
            assert(values(left, alpha).remove(i) =~= values(left1, alpha));
            assert(values(right, alpha).remove(j) =~= values(right1, alpha));
        }
        assert(merges(left, right) =~= merges(left1, right1));
        let n = longer(left.len(), right.len());
        assert((n - 1) * (width - 1) <= n * (width - 1)) by (nonlinear_arith)
            requires
                width >= 1,
        ;
    } else if left.len() != right.len() {
        assert forall|alpha: F128| !merges(left, right).contains(alpha) by {
            assert(values(left, alpha).to_multiset().len() == left.len());
            assert(values(right, alpha).to_multiset().len() == right.len());
        }
        assert(merges(left, right) =~= Set::empty());
        assert(0 <= longer(left.len(), right.len()) * (width - 1)) by (nonlinear_arith)
            requires
                width >= 1,
        ;
    } else {
        if left.len() == 0 {
            assert(left =~= right);
        }
        let t = left[0];
        let n = right.len();
        assert forall|j: int| 0 <= j < n implies (#[trigger] right[j]).len() == width && right[j]
            != t by {
            assert(left[0] != right[j]);
        }
        lemma_hits(t, right, n, width);
        assert forall|alpha: F128| merges(left, right).contains(alpha) implies hits(
            t,
            right,
            n,
        ).contains(alpha) by {
            let v = values(left, alpha)[0];
            assert(values(left, alpha).contains(v));
            assert(values(left, alpha).to_multiset().count(v) > 0);
            assert(values(right, alpha).to_multiset().count(v) > 0);
            assert(values(right, alpha).contains(v));
            let j = values(right, alpha).index_of(v);
            assert(weighted(t, alpha) == weighted(right[j], alpha));
        }
        lemma_set_subset_finite(hits(t, right, n), merges(left, right));
        lemma_len_subset(merges(left, right), hits(t, right, n));
    }
}

// Both together.

/// The challenges `(alpha, beta)` at which the products over two sequences of
/// tuples agree.
pub open spec fn collisions(left: Seq<Seq<F128>>, right: Seq<Seq<F128>>) -> Set<(F128, F128)> {
    Set::new(
        |challenge: (F128, F128)|
            grand_product(left, challenge.0, challenge.1) == grand_product(
                right,
                challenge.0,
                challenge.1,
            ),
    )
}

/// The second components that occur with `a`.
spec fn fibre(pairs: Set<(F128, F128)>, a: F128) -> Set<F128> {
    Set::new(|b: F128| pairs.contains((a, b)))
}

/// Pairs are counted by their first components.
proof fn lemma_fibres(pairs: Set<(F128, F128)>, firsts: Set<F128>, k: nat)
    requires
        firsts.finite(),
        forall|c: (F128, F128)| pairs.contains(c) ==> firsts.contains(c.0),
        forall|a: F128|
            firsts.contains(a) ==> (#[trigger] fibre(pairs, a)).finite() && fibre(pairs, a).len()
                <= k,
    ensures
        pairs.finite(),
        pairs.len() <= firsts.len() * k,
    decreases firsts.len(),
{
    if firsts.len() == 0 {
        firsts.lemma_len0_is_empty();
        assert(pairs =~= Set::empty());
        assert(0 * k == 0) by (nonlinear_arith);
    } else {
        let a = firsts.choose();
        let rest = Set::new(|c: (F128, F128)| pairs.contains(c) && c.0 != a);
        assert forall|b: F128| firsts.remove(a).contains(b) implies (#[trigger] fibre(
            rest,
            b,
        )).finite() && fibre(rest, b).len() <= k by {
            assert(fibre(rest, b) =~= fibre(pairs, b));
        }
        lemma_fibres(rest, firsts.remove(a), k);
        let f = |b: F128| (a, b);
        let own = fibre(pairs, a);
        let column = own.map(f);
        lemma_map_size(own, column, f);
        assert forall|c: (F128, F128)| pairs.contains(c) implies rest.union(column).contains(c) by {
            if c.0 == a {
                assert(own.contains(c.1) && f(c.1) == c);
            }
        }
        assert(pairs =~= rest.union(column));
        lemma_len_union(rest, column);
        let n = firsts.len();
        assert(n * k == (n - 1) * k + k) by (nonlinear_arith)
            requires
                n >= 1,
        ;
    }
}

/// The product over tuples, by their values at `alpha`.
pub proof fn lemma_by_values(tuples: Seq<Seq<F128>>, width: nat, alpha: F128, beta: F128)
    requires
        width_at_most(tuples, width),
    ensures
        grand_product(tuples, alpha, beta) == product(
            shifted(values(all_padded(tuples, width), alpha), beta),
        ),
{
    let by_values = shifted(values(all_padded(tuples, width), alpha), beta);
    assert forall|i: int| 0 <= i < tuples.len() implies #[trigger] fingerprints(
        tuples,
        alpha,
        beta,
    )[i] == by_values[i] by {
        lemma_padded(tuples[i], width, alpha);
    }
    assert(fingerprints(tuples, alpha, beta) =~= by_values);
}

/// Soundness of the fingerprints. Of two different multisets of at most `n`
/// tuples of width at most `width`, the products agree at no more than
/// `n width 2^128` of the `2^256` challenges `(alpha, beta)`: at a random
/// challenge with probability at most `n width / 2^128`.
///
/// Zeros at the end of a tuple leave its fingerprint as it is, so the
/// multisets are told apart after filling the tuples up to the same width. For
/// tuples that have the same width already, nothing is filled up.
pub proof fn lemma_different_multisets_rarely_collide(
    left: Seq<Seq<F128>>,
    right: Seq<Seq<F128>>,
    width: nat,
)
    requires
        width >= 1,
        width_at_most(left, width),
        width_at_most(right, width),
        all_padded(left, width).to_multiset() != all_padded(right, width).to_multiset(),
    ensures
        collisions(left, right).finite(),
        collisions(left, right).len() <= longer(left.len(), right.len()) * width * pow2(128),
{
    let (l, r) = (all_padded(left, width), all_padded(right, width));
    let n = longer(left.len(), right.len());
    let q = pow2(128);
    let all = collisions(left, right);
    let merged = merges(l, r);
    lemma_merges(l, r, width);
    lemma_field_size();
    let full = Set::<F128>::full();
    let (pairs1, pairs2) = (
        Set::new(|c: (F128, F128)| all.contains(c) && merged.contains(c.0)),
        Set::new(|c: (F128, F128)| all.contains(c) && !merged.contains(c.0)),
    );
    assert forall|a: F128| merged.contains(a) implies (#[trigger] fibre(pairs1, a)).finite()
        && fibre(pairs1, a).len() <= q by {
        lemma_set_subset_finite(full, fibre(pairs1, a));
        lemma_len_subset(fibre(pairs1, a), full);
    }
    lemma_fibres(pairs1, merged, q);
    assert forall|a: F128| full.contains(a) implies (#[trigger] fibre(pairs2, a)).finite() && fibre(
        pairs2,
        a,
    ).len() <= n by {
        if merged.contains(a) {
            assert(fibre(pairs2, a) =~= Set::empty());
        } else {
            let (lv, rv) = (values(l, a), values(r, a));
            lemma_meets(lv, rv);
            assert forall|b: F128| fibre(pairs2, a).contains(b) implies meets(lv, rv).contains(b) by {
                lemma_by_values(left, width, a, b);
                lemma_by_values(right, width, a, b);
                assert(all.contains((a, b)));
            }
            lemma_set_subset_finite(meets(lv, rv), fibre(pairs2, a));
            lemma_len_subset(fibre(pairs2, a), meets(lv, rv));
        }
    }
    lemma_fibres(pairs2, full, n);
    assert(all =~= pairs1.union(pairs2));
    lemma_len_union(pairs1, pairs2);
    let m = merged.len();
    assert(m * q + q * n <= n * width * q) by (nonlinear_arith)
        requires
            m <= n * (width - 1),
            width >= 1,
    ;
}

/// The challenges `(alpha, beta)` at which the product over tuples has a given
/// value.
pub open spec fn level(tuples: Seq<Seq<F128>>, value: F128) -> Set<(F128, F128)> {
    Set::new(
        |challenge: (F128, F128)| grand_product(tuples, challenge.0, challenge.1) == value,
    )
}

/// The product of `x + a` over the values `a` is monic.
proof fn lemma_expanded_monic(values: Seq<F128>)
    ensures
        expanded(values).len() == values.len() + 1,
        expanded(values).last() == F128::one(),
    decreases values.len(),
{
    if values.len() > 0 {
        let rest = expanded(values.drop_last());
        lemma_expanded_monic(values.drop_last());
        lemma_add_zero(rest.last());
    }
}

/// At a given `alpha`, the product has a given value at no more values of `beta`
/// than there are tuples.
proof fn lemma_level_at(values: Seq<F128>, value: F128)
    requires
        values.len() > 0,
    ensures
        ({
            let reached = Set::new(|x: F128| product(shifted(values, x)) == value);
            reached.finite() && reached.len() <= values.len()
        }),
{
    let reached = Set::new(|x: F128| product(shifted(values, x)) == value);
    let n = values.len() + 1;
    let p = expanded(values);
    let q = padded(seq![value], n);
    lemma_expanded_monic(values);
    assert(p[n - 1] != q[n - 1]);
    lemma_agreements(p, q);
    assert forall|x: F128| reached.contains(x) <==> roots(summed(p, q)).contains(x) by {
        lemma_expanded(values, x);
        lemma_padded(seq![value], n, x);
        lemma_horner(seq![value], x);
        assert(weighted(seq![value].drop_first(), x) == F128::zero());
        lemma_mul_zero(x);
        lemma_add_zero(value);
    }
    assert(reached =~= roots(summed(p, q)));
}

/// The product over `n` tuples, one at least, has a given value at no more than
/// `n 2^128` of the `2^256` challenges. So the products of a proof under one
/// challenge are rarely those under another.
pub proof fn lemma_products_tell_challenges_apart(tuples: Seq<Seq<F128>>, value: F128)
    requires
        tuples.len() > 0,
    ensures
        level(tuples, value).finite(),
        level(tuples, value).len() <= tuples.len() * pow2(128),
{
    let all = level(tuples, value);
    let full = Set::<F128>::full();
    lemma_field_size();
    assert forall|a: F128| full.contains(a) implies (#[trigger] fibre(all, a)).finite() && fibre(
        all,
        a,
    ).len() <= tuples.len() by {
        let v = values(tuples, a);
        let reached = Set::new(|x: F128| product(shifted(v, x)) == value);
        lemma_level_at(v, value);
        assert forall|b: F128| fibre(all, a).contains(b) <==> reached.contains(b) by {
            assert(fingerprints(tuples, a, b) =~= shifted(v, b));
        }
        assert(fibre(all, a) =~= reached);
    }
    lemma_fibres(all, full, tuples.len());
    assert(pow2(128) * tuples.len() == tuples.len() * pow2(128)) by (nonlinear_arith);
}

} // verus!
