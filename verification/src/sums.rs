//! Finite sums, products and powers of field elements.

use crate::field::{
    lemma_add_associates, lemma_add_exchanges, lemma_add_zero, lemma_mul_associates,
    lemma_mul_distributes, lemma_mul_exchanges, lemma_mul_one, lemma_mul_zero, F128,
};
use vstd::prelude::*;

verus! {

/// `f(0) + f(1) + ... + f(n - 1)`.
pub open spec fn sum(f: spec_fn(int) -> F128, n: nat) -> F128
    decreases n,
{
    if n == 0 {
        F128::zero()
    } else {
        sum(f, (n - 1) as nat) + f(n - 1)
    }
}

/// `s[0] * s[1] * ... * s[n - 1]`.
pub open spec fn product(s: Seq<F128>) -> F128
    decreases s.len(),
{
    if s.len() == 0 {
        F128::one()
    } else {
        product(s.drop_last()) * s.last()
    }
}

/// `a^n`.
pub open spec fn power(a: F128, n: nat) -> F128
    decreases n,
{
    if n == 0 {
        F128::one()
    } else {
        power(a, (n - 1) as nat) * a
    }
}

/// Sums of equal terms are equal.
pub proof fn lemma_sum_congruent(f: spec_fn(int) -> F128, g: spec_fn(int) -> F128, n: nat)
    requires
        forall|i: int| 0 <= i < n ==> #[trigger] f(i) == g(i),
    ensures
        sum(f, n) == sum(g, n),
    decreases n,
{
    if n > 0 {
        lemma_sum_congruent(f, g, (n - 1) as nat);
        assert(f(n - 1) == g(n - 1));
    }
}

/// A sum of zeros is zero.
pub proof fn lemma_sum_zero(f: spec_fn(int) -> F128, n: nat)
    requires
        forall|i: int| 0 <= i < n ==> #[trigger] f(i) == F128::zero(),
    ensures
        sum(f, n) == F128::zero(),
    decreases n,
{
    lemma_add_zero(F128::zero());
    if n > 0 {
        lemma_sum_zero(f, (n - 1) as nat);
        assert(f(n - 1) == F128::zero());
    }
}

/// Sums add term by term.
pub proof fn lemma_sum_adds(
    f: spec_fn(int) -> F128,
    g: spec_fn(int) -> F128,
    h: spec_fn(int) -> F128,
    n: nat,
)
    requires
        forall|i: int| 0 <= i < n ==> #[trigger] h(i) == f(i) + g(i),
    ensures
        sum(h, n) == sum(f, n) + sum(g, n),
    decreases n,
{
    if n == 0 {
        lemma_add_zero(F128::zero());
    } else {
        let m = (n - 1) as nat;
        lemma_sum_adds(f, g, h, m);
        assert(h(n - 1) == f(n - 1) + g(n - 1));
        lemma_add_exchanges(sum(f, m), sum(g, m), f(n - 1), g(n - 1));
    }
}

/// A common factor comes out of a sum.
pub proof fn lemma_sum_scales(c: F128, f: spec_fn(int) -> F128, h: spec_fn(int) -> F128, n: nat)
    requires
        forall|i: int| 0 <= i < n ==> #[trigger] h(i) == c * f(i),
    ensures
        sum(h, n) == c * sum(f, n),
    decreases n,
{
    if n == 0 {
        lemma_mul_zero(c);
    } else {
        let m = (n - 1) as nat;
        lemma_sum_scales(c, f, h, m);
        assert(h(n - 1) == c * f(n - 1));
        lemma_mul_distributes(c, sum(f, m), f(n - 1));
    }
}

/// A sum over `2 n` terms is the sum of its `n` neighbouring pairs.
pub proof fn lemma_sum_pairs(f: spec_fn(int) -> F128, h: spec_fn(int) -> F128, n: nat)
    requires
        forall|i: int| 0 <= i < n ==> #[trigger] h(i) == f(2 * i) + f(2 * i + 1),
    ensures
        sum(f, 2 * n) == sum(h, n),
    decreases n,
{
    if n > 0 {
        let m = (n - 1) as nat;
        lemma_sum_pairs(f, h, m);
        assert(h(n - 1) == f(2 * (n - 1)) + f(2 * (n - 1) + 1));
        assert(sum(f, 2 * n) == sum(f, (2 * n - 1) as nat) + f(2 * n - 1));
        assert(sum(f, (2 * n - 1) as nat) == sum(f, 2 * m) + f(2 * n - 2));
        lemma_add_associates(sum(f, 2 * m), f(2 * n - 2), f(2 * n - 1));
    }
}

/// A sum splits after its first `a` terms.
pub proof fn lemma_sum_splits(f: spec_fn(int) -> F128, h: spec_fn(int) -> F128, a: nat, b: nat)
    requires
        forall|i: int| 0 <= i < b ==> #[trigger] h(i) == f(a + i),
    ensures
        sum(f, a + b) == sum(f, a) + sum(h, b),
    decreases b,
{
    if b == 0 {
        lemma_add_zero(sum(f, a));
    } else {
        let c = (b - 1) as nat;
        lemma_sum_splits(f, h, a, c);
        assert(h(b - 1) == f(a + (b - 1)));
        assert(sum(f, a + b) == sum(f, a + c) + f(a + b - 1));
        lemma_add_associates(sum(f, a), sum(h, c), h(b - 1));
    }
}

/// A sum over `groups` blocks of `rows` terms is the sum of the block sums.
pub proof fn lemma_sum_blocks(
    f: spec_fn(int) -> F128,
    h: spec_fn(int) -> F128,
    rows: nat,
    groups: nat,
)
    requires
        forall|g: int|
            0 <= g < groups ==> #[trigger] h(g) == sum(|j: int| f(rows * g + j), rows),
    ensures
        sum(f, rows * groups) == sum(h, groups),
    decreases groups,
{
    if groups == 0 {
        assert(rows * groups == 0) by (nonlinear_arith)
            requires
                groups == 0,
        ;
    } else {
        let m = (groups - 1) as nat;
        lemma_sum_blocks(f, h, rows, m);
        assert(rows * groups == rows * m + rows) by (nonlinear_arith)
            requires
                groups == m + 1,
        ;
        lemma_sum_splits(f, |j: int| f(rows * m + j), rows * m, rows);
        assert(h(groups - 1) == sum(|j: int| f(rows * (groups - 1) + j), rows));
        assert(groups - 1 == m);
    }
}

/// A double sum may be taken in either order.
pub proof fn lemma_sum_swaps(f: spec_fn(int, int) -> F128, n: nat, m: nat)
    ensures
        sum(|j: int| sum(|k: int| f(j, k), m), n) == sum(|k: int| sum(|j: int| f(j, k), n), m),
    decreases n,
{
    let by_row = |j: int| sum(|k: int| f(j, k), m);
    let by_column = |k: int| sum(|j: int| f(j, k), n);
    if n == 0 {
        assert forall|k: int| 0 <= k < m implies #[trigger] by_column(k) == F128::zero() by {}
        lemma_sum_zero(by_column, m);
    } else {
        let l = (n - 1) as nat;
        lemma_sum_swaps(f, l, m);
        let shorter = |k: int| sum(|j: int| f(j, k), l);
        let last = |k: int| f(n - 1, k);
        assert forall|k: int| 0 <= k < m implies #[trigger] by_column(k) == shorter(k) + last(k) by {
            let column = |j: int| f(j, k);
            assert(sum(column, n) == sum(column, l) + column(n - 1));
        }
        lemma_sum_adds(shorter, last, by_column, m);
        assert(sum(by_row, n) == sum(by_row, l) + by_row(n - 1));
    }
}

/// The product of two sequences, one after the other.
pub proof fn lemma_product_concatenates(s: Seq<F128>, t: Seq<F128>)
    ensures
        product(s + t) == product(s) * product(t),
    decreases t.len(),
{
    if t.len() == 0 {
        assert(s + t =~= s);
        lemma_mul_one(product(s));
    } else {
        assert((s + t).drop_last() =~= s + t.drop_last());
        lemma_product_concatenates(s, t.drop_last());
        lemma_mul_associates(product(s), product(t.drop_last()), t.last());
    }
}

/// The product of the entrywise products.
pub proof fn lemma_product_of_products(s: Seq<F128>, t: Seq<F128>)
    requires
        s.len() == t.len(),
    ensures
        product(Seq::new(s.len(), |i: int| s[i] * t[i])) == product(s) * product(t),
    decreases s.len(),
{
    let both = Seq::new(s.len(), |i: int| s[i] * t[i]);
    if s.len() == 0 {
        lemma_mul_one(F128::one());
    } else {
        let (s0, t0) = (s.drop_last(), t.drop_last());
        lemma_product_of_products(s0, t0);
        assert(both.drop_last() =~= Seq::new(s0.len(), |i: int| s0[i] * t0[i]));
        lemma_mul_exchanges(product(s0), product(t0), s.last(), t.last());
    }
}

} // verus!
