//! Multilinear extensions of tables over the Boolean cube.
//!
//! A table of `2^n` entries is read as a function on `{0, 1}^n`, entry `i` at
//! the bits of `i`, lowest bit first. Its extension to the field is the sum of
//! its entries, each weighted with the equality polynomial at its index.

use crate::field::{
    lemma_add_associates, lemma_add_self, lemma_add_zero, lemma_mul_associates, lemma_mul_commutes,
    lemma_mul_distributes, lemma_mul_one, lemma_mul_zero, F128,
};
use crate::sums::{lemma_sum_pairs, lemma_sum_scales, lemma_sum_splits, sum};
use vstd::arithmetic::power2::{
    lemma2_to64, lemma_pow2_pos, lemma_pow2_strictly_increases, lemma_pow2_unfold, pow2,
};
use vstd::prelude::*;

verus! {

/// The equality polynomial: one at the Boolean point of index `i`, zero at the
/// others, linear in each coordinate.
pub open spec fn eq(point: Seq<F128>, i: int) -> F128
    decreases point.len(),
{
    if point.len() == 0 {
        F128::one()
    } else {
        (if i % 2 == 1 {
            point[0]
        } else {
            F128::one() + point[0]
        }) * eq(point.drop_first(), i / 2)
    }
}

/// The extension of `table` at `point`.
pub open spec fn mle(table: Seq<F128>, point: Seq<F128>) -> F128 {
    sum(|i: int| eq(point, i) * table[i], pow2(point.len()))
}

/// The value at `x` of the line through `a` at zero and `b` at one.
pub open spec fn line(a: F128, b: F128, x: F128) -> F128 {
    a + x * (a + b)
}

/// The table with its lowest coordinate set to `x`.
pub open spec fn fold(table: Seq<F128>, x: F128) -> Seq<F128> {
    Seq::new(table.len() / 2, |i: int| line(table[2 * i], table[2 * i + 1], x))
}

/// The equality polynomial of two points of equal length, as a polynomial in
/// both.
pub open spec fn eq_points(p: Seq<F128>, q: Seq<F128>) -> F128
    decreases p.len(),
{
    if p.len() == 0 {
        F128::one()
    } else {
        ((F128::one() + p[0]) + q[0]) * eq_points(p.drop_first(), q.drop_first())
    }
}

/// The table of the equality polynomial at `point`.
pub open spec fn eq_table(point: Seq<F128>) -> Seq<F128> {
    Seq::new(pow2(point.len()), |i: int| eq(point, i))
}

/// `(1 + x) a + x b` is the line through `a` and `b` at `x`.
pub proof fn lemma_line_weights(a: F128, b: F128, x: F128)
    ensures
        (F128::one() + x) * a + x * b == line(a, b, x),
{
    lemma_mul_distributes(a, F128::one(), x);
    lemma_mul_one(a);
    lemma_add_associates(a, x * a, x * b);
    lemma_mul_distributes(x, a, b);
}

/// Setting the lowest coordinate first does not change an extension.
pub proof fn lemma_mle_folds(table: Seq<F128>, point: Seq<F128>)
    requires
        point.len() > 0,
        table.len() == pow2(point.len()),
    ensures
        fold(table, point[0]).len() == pow2((point.len() - 1) as nat),
        mle(table, point) == mle(fold(table, point[0]), point.drop_first()),
{
    let x = point[0];
    let rest = point.drop_first();
    let half = pow2(rest.len());
    lemma_pow2_unfold(point.len());
    let terms = |i: int| eq(point, i) * table[i];
    let pairs = |i: int| eq(rest, i) * fold(table, x)[i];
    assert forall|i: int| 0 <= i < half implies #[trigger] pairs(i) == terms(2 * i) + terms(
        2 * i + 1,
    ) by {
        let e = eq(rest, i);
        let (a, b) = (table[2 * i], table[2 * i + 1]);
        assert((2 * i) % 2 == 0 && (2 * i) / 2 == i);
        assert((2 * i + 1) % 2 == 1 && (2 * i + 1) / 2 == i);
        assert(eq(point, 2 * i) == (F128::one() + x) * e);
        assert(eq(point, 2 * i + 1) == x * e);
        lemma_mul_commutes(F128::one() + x, e);
        lemma_mul_commutes(x, e);
        lemma_mul_associates(e, F128::one() + x, a);
        lemma_mul_associates(e, x, b);
        lemma_mul_distributes(e, (F128::one() + x) * a, x * b);
        lemma_line_weights(a, b, x);
    }
    lemma_sum_pairs(terms, pairs, half);
    assert(mle(table, point) == sum(terms, 2 * half));
    assert(mle(fold(table, x), rest) == sum(pairs, half));
}

/// The extension of a table with one entry.
pub proof fn lemma_mle_single(table: Seq<F128>, point: Seq<F128>)
    requires
        point.len() == 0,
        table.len() == 1,
    ensures
        mle(table, point) == table[0],
{
    lemma2_to64();
    let terms = |i: int| eq(point, i) * table[i];
    assert(sum(terms, 1) == sum(terms, 0) + terms(0));
    lemma_mul_one(table[0]);
    lemma_add_zero(table[0]);
}

/// The equality polynomial of a point in two parts.
pub proof fn lemma_eq_parts(low: Seq<F128>, high: Seq<F128>, i: int, j: int)
    requires
        0 <= i < pow2(low.len()),
        0 <= j,
    ensures
        eq(low + high, pow2(low.len()) * j + i) == eq(low, i) * eq(high, j),
    decreases low.len(),
{
    if low.len() == 0 {
        lemma2_to64();
        assert(low + high =~= high);
        lemma_mul_one(eq(high, j));
    } else {
        let rest = low.drop_first();
        let half = pow2(rest.len());
        lemma_pow2_unfold(low.len());
        let k = pow2(low.len()) * j + i;
        assert(pow2(low.len()) * j == 2 * (half * j)) by (nonlinear_arith)
            requires
                pow2(low.len()) == 2 * half,
        ;
        assert(k % 2 == i % 2);
        assert(k / 2 == half * j + i / 2);
        assert((low + high).drop_first() =~= rest + high);
        lemma_eq_parts(rest, high, i / 2, j);
        let weight = if i % 2 == 1 {
            low[0]
        } else {
            F128::one() + low[0]
        };
        lemma_mul_associates(weight, eq(rest, i / 2), eq(high, j));
    }
}

/// The equality polynomial of a point with one more coordinate.
pub proof fn lemma_eq_push(point: Seq<F128>, x: F128, i: int)
    requires
        0 <= i < pow2(point.len()),
    ensures
        eq(point.push(x), i) == (F128::one() + x) * eq(point, i),
        eq(point.push(x), pow2(point.len()) + i) == x * eq(point, i),
{
    let last = seq![x];
    assert(point.push(x) =~= point + last);
    lemma_eq_parts(point, last, i, 0);
    lemma_eq_parts(point, last, i, 1);
    assert(pow2(point.len()) * 0 == 0);
    assert(pow2(point.len()) * 1 == pow2(point.len()));
    assert(last.drop_first().len() == 0);
    assert(eq(last.drop_first(), 0) == F128::one());
    assert(eq(last, 0) == (F128::one() + x) * F128::one());
    assert(eq(last, 1) == x * F128::one());
    lemma_mul_one(F128::one() + x);
    lemma_mul_one(x);
    lemma_mul_commutes(eq(point, i), F128::one() + x);
    lemma_mul_commutes(eq(point, i), x);
}

/// A table in two halves extends, in its highest coordinate, as the line
/// through the extensions of the halves.
pub proof fn lemma_mle_halves(low: Seq<F128>, high: Seq<F128>, point: Seq<F128>, x: F128)
    requires
        low.len() == pow2(point.len()),
        high.len() == pow2(point.len()),
    ensures
        mle(low + high, point.push(x)) == line(mle(low, point), mle(high, point), x),
{
    let n = pow2(point.len());
    let both = low + high;
    lemma_pow2_unfold(point.push(x).len());
    let terms = |i: int| eq(point.push(x), i) * both[i];
    let upper = |i: int| terms(n + i);
    let low_terms = |i: int| eq(point, i) * low[i];
    let high_terms = |i: int| eq(point, i) * high[i];
    lemma_sum_splits(terms, upper, n, n);
    assert forall|i: int| 0 <= i < n implies #[trigger] terms(i) == (F128::one() + x) * low_terms(
        i,
    ) by {
        lemma_eq_push(point, x, i);
        lemma_mul_associates(F128::one() + x, eq(point, i), low[i]);
    }
    lemma_sum_scales(F128::one() + x, low_terms, terms, n);
    assert forall|i: int| 0 <= i < n implies #[trigger] upper(i) == x * high_terms(i) by {
        lemma_eq_push(point, x, i);
        lemma_mul_associates(x, eq(point, i), high[i]);
    }
    lemma_sum_scales(x, high_terms, upper, n);
    lemma_line_weights(mle(low, point), mle(high, point), x);
}

/// The equality polynomial sums to one over the cube.
pub proof fn lemma_eq_total(point: Seq<F128>)
    ensures
        sum(|i: int| eq(point, i), pow2(point.len())) == F128::one(),
    decreases point.len(),
{
    let terms = |i: int| eq(point, i);
    if point.len() == 0 {
        lemma2_to64();
        assert(sum(terms, 1) == sum(terms, 0) + terms(0));
        lemma_add_zero(F128::one());
    } else {
        let rest = point.drop_first();
        let half = pow2(rest.len());
        lemma_pow2_unfold(point.len());
        lemma_eq_total(rest);
        let pairs = |i: int| eq(rest, i);
        assert forall|i: int| 0 <= i < half implies #[trigger] pairs(i) == terms(2 * i) + terms(
            2 * i + 1,
        ) by {
            let e = eq(rest, i);
            assert((2 * i) % 2 == 0 && (2 * i) / 2 == i);
            assert((2 * i + 1) % 2 == 1 && (2 * i + 1) / 2 == i);
            lemma_line_weights(e, e, point[0]);
            lemma_add_self(e);
            lemma_mul_zero(point[0]);
            lemma_add_zero(e);
        }
        lemma_sum_pairs(terms, pairs, half);
    }
}

/// Setting the lowest coordinate of an equality table.
pub proof fn lemma_eq_table_folds(point: Seq<F128>, x: F128, i: int)
    requires
        point.len() > 0,
        0 <= i < pow2((point.len() - 1) as nat),
    ensures
        fold(eq_table(point), x).len() == pow2((point.len() - 1) as nat),
        fold(eq_table(point), x)[i] == ((F128::one() + point[0]) + x) * eq(point.drop_first(), i),
{
    lemma_pow2_unfold(point.len());
    let r = point[0];
    let e = eq(point.drop_first(), i);
    assert((2 * i) % 2 == 0 && (2 * i) / 2 == i);
    assert((2 * i + 1) % 2 == 1 && (2 * i + 1) / 2 == i);
    let (a, b) = ((F128::one() + r) * e, r * e);
    lemma_mul_distributes(e, F128::one() + r, r);
    lemma_add_associates(F128::one(), r, r);
    lemma_add_self(r);
    lemma_add_zero(F128::one());
    lemma_mul_one(e);
    assert(a + b == e);
    lemma_mul_distributes(e, F128::one() + r, x);
}

/// The extension of an equality table.
pub proof fn lemma_mle_of_eq_table(p: Seq<F128>, q: Seq<F128>)
    requires
        p.len() == q.len(),
    ensures
        mle(eq_table(p), q) == eq_points(p, q),
    decreases p.len(),
{
    lemma_pow2_pos(p.len());
    if p.len() == 0 {
        lemma2_to64();
        lemma_mle_single(eq_table(p), q);
    } else {
        let (ps, qs) = (p.drop_first(), q.drop_first());
        let c = (F128::one() + p[0]) + q[0];
        lemma_mle_folds(eq_table(p), q);
        let folded = |i: int| eq(qs, i) * fold(eq_table(p), q[0])[i];
        let plain = |i: int| eq(qs, i) * eq_table(ps)[i];
        assert forall|i: int| 0 <= i < pow2(qs.len()) implies #[trigger] folded(i) == c * plain(
            i,
        ) by {
            lemma_eq_table_folds(p, q[0], i);
            let (e, f) = (eq(qs, i), eq(ps, i));
            lemma_mul_associates(e, c, f);
            lemma_mul_commutes(e, c);
            lemma_mul_associates(c, e, f);
        }
        lemma_sum_scales(c, plain, folded, pow2(qs.len()));
        lemma_mle_of_eq_table(ps, qs);
    }
}

/// The table of the equality polynomial at `point`.
pub fn build_eq(point: &[F128]) -> (table: Vec<F128>)
    requires
        pow2(point@.len()) <= usize::MAX,
    ensures
        table@ == eq_table(point@),
{
    let mut table: Vec<F128> = Vec::new();
    table.push(F128::one());
    let mut n: usize = 0;
    proof {
        lemma2_to64();
        assert(point@.take(0).len() == 0);
        assert(table@ =~= eq_table(point@.take(0)));
    }
    while n < point.len()
        invariant
            n <= point@.len(),
            table@ == eq_table(point@.take(n as int)),
            pow2(point@.len()) <= usize::MAX,
        decreases point@.len() - n,
    {
        let x = point[n];
        let size: usize = table.len();
        let ghost before = point@.take(n as int);
        let ghost after = point@.take(n + 1);
        proof {
            assert(after =~= before.push(x));
            lemma_pow2_unfold(after.len());
            if n + 1 < point@.len() {
                lemma_pow2_strictly_increases(after.len(), point@.len());
            }
        }
        let mut i: usize = 0;
        while i < size
            invariant
                i <= size,
                size == pow2(before.len()),
                table@.len() == size + i,
                forall|k: int| 0 <= k < i ==> #[trigger] table@[k] == eq(after, k),
                forall|k: int| i <= k < size ==> #[trigger] table@[k] == eq(before, k),
                forall|k: int| size <= k < size + i ==> #[trigger] table@[k] == eq(after, k),
                after == before.push(x),
                2 * size <= usize::MAX,
            decreases size - i,
        {
            let entry = table[i];
            proof {
                lemma_eq_push(before, x, i as int);
            }
            table.push(x * entry);
            table.set(i, (F128::one() + x) * entry);
            i = i + 1;
        }
        assert(table@ =~= eq_table(after));
        n = n + 1;
    }
    assert(point@.take(n as int) =~= point@);
    table
}

/// The live rows of a grouped domain: group `g` of `2^nu` rows is live in its
/// first `counts[g]` rows.
#[derive(Clone, Debug, PartialEq, Eq)]
pub struct LiveMask {
    pub nu: usize,
    pub counts: Vec<usize>,
}

/// The weight of the first `count` rows of a group.
pub open spec fn prefix_weight(row: Seq<F128>, count: nat) -> F128 {
    sum(|j: int| eq(row, j), count)
}

/// The extension of the live-row indicator at the point `row + group`.
pub open spec fn live_weight(counts: Seq<usize>, row: Seq<F128>, group: Seq<F128>) -> F128 {
    sum(|g: int| eq(group, g) * prefix_weight(row, counts[g] as nat), counts.len())
}

impl LiveMask {
    /// The extension of the live-row indicator at `rho`.
    pub fn live_eval(&self, rho: &[F128]) -> (weight: F128)
        requires
            self.nu <= rho@.len(),
            pow2(rho@.len()) <= usize::MAX,
            self.counts@.len() <= pow2((rho@.len() - self.nu) as nat),
            forall|g: int|
                0 <= g < self.counts@.len() ==> (#[trigger] self.counts@[g]) <= pow2(
                    self.nu as nat,
                ),
        ensures
            weight == live_weight(
                self.counts@,
                rho@.take(self.nu as int),
                rho@.skip(self.nu as int),
            ),
    {
        let ghost row = rho@.take(self.nu as int);
        let ghost group = rho@.skip(self.nu as int);
        proof {
            if self.nu < rho@.len() {
                lemma_pow2_strictly_increases(self.nu as nat, rho@.len());
            }
            if 0 < self.nu {
                lemma_pow2_strictly_increases((rho@.len() - self.nu) as nat, rho@.len());
            }
        }
        let eq_row = build_eq(vstd::slice::slice_subrange(rho, 0, self.nu));
        let eq_group = build_eq(vstd::slice::slice_subrange(rho, self.nu, rho.len()));
        assert(rho@.subrange(0, self.nu as int) =~= row);
        assert(rho@.subrange(self.nu as int, rho@.len() as int) =~= group);
        let ghost row_terms = |j: int| eq(row, j);
        let ghost terms = |g: int| eq(group, g) * prefix_weight(row, self.counts@[g] as nat);
        let mut weight = F128::zero();
        let mut g: usize = 0;
        while g < self.counts.len()
            invariant
                g <= self.counts@.len(),
                eq_row@ == eq_table(row),
                eq_group@ == eq_table(group),
                row.len() == self.nu,
                self.counts@.len() <= pow2(group.len()),
                forall|g: int|
                    0 <= g < self.counts@.len() ==> (#[trigger] self.counts@[g]) <= pow2(
                        self.nu as nat,
                    ),
                row_terms == (|j: int| eq(row, j)),
                terms == (|g: int| eq(group, g) * prefix_weight(row, self.counts@[g] as nat)),
                weight == sum(terms, g as nat),
            decreases self.counts@.len() - g,
        {
            let mut prefix = F128::zero();
            let mut j: usize = 0;
            while j < self.counts[g]
                invariant
                    g < self.counts@.len(),
                    j <= self.counts@[g as int] <= pow2(row.len()),
                    eq_row@ == eq_table(row),
                    row_terms == (|j: int| eq(row, j)),
                    prefix == sum(row_terms, j as nat),
                decreases self.counts@[g as int] - j,
            {
                prefix = prefix + eq_row[j];
                j = j + 1;
            }
            weight = weight + eq_group[g] * prefix;
            g = g + 1;
        }
        weight
    }
}

} // verus!
