//! The field and its multilinear extensions, in plain terms.

use crate::circuit::{boolean_point, lemma_eq_boolean, lemma_sum_single};
use crate::field::{lemma_add_zero, lemma_mul_commutes, lemma_mul_one, lemma_mul_zero, F128};
use crate::inverse::lemma_mul_x;
use crate::multilinear::{
    eq, fold, lemma_eq_parts, lemma_mle_folds, lemma_mle_single, live_weight, mle, prefix_weight,
};
use crate::product_gkr::grouped;
use crate::sums::{
    lemma_sum_blocks, lemma_sum_congruent, lemma_sum_scales, lemma_sum_splits, lemma_sum_zero,
    power, product, sum,
};
use vstd::arithmetic::power2::{lemma2_to64, lemma_pow2_adds, lemma_pow2_pos, pow2};
use vstd::prelude::*;

verus! {

/// Addition is exclusive or of the coefficients, and multiplication by `x` shifts
/// them by one and replaces `x^128` by `x^7 + x^2 + x + 1`. With the ring laws
/// this determines the field.
pub proof fn lemma_field_is_determined(a: F128, b: F128)
    ensures
        (a + b).bits == a.bits ^ b.bits,
        F128::zero().bits == 0,
        F128::one().bits == 1,
        ((F128 { bits: 2 }) * a).bits == (a.bits << 1) ^ (if a.bits >> 127 == 1 {
            0x87u128
        } else {
            0u128
        }),
{
    lemma_mul_x(a);
}

/// Sums, products and powers, term by term.
pub proof fn lemma_term_by_term(f: spec_fn(int) -> F128, s: Seq<F128>, v: F128, a: F128, n: nat)
    ensures
        sum(f, 0) == F128::zero(),
        sum(f, n + 1) == sum(f, n) + f(n as int),
        product(Seq::empty()) == F128::one(),
        product(s.push(v)) == product(s) * v,
        power(a, 0) == F128::one(),
        power(a, n + 1) == power(a, n) * a,
{
    assert(s.push(v).drop_last() =~= s);
}

/// The extension of a table has the table's entries at the Boolean points.
pub proof fn lemma_extension_extends(table: Seq<F128>, i: nat, n: nat)
    requires
        table.len() == pow2(n),
        i < pow2(n),
    ensures
        mle(table, boolean_point(i, n)) == table[i as int],
{
    let point = boolean_point(i, n);
    lemma_eq_boolean(i, n, i as int);
    let terms = |j: int| eq(point, j) * table[j];
    assert forall|j: int| 0 <= j < pow2(n) && j != i implies #[trigger] terms(j)
        == F128::zero() by {
        lemma_eq_boolean(i, n, j);
        lemma_mul_zero(table[j]);
    }
    lemma_sum_single(terms, pow2(n), i as int);
    lemma_mul_one(table[i as int]);
}

/// The extension of a table sets its coordinates one by one, each on the lines
/// through neighbouring entries.
pub proof fn lemma_extension_by_coordinates(table: Seq<F128>, point: Seq<F128>)
    requires
        table.len() == pow2(point.len()),
    ensures
        point.len() == 0 ==> mle(table, point) == table[0],
        point.len() > 0 ==> mle(table, point) == mle(
            Seq::new(
                table.len() / 2,
                |i: int| table[2 * i] + point[0] * (table[2 * i] + table[2 * i + 1]),
            ),
            point.drop_first(),
        ),
{
    lemma2_to64();
    if point.len() == 0 {
        lemma_mle_single(table, point);
    } else {
        lemma_mle_folds(table, point);
        assert(fold(table, point[0]) =~= Seq::new(
            table.len() / 2,
            |i: int| table[2 * i] + point[0] * (table[2 * i] + table[2 * i + 1]),
        ));
    }
}

/// The equality polynomial at index `i` is the extension of the table that is
/// one at `i` and zero elsewhere.
pub proof fn lemma_equality_is_an_extension(point: Seq<F128>, i: int)
    requires
        0 <= i < pow2(point.len()),
    ensures
        eq(point, i) == mle(
            Seq::new(
                pow2(point.len()),
                |j: int|
                    if j == i {
                        F128::one()
                    } else {
                        F128::zero()
                    },
            ),
            point,
        ),
{
    let n = pow2(point.len());
    let unit = Seq::new(
        n,
        |j: int|
            if j == i {
                F128::one()
            } else {
                F128::zero()
            },
    );
    let terms = |j: int| eq(point, j) * unit[j];
    assert forall|j: int| 0 <= j < n && j != i implies #[trigger] terms(j) == F128::zero() by {
        lemma_mul_zero(eq(point, j));
    }
    lemma_sum_single(terms, n, i);
    lemma_mul_one(eq(point, i));
}

/// The weight of a live mask is the extension of the table that is one in the
/// live rows and zero in the others.
pub proof fn lemma_live_weight_is_an_extension(
    counts: Seq<usize>,
    row: Seq<F128>,
    group: Seq<F128>,
)
    requires
        counts.len() == pow2(group.len()),
        forall|g: int| 0 <= g < counts.len() ==> (#[trigger] counts[g]) <= pow2(row.len()),
    ensures
        live_weight(counts, row, group) == mle(
            Seq::new(
                pow2(row.len()) * pow2(group.len()),
                |x: int|
                    if x % (pow2(row.len()) as int) < counts[x / (pow2(row.len()) as int)] {
                        F128::one()
                    } else {
                        F128::zero()
                    },
            ),
            row + group,
        ),
{
    let (rows, groups) = (pow2(row.len()), pow2(group.len()));
    let mask = Seq::new(
        rows * groups,
        |x: int|
            if x % (rows as int) < counts[x / (rows as int)] {
                F128::one()
            } else {
                F128::zero()
            },
    );
    lemma_pow2_pos(row.len());
    lemma_pow2_adds(row.len(), group.len());
    let terms = |x: int| eq(row + group, x) * mask[x];
    let blocks = |g: int| sum(|j: int| terms(rows * g + j), rows);
    lemma_sum_blocks(terms, blocks, rows, groups);
    let weights = |g: int| eq(group, g) * prefix_weight(row, counts[g] as nat);
    assert forall|g: int| 0 <= g < groups implies #[trigger] blocks(g) == weights(g) by {
        let e = eq(group, g);
        let count = counts[g] as nat;
        let block = |j: int| terms(rows * g + j);
        let plain = |j: int| eq(row, j);
        let scaled = |j: int| e * plain(j);
        let dead = |j: int| block(count + j);
        assert(counts[g] <= rows);
        assert forall|j: int| 0 <= j < rows implies #[trigger] block(j) == (if j < count {
            scaled(j)
        } else {
            F128::zero()
        }) by {
            let x = rows * g + j;
            assert(x / (rows as int) == g && x % (rows as int) == j && 0 <= x < rows * groups)
                by (nonlinear_arith)
                requires
                    x == rows * g + j,
                    0 <= j < rows,
                    0 <= g < groups,
            ;
            lemma_eq_parts(row, group, j, g);
            lemma_mul_one(eq(row, j) * e);
            lemma_mul_zero(eq(row, j) * e);
            lemma_mul_commutes(eq(row, j), e);
        }
        let rest = (rows - count) as nat;
        lemma_sum_splits(block, dead, count, rest);
        lemma_sum_zero(dead, rest);
        lemma_add_zero(sum(block, count));
        lemma_sum_congruent(block, scaled, count);
        lemma_sum_scales(e, plain, scaled, count);
    }
    lemma_sum_congruent(blocks, weights, groups);
}

/// The leaves of a grouped domain, row by row.
pub proof fn lemma_grouped_row_by_row(
    buffer: Seq<F128>,
    lens: Seq<usize>,
    rows: nat,
    g: int,
    j: int,
)
    requires
        buffer.len() == rows * lens.len(),
        0 <= g < lens.len(),
        0 <= j < rows,
    ensures
        grouped(buffer, lens, rows).len() == buffer.len(),
        grouped(buffer, lens, rows)[rows * g + j] == if j < lens[g] {
            buffer[rows * g + j]
        } else {
            F128::one()
        },
{
    let x = rows * g + j;
    let groups = lens.len();
    assert(x / (rows as int) == g && x % (rows as int) == j && 0 <= x < rows * groups)
        by (nonlinear_arith)
        requires
            x == rows * g + j,
            0 <= j < rows,
            0 <= g < groups,
    ;
}

} // verus!
