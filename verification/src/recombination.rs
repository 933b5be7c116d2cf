//! The two sides of a channel's bookkeeping: the leaves multiply to the product
//! over the tuples, and their extension is recombined from the folded columns.

use crate::channel::{side_columns, side_lens, ChannelSource};
use crate::circuit::Circuit;
use crate::field::{
    lemma_add_associates, lemma_add_cancels, lemma_add_commutes, lemma_add_self, lemma_add_zero,
    lemma_mul_associates, lemma_mul_commutes, lemma_mul_distributes, lemma_mul_one, lemma_mul_zero,
    F128,
};
use crate::multilinear::{eq, lemma_eq_parts, lemma_eq_total, live_weight, mle, prefix_weight};
use crate::sums::{
    lemma_product_concatenates, lemma_sum_adds, lemma_sum_blocks, lemma_sum_congruent,
    lemma_sum_scales, lemma_sum_splits, lemma_sum_swaps, lemma_sum_zero, power, product, sum,
};
use crate::tuples::{
    fingerprints, grand_product, leaf, leaves, public_tuple, recombined, side_gathered, side_tuples,
    source_values, weighted, word_base,
};
use vstd::arithmetic::power2::{lemma_pow2_adds, lemma_pow2_pos, pow2};
use vstd::prelude::*;

verus! {

/// A product of ones is one.
proof fn lemma_product_of_ones(s: Seq<F128>)
    requires
        forall|i: int| 0 <= i < s.len() ==> #[trigger] s[i] == F128::one(),
    ensures
        product(s) == F128::one(),
    decreases s.len(),
{
    if s.len() > 0 {
        lemma_product_of_ones(s.drop_last());
        lemma_mul_one(F128::one());
    }
}

/// The grand product of two runs of tuples.
pub proof fn lemma_grand_product_concatenates(
    s: Seq<Seq<F128>>,
    t: Seq<Seq<F128>>,
    alpha: F128,
    beta: F128,
)
    ensures
        grand_product(s + t, alpha, beta) == grand_product(s, alpha, beta) * grand_product(
            t,
            alpha,
            beta,
        ),
{
    lemma_product_concatenates(fingerprints(s, alpha, beta), fingerprints(t, alpha, beta));
    assert(fingerprints(s + t, alpha, beta) =~= fingerprints(s, alpha, beta) + fingerprints(
        t,
        alpha,
        beta,
    ));
}

/// The leaves of the first `groups` groups multiply to the grand product of the
/// tuples of their sources.
pub proof fn lemma_leaves_multiply(
    side: Seq<ChannelSource>,
    circuit: Circuit,
    packed: Seq<F128>,
    public: Seq<F128>,
    alpha: F128,
    beta: F128,
    groups: nat,
)
    requires
        circuit.wf(),
    ensures
        product(leaves(side, circuit, packed, public, alpha, beta, groups)) == grand_product(
            side_tuples(
                side.take(
                    if groups < side.len() {
                        groups as int
                    } else {
                        side.len() as int
                    },
                ),
                circuit,
                packed,
                public,
            ),
            alpha,
            beta,
        ),
    decreases groups,
{
    let rows = circuit.cells.rows();
    lemma_pow2_pos(circuit.cells.nu as nat);
    let all = leaves(side, circuit, packed, public, alpha, beta, groups);
    if groups == 0 {
        assert(rows * groups == 0) by (nonlinear_arith)
            requires
                groups == 0,
        ;
        assert(side.take(0).len() == 0);
        assert(fingerprints(Seq::empty(), alpha, beta).len() == 0);
    } else {
        let m = (groups - 1) as nat;
        lemma_leaves_multiply(side, circuit, packed, public, alpha, beta, m);
        let before = leaves(side, circuit, packed, public, alpha, beta, m);
        let block = Seq::new(
            rows,
            |j: int| leaf(side, circuit, packed, public, alpha, beta, m as int, j),
        );
        assert(rows * groups == rows * m + rows) by (nonlinear_arith)
            requires
                groups == m + 1,
        ;
        assert(all =~= before + block) by {
            assert forall|x: int| 0 <= x < rows * groups implies #[trigger] all[x] == (before
                + block)[x] by {
                if x >= rows * m {
                    let j = x - rows * m;
                    assert(x / (rows as int) == m && x % (rows as int) == j) by (nonlinear_arith)
                        requires
                            x == rows * m + j,
                            0 <= j < rows,
                    ;
                }
            }
        }
        lemma_product_concatenates(before, block);
        if m < side.len() {
            let source = side[m as int];
            let len = source.live_rows(circuit) as int;
            let (live, dead) = (block.take(len), block.skip(len));
            let tuples = source.tuples(circuit, packed, public);
            assert(live =~= fingerprints(tuples, alpha, beta));
            assert(live + dead =~= block);
            lemma_product_concatenates(live, dead);
            lemma_product_of_ones(dead);
            lemma_mul_one(product(live));
            let prefix = side.take(groups as int);
            assert(prefix.drop_last() =~= side.take(m as int));
            lemma_grand_product_concatenates(
                side_tuples(side.take(m as int), circuit, packed, public),
                tuples,
                alpha,
                beta,
            );
        } else {
            lemma_product_of_ones(block);
            lemma_mul_one(product(before));
            assert(side.take(side.len() as int) =~= side);
        }
    }
}

/// The folded columns of the first `n` sources come first.
proof fn lemma_gathered_prefix(
    side: Seq<ChannelSource>,
    circuit: Circuit,
    packed: Seq<F128>,
    row: Seq<F128>,
    n: int,
)
    requires
        0 <= n <= side.len(),
    ensures
        side_gathered(side, circuit, packed, row).len() == side_columns(side),
        side_columns(side.take(n)) <= side_columns(side),
        side_gathered(side, circuit, packed, row).take(side_columns(side.take(n)) as int)
            == side_gathered(side.take(n), circuit, packed, row),
    decreases side.len(),
{
    let all = side_gathered(side, circuit, packed, row);
    if side.len() == 0 {
        assert(side.take(n) =~= side);
        assert(all.take(0) =~= all);
    } else {
        let shorter = side.drop_last();
        if n == side.len() {
            lemma_gathered_prefix(shorter, circuit, packed, row, n - 1);
            assert(side.take(n) =~= side);
            assert(all.take(all.len() as int) =~= all);
        } else {
            lemma_gathered_prefix(shorter, circuit, packed, row, n);
            assert(shorter.take(n) =~= side.take(n));
            let prefix = side_gathered(shorter, circuit, packed, row);
            let end = side_columns(side.take(n)) as int;
            assert(all.take(end) =~= prefix.take(end));
        }
    }
}

/// There is a folded column for each gate column.
pub proof fn lemma_gathered_count(
    side: Seq<ChannelSource>,
    circuit: Circuit,
    packed: Seq<F128>,
    row: Seq<F128>,
)
    ensures
        side_gathered(side, circuit, packed, row).len() == side_columns(side),
{
    lemma_gathered_prefix(side, circuit, packed, row, 0);
}

/// The values of source `g` among the folded columns of its side are its own
/// folded columns.
pub proof fn lemma_source_values(
    side: Seq<ChannelSource>,
    circuit: Circuit,
    packed: Seq<F128>,
    row: Seq<F128>,
    g: int,
)
    requires
        0 <= g < side.len(),
    ensures
        side_gathered(side, circuit, packed, row).len() == side_columns(side),
        source_values(side, side_gathered(side, circuit, packed, row), g) == side[g].gathered(
            circuit,
            packed,
            row,
        ),
{
    let all = side_gathered(side, circuit, packed, row);
    lemma_gathered_prefix(side, circuit, packed, row, g);
    lemma_gathered_prefix(side, circuit, packed, row, g + 1);
    lemma_gathered_prefix(side.take(g), circuit, packed, row, g);
    let longer = side.take(g + 1);
    assert(longer.drop_last() =~= side.take(g));
    assert(longer.last() == side[g]);
    let start = side_columns(side.take(g)) as int;
    let end = side_columns(longer) as int;
    let (before, own) = (
        side_gathered(side.take(g), circuit, packed, row),
        side[g].gathered(circuit, packed, row),
    );
    assert(all.take(end) == before + own);
    assert(source_values(side, all, g) =~= own) by {
        assert forall|k: int| 0 <= k < own.len() implies #[trigger] source_values(
            side,
            all,
            g,
        )[k] == own[k] by {
            assert(all[start + k] == all.take(end)[start + k]);
        }
    }
}

/// The fold of a source's tuples with the weights of a row point.
proof fn lemma_source_folds(
    source: ChannelSource,
    circuit: Circuit,
    packed: Seq<F128>,
    public: Seq<F128>,
    alpha: F128,
    row: Seq<F128>,
)
    ensures
        sum(
            |j: int| eq(row, j) * weighted(source.tuple(circuit, packed, public, j), alpha),
            source.live_rows(circuit),
        ) == source.folded(public, source.gathered(circuit, packed, row), alpha, row),
{
    let len = source.live_rows(circuit);
    let terms = |j: int| eq(row, j) * weighted(source.tuple(circuit, packed, public, j), alpha);
    match source {
        ChannelSource::Gate { ty, words } => {
            let width = words@.len();
            let values = source.gathered(circuit, packed, row);
            let f = |j: int, k: int|
                eq(row, j) * (power(alpha, k as nat) * packed[word_base(
                    circuit.cells,
                    ty,
                    words@[k],
                ) + j]);
            let by_row = |j: int| sum(|k: int| f(j, k), width);
            let by_column = |k: int| sum(|j: int| f(j, k), len);
            assert forall|j: int| 0 <= j < len implies #[trigger] terms(j) == by_row(j) by {
                let t = source.tuple(circuit, packed, public, j);
                lemma_sum_scales(
                    eq(row, j),
                    |k: int| power(alpha, k as nat) * t[k],
                    |k: int| f(j, k),
                    width,
                );
            }
            lemma_sum_congruent(terms, by_row, len);
            lemma_sum_swaps(f, len, width);
            let weights = |k: int| power(alpha, k as nat) * values[k];
            assert forall|k: int| 0 <= k < width implies #[trigger] by_column(k) == weights(k) by {
                let a = power(alpha, k as nat);
                let base = word_base(circuit.cells, ty, words@[k]);
                let cells = |j: int| eq(row, j) * packed[base + j];
                let scaled = |j: int| f(j, k);
                assert forall|j: int| 0 <= j < len implies #[trigger] scaled(j) == a * cells(j) by {
                    let (e, v) = (eq(row, j), packed[base + j]);
                    lemma_mul_associates(e, a, v);
                    lemma_mul_commutes(e, a);
                    lemma_mul_associates(a, e, v);
                }
                lemma_sum_scales(a, cells, scaled, len);
                assert(values[k] == sum(cells, len));
            }
            lemma_sum_congruent(by_column, weights, width);
        },
        ChannelSource::Public { words } => {
            let w = weighted(public_tuple(public, words@), alpha);
            assert(sum(terms, 1) == sum(terms, 0) + terms(0));
            lemma_add_zero(terms(0));
            lemma_mul_commutes(eq(row, 0), w);
        },
    }
}

/// The extension of one group's leaves: one, and for the live rows the
/// fingerprints plus one.
proof fn lemma_group_extends(
    side: Seq<ChannelSource>,
    circuit: Circuit,
    packed: Seq<F128>,
    public: Seq<F128>,
    alpha: F128,
    beta: F128,
    row: Seq<F128>,
    g: int,
)
    requires
        0 <= g,
        row.len() == circuit.cells.nu,
    ensures
        sum(
            |j: int| eq(row, j) * leaf(side, circuit, packed, public, alpha, beta, g, j),
            circuit.cells.rows(),
        ) == (if g < side.len() {
            F128::one() + ((beta + F128::one()) * prefix_weight(row, side[g].live_rows(circuit))
                + side[g].folded(public, side[g].gathered(circuit, packed, row), alpha, row))
        } else {
            F128::one()
        }),
{
    let rows = circuit.cells.rows();
    lemma_pow2_pos(circuit.cells.nu as nat);
    let at = |j: int| eq(row, j) * leaf(side, circuit, packed, public, alpha, beta, g, j);
    let weights = |j: int| eq(row, j);
    let extra = |j: int|
        eq(row, j) * (leaf(side, circuit, packed, public, alpha, beta, g, j) + F128::one());
    lemma_eq_total(row);
    // leaf = 1 + (leaf + 1)
    assert forall|j: int| 0 <= j < rows implies #[trigger] at(j) == weights(j) + extra(j) by {
        let (e, v) = (eq(row, j), leaf(side, circuit, packed, public, alpha, beta, g, j));
        lemma_mul_distributes(e, v, F128::one());
        lemma_mul_one(e);
        lemma_add_commutes(e * v, e);
        lemma_add_cancels(e, e * v);
    }
    lemma_sum_adds(weights, extra, at, rows);
    if g < side.len() {
        let source = side[g];
        let len = source.live_rows(circuit);
        let tail = |j: int| extra(len + j);
        assert forall|j: int| 0 <= j < rows - len implies #[trigger] tail(j) == F128::zero() by {
            lemma_add_self(F128::one());
            lemma_mul_zero(eq(row, len + j));
        }
        lemma_sum_splits(extra, tail, len, (rows - len) as nat);
        lemma_sum_zero(tail, (rows - len) as nat);
        lemma_add_zero(sum(extra, len));
        let c = beta + F128::one();
        let constant = |j: int| c * weights(j);
        let folds = |j: int|
            eq(row, j) * weighted(source.tuple(circuit, packed, public, j), alpha);
        assert forall|j: int| 0 <= j < len implies #[trigger] extra(j) == constant(j) + folds(
            j,
        ) by {
            let (e, w) = (
                eq(row, j),
                weighted(source.tuple(circuit, packed, public, j), alpha),
            );
            // (beta + w) + 1 = (beta + 1) + w
            lemma_add_associates(beta, w, F128::one());
            lemma_add_commutes(w, F128::one());
            lemma_add_associates(beta, F128::one(), w);
            lemma_mul_distributes(e, c, w);
            lemma_mul_commutes(e, c);
        }
        lemma_sum_adds(constant, folds, extra, len);
        lemma_sum_scales(c, weights, constant, len);
        lemma_source_folds(source, circuit, packed, public, alpha, row);
    } else {
        assert forall|j: int| 0 <= j < rows implies #[trigger] extra(j) == F128::zero() by {
            lemma_add_self(F128::one());
            lemma_mul_zero(eq(row, j));
        }
        lemma_sum_zero(extra, rows);
        lemma_add_zero(F128::one());
    }
}

/// The extension of a side's leaves is what its folded columns recombine to.
pub proof fn lemma_leaves_extend(
    side: Seq<ChannelSource>,
    circuit: Circuit,
    packed: Seq<F128>,
    public: Seq<F128>,
    alpha: F128,
    beta: F128,
    row: Seq<F128>,
    group: Seq<F128>,
)
    requires
        circuit.wf(),
        row.len() == circuit.cells.nu,
        side.len() <= pow2(group.len()),
    ensures
        mle(
            leaves(side, circuit, packed, public, alpha, beta, pow2(group.len())),
            row + group,
        ) == recombined(
            side,
            side_lens(side, circuit, pow2(group.len())),
            public,
            side_gathered(side, circuit, packed, row),
            alpha,
            beta,
            row,
            group,
        ),
{
    let rows = circuit.cells.rows();
    let groups = pow2(group.len());
    let all = leaves(side, circuit, packed, public, alpha, beta, groups);
    let lens = side_lens(side, circuit, groups);
    let values = side_gathered(side, circuit, packed, row);
    lemma_pow2_pos(circuit.cells.nu as nat);
    lemma_pow2_adds(row.len(), group.len());
    vstd::bits::lemma_usize_pow2_no_overflow(circuit.cells.nu as nat);
    let terms = |x: int| eq(row + group, x) * all[x];
    let blocks = |g: int| sum(|j: int| terms(rows * g + j), rows);
    lemma_sum_blocks(terms, blocks, rows, groups);
    let c = beta + F128::one();
    let ones = |g: int| eq(group, g);
    let live = |g: int| eq(group, g) * prefix_weight(row, lens[g] as nat);
    let scaled = |g: int| c * live(g);
    let folds = |g: int|
        if g < side.len() {
            eq(group, g) * side[g].folded(public, source_values(side, values, g), alpha, row)
        } else {
            F128::zero()
        };
    let rest = |g: int| scaled(g) + folds(g);
    assert forall|g: int| 0 <= g < groups implies #[trigger] blocks(g) == ones(g) + rest(g) by {
        let e = eq(group, g);
        let block = |j: int| terms(rows * g + j);
        let plain = |j: int| eq(row, j) * leaf(side, circuit, packed, public, alpha, beta, g, j);
        assert forall|j: int| 0 <= j < rows implies #[trigger] block(j) == e * plain(j) by {
            let x = rows * g + j;
            assert(x / (rows as int) == g && x % (rows as int) == j && 0 <= x < rows * groups)
                by (nonlinear_arith)
                requires
                    x == rows * g + j,
                    0 <= j < rows,
                    0 <= g < groups,
            ;
            lemma_eq_parts(row, group, j, g);
            let v = leaf(side, circuit, packed, public, alpha, beta, g, j);
            assert(all[x] == v);
            lemma_mul_commutes(eq(row, j), e);
            lemma_mul_associates(e, eq(row, j), v);
        }
        lemma_sum_scales(e, plain, block, rows);
        lemma_group_extends(side, circuit, packed, public, alpha, beta, row, g);
        lemma_mul_one(e);
        if g < side.len() {
            lemma_source_values(side, circuit, packed, row, g);
            let p = prefix_weight(row, side[g].live_rows(circuit));
            let f = side[g].folded(public, side[g].gathered(circuit, packed, row), alpha, row);
            assert(lens[g] as nat == side[g].live_rows(circuit));
            lemma_mul_distributes(e, F128::one(), c * p + f);
            lemma_mul_distributes(e, c * p, f);
            lemma_mul_associates(e, c, p);
            lemma_mul_commutes(e, c);
            lemma_mul_associates(c, e, p);
        } else {
            assert(lens[g] == 0);
            assert(prefix_weight(row, 0) == F128::zero());
            lemma_mul_zero(e);
            lemma_mul_zero(c);
            lemma_add_zero(F128::zero());
            lemma_add_zero(e);
        }
    }
    lemma_sum_adds(ones, rest, blocks, groups);
    lemma_sum_adds(scaled, folds, rest, groups);
    lemma_sum_scales(c, live, scaled, groups);
    lemma_eq_total(group);
    // The sum of the folds ends with the sources.
    let sources = side.len();
    let none = |g: int| folds(sources + g);
    lemma_sum_splits(folds, none, sources, (groups - sources) as nat);
    lemma_sum_zero(none, (groups - sources) as nat);
    lemma_add_zero(sum(folds, sources));
    let own = |g: int|
        eq(group, g) * side[g].folded(public, source_values(side, values, g), alpha, row);
    lemma_sum_congruent(folds, own, sources);
    let (l, s) = (c * live_weight(lens, row, group), sum(own, sources));
    lemma_add_associates(F128::one(), l, s);
    lemma_add_commutes(F128::one(), l);
}

} // verus!
