//! Which tuples a channel has, and what becomes of them, in plain terms.

use crate::channel::ChannelSource;
use crate::circuit::{boolean_point, CellSlot, Circuit, IoWord};
use crate::field::{lemma_add_associates, lemma_add_zero, F128};
use crate::multilinear::eq;
use crate::spec_laws::lemma_slot_is_the_first;
use crate::sums::{lemma_sum_congruent, power, sum};
use crate::tuples::{
    fingerprint, fingerprints, grand_product, leaves, side_claim_points, side_gathered, side_tuples,
    weighted,
};
use vstd::arithmetic::power2::{lemma2_to64, lemma_pow2_pos, lemma_pow2_unfold, pow2};
use vstd::prelude::*;

verus! {

/// Slot `i` is the first gate slot that holds the word `word` of type `ty`.
pub open spec fn first_slot(
    circuit: Circuit,
    ty: usize,
    word: IoWord,
    i: int,
) -> bool {
    &&& 0 <= i < circuit.cells.columns@.len()
    &&& circuit.cells.slots@[i] == (CellSlot::Gate { ty, word })
    &&& forall|j: int|
        0 <= j < i ==> #[trigger] circuit.cells.slots@[j] != (CellSlot::Gate { ty, word })
}

/// A tuple has one entry for each word that its source lists, whatever their
/// number. Entry `k` of a public tuple is the listed public word. Entry `k` of
/// row `row` of a gate is what the buffer holds in that row of the column of
/// the first gate slot with the listed word.
pub proof fn lemma_tuple_entries(
    source: ChannelSource,
    circuit: Circuit,
    packed: Seq<F128>,
    public: Seq<F128>,
    row: int,
)
    ensures
        source matches ChannelSource::Public { words } ==> {
            let tuple = source.tuple(circuit, packed, public, row);
            &&& tuple.len() == words@.len()
            &&& forall|k: int|
                0 <= k < words@.len() ==> #[trigger] tuple[k] == public[words@[k] as int]
        },
        source matches ChannelSource::Gate { ty, words } ==> {
            let tuple = source.tuple(circuit, packed, public, row);
            &&& tuple.len() == words@.len()
            &&& forall|k: int, i: int|
                0 <= k < words@.len() && #[trigger] first_slot(circuit, ty, words@[k], i)
                    ==> #[trigger] tuple[k] == packed[circuit.cells.columns@[i] * pow2(
                    circuit.cells.nu as nat,
                ) + row]
        },
{
    if let ChannelSource::Gate { ty, words } = source {
        let tuple = source.tuple(circuit, packed, public, row);
        assert forall|k: int, i: int|
            0 <= k < words@.len() && #[trigger] first_slot(
                circuit,
                ty,
                words@[k],
                i,
            ) implies #[trigger] tuple[k] == packed[circuit.cells.columns@[i] * pow2(
            circuit.cells.nu as nat,
        ) + row] by {
            lemma_slot_is_the_first(circuit.cells, ty, words@[k]);
            let found = circuit.cells.slot_of(ty, words@[k])->0;
            assert(circuit.cells.slots@[i] == (CellSlot::Gate { ty, word: words@[k] }));
            assert(circuit.cells.slots@[found] == (CellSlot::Gate { ty, word: words@[k] }));
        }
    }
}

/// Two public tuples are equal exactly when all their listed words are, and they
/// list as many.
pub proof fn lemma_public_tuples_equal(
    ours: Vec<usize>,
    theirs: Vec<usize>,
    circuit: Circuit,
    packed: Seq<F128>,
    public: Seq<F128>,
)
    ensures
        ({
            let left = (ChannelSource::Public { words: ours }).tuple(circuit, packed, public, 0);
            let right = (ChannelSource::Public { words: theirs }).tuple(circuit, packed, public, 0);
            left == right <==> ours@.len() == theirs@.len() && forall|k: int|
                0 <= k < ours@.len() ==> public[(#[trigger] ours@[k]) as int]
                    == public[theirs@[k] as int]
        }),
{
    let (left, right) = (ChannelSource::Public { words: ours }, ChannelSource::Public { words: theirs });
    lemma_tuple_entries(left, circuit, packed, public, 0);
    lemma_tuple_entries(right, circuit, packed, public, 0);
    let (l, r) = (left.tuple(circuit, packed, public, 0), right.tuple(circuit, packed, public, 0));
    if l == r {
        assert forall|k: int| 0 <= k < ours@.len() implies public[(#[trigger] ours@[k]) as int]
            == public[theirs@[k] as int] by {
            assert(l[k] == r[k]);
        }
    } else if ours@.len() == theirs@.len() && (forall|k: int|
        0 <= k < ours@.len() ==> public[(#[trigger] ours@[k]) as int] == public[theirs@[k] as int]) {
        assert forall|k: int| 0 <= k < l.len() implies l[k] == r[k] by {
            assert(public[ours@[k] as int] == public[theirs@[k] as int]);
        }
        assert(l =~= r);
    }
}

/// The tuples of two runs of sources, one after the other.
pub proof fn lemma_tuples_line_up(
    side: Seq<ChannelSource>,
    more: Seq<ChannelSource>,
    circuit: Circuit,
    packed: Seq<F128>,
    public: Seq<F128>,
)
    ensures
        side_tuples(side + more, circuit, packed, public) == side_tuples(
            side,
            circuit,
            packed,
            public,
        ) + side_tuples(more, circuit, packed, public),
        side_tuples(Seq::empty(), circuit, packed, public).len() == 0,
    decreases more.len(),
{
    let first = side_tuples(side, circuit, packed, public);
    if more.len() == 0 {
        assert(side + more =~= side);
        assert(first + side_tuples(more, circuit, packed, public) =~= first);
    } else {
        let rest = more.drop_last();
        lemma_tuples_line_up(side, rest, circuit, packed, public);
        assert((side + more).drop_last() =~= side + rest);
        let own = more.last().tuples(circuit, packed, public);
        let middle = side_tuples(rest, circuit, packed, public);
        assert((first + middle) + own =~= first + (middle + own));
    }
}

/// A gate source has a tuple for each row that the circuit declares of its type,
/// at most for all `2^nu`; a public source has one. Tuple `j` is that of row `j`.
pub proof fn lemma_source_has_its_declared_rows(
    source: ChannelSource,
    circuit: Circuit,
    packed: Seq<F128>,
    public: Seq<F128>,
)
    ensures
        ({
            let own = side_tuples(seq![source], circuit, packed, public);
            &&& source is Public ==> own.len() == 1
            &&& source matches ChannelSource::Gate { ty, words } ==> {
                let declared = circuit.counts@[ty as int];
                let rows = pow2(circuit.cells.nu as nat);
                &&& declared <= rows ==> own.len() == declared
                &&& declared > rows ==> own.len() == rows
            }
            &&& forall|j: int|
                0 <= j < own.len() ==> #[trigger] own[j] == source.tuple(circuit, packed, public, j)
        }),
{
    let own = side_tuples(seq![source], circuit, packed, public);
    assert(seq![source].drop_last() =~= Seq::empty());
    assert(side_tuples(seq![source].drop_last(), circuit, packed, public).len() == 0);
    assert(own =~= source.tuples(circuit, packed, public));
}

/// Every declared row of a gate source of a side, up to `2^nu` of them, and the
/// tuple of every public source, is in the multiset of the side's tuples.
pub proof fn lemma_declared_rows_are_in_the_multiset(
    side: Seq<ChannelSource>,
    circuit: Circuit,
    packed: Seq<F128>,
    public: Seq<F128>,
    g: int,
    j: int,
)
    requires
        0 <= g < side.len(),
        0 <= j,
        side[g] matches ChannelSource::Gate { ty, words } ==> j < circuit.counts@[ty as int] && j
            < pow2(circuit.cells.nu as nat),
        side[g] is Public ==> j == 0,
    ensures
        side_tuples(side, circuit, packed, public).to_multiset().count(
            side[g].tuple(circuit, packed, public, j),
        ) > 0,
{
    let (low, high) = (side.take(g), side.skip(g + 1));
    let source = side[g];
    assert(side =~= (low + seq![source]) + high);
    lemma_tuples_line_up(low + seq![source], high, circuit, packed, public);
    lemma_tuples_line_up(low, seq![source], circuit, packed, public);
    lemma_source_has_its_declared_rows(source, circuit, packed, public);
    let all = side_tuples(side, circuit, packed, public);
    let own = side_tuples(seq![source], circuit, packed, public);
    let before = side_tuples(low, circuit, packed, public);
    assert(all[before.len() + j] == own[j]);
    assert(all.contains(source.tuple(circuit, packed, public, j)));
    all.to_multiset_ensures();
}

/// The fingerprint of a tuple: `beta` for the empty one, and with each further
/// word that word at the next power of `alpha`.
pub proof fn lemma_fingerprint_word_by_word(t: Seq<F128>, v: F128, alpha: F128, beta: F128)
    ensures
        fingerprint(Seq::empty(), alpha, beta) == beta,
        fingerprint(t.push(v), alpha, beta) == fingerprint(t, alpha, beta) + power(
            alpha,
            t.len(),
        ) * v,
        power(alpha, 0) == F128::one(),
        power(alpha, t.len() + 1) == power(alpha, t.len()) * alpha,
{
    lemma_add_zero(beta);
    let all = t.push(v);
    let f = |k: int| power(alpha, k as nat) * t[k];
    let h = |k: int| power(alpha, k as nat) * all[k];
    let n = t.len();
    assert forall|k: int| 0 <= k < n implies #[trigger] f(k) == h(k) by {}
    lemma_sum_congruent(f, h, n);
    assert(sum(h, n + 1) == sum(h, n) + h(n as int));
    lemma_add_associates(beta, weighted(t, alpha), power(alpha, n) * v);
}

/// The grand product, tuple by tuple.
pub proof fn lemma_grand_product_tuple_by_tuple(
    tuples: Seq<Seq<F128>>,
    t: Seq<F128>,
    alpha: F128,
    beta: F128,
)
    ensures
        grand_product(Seq::empty(), alpha, beta) == F128::one(),
        grand_product(tuples.push(t), alpha, beta) == grand_product(tuples, alpha, beta)
            * fingerprint(t, alpha, beta),
{
    let none = Seq::<Seq<F128>>::empty();
    assert(fingerprints(none, alpha, beta).len() == 0);
    assert(fingerprints(tuples.push(t), alpha, beta).drop_last()
        =~= fingerprints(tuples, alpha, beta));
}

/// The leaf in row `j` of group `g`: the fingerprint of the row's tuple where
/// the circuit declares the row, or the row is that of a public tuple; else one.
pub proof fn lemma_leaf_by_leaf(
    side: Seq<ChannelSource>,
    circuit: Circuit,
    packed: Seq<F128>,
    public: Seq<F128>,
    alpha: F128,
    beta: F128,
    groups: nat,
    g: int,
    j: int,
)
    requires
        0 <= g < groups,
        0 <= j < pow2(circuit.cells.nu as nat),
    ensures
        ({
            let rows = pow2(circuit.cells.nu as nat);
            let all = leaves(side, circuit, packed, public, alpha, beta, groups);
            let live = g < side.len() && match side[g] {
                ChannelSource::Gate { ty, words } => j < circuit.counts@[ty as int],
                ChannelSource::Public { words } => j == 0,
            };
            &&& all.len() == rows * groups
            &&& all[rows * g + j] == if live {
                fingerprint(side[g].tuple(circuit, packed, public, j), alpha, beta)
            } else {
                F128::one()
            }
        }),
{
    let rows = pow2(circuit.cells.nu as nat);
    let x = rows * g + j;
    assert(x / (rows as int) == g && x % (rows as int) == j && 0 <= x < rows * groups)
        by (nonlinear_arith)
        requires
            x == rows * g + j,
            0 <= j < rows,
            0 <= g < groups,
    ;
}

/// Entry `b` of the Boolean point of index `i` is bit `b` of `i`.
pub proof fn lemma_boolean_point_bits(i: nat, n: nat, b: int)
    requires
        0 <= b < n,
    ensures
        boolean_point(i, n).len() == n,
        boolean_point(i, n)[b] == if (i / pow2(b as nat)) % 2 == 1 {
            F128::one()
        } else {
            F128::zero()
        },
    decreases n,
{
    lemma_boolean_point_len(i, n);
    if b == 0 {
        lemma2_to64();
    } else {
        lemma_boolean_point_bits(i / 2, (n - 1) as nat, b - 1);
        lemma_pow2_unfold(b as nat);
        lemma_pow2_pos((b - 1) as nat);
        vstd::arithmetic::div_mod::lemma_div_denominator(
            i as int,
            2,
            pow2((b - 1) as nat) as int,
        );
        assert(boolean_point(i, n)[b] == boolean_point(i / 2, (n - 1) as nat)[b - 1]);
    }
}

proof fn lemma_boolean_point_len(i: nat, n: nat)
    ensures
        boolean_point(i, n).len() == n,
    decreases n,
{
    if n > 0 {
        lemma_boolean_point_len(i / 2, (n - 1) as nat);
    }
}

/// The claim points and the folds of two runs of sources, one after the other.
/// A public source has none.
pub proof fn lemma_claims_line_up(
    side: Seq<ChannelSource>,
    more: Seq<ChannelSource>,
    circuit: Circuit,
    packed: Seq<F128>,
    row: Seq<F128>,
)
    ensures
        side_claim_points(side + more, circuit, row) == side_claim_points(side, circuit, row)
            + side_claim_points(more, circuit, row),
        side_gathered(side + more, circuit, packed, row) == side_gathered(
            side,
            circuit,
            packed,
            row,
        ) + side_gathered(more, circuit, packed, row),
    decreases more.len(),
{
    let (points, folds) = (
        side_claim_points(side, circuit, row),
        side_gathered(side, circuit, packed, row),
    );
    if more.len() == 0 {
        assert(side + more =~= side);
        assert(points + side_claim_points(more, circuit, row) =~= points);
        assert(folds + side_gathered(more, circuit, packed, row) =~= folds);
    } else {
        let rest = more.drop_last();
        lemma_claims_line_up(side, rest, circuit, packed, row);
        assert((side + more).drop_last() =~= side + rest);
        let p = more.last().claim_points(circuit, row);
        let q = side_claim_points(rest, circuit, row);
        assert((points + q) + p =~= points + (q + p));
        let s = more.last().gathered(circuit, packed, row);
        let t = side_gathered(rest, circuit, packed, row);
        assert((folds + t) + s =~= folds + (t + s));
    }
}

/// The claim point of word `k` of a gate source: the row coordinates, then, one
/// by one, the bits of the column of the first gate slot with that word, lowest
/// first. The fold is the sum of the column's declared rows, each weighted with
/// the equality polynomial at its index.
pub proof fn lemma_claims_of_a_source(
    source: ChannelSource,
    circuit: Circuit,
    packed: Seq<F128>,
    row: Seq<F128>,
    k: int,
    i: int,
    b: int,
)
    requires
        circuit.wf(),
        source matches ChannelSource::Gate { ty, words } && 0 <= k < words@.len() && first_slot(
            circuit,
            ty,
            words@[k],
            i,
        ),
        row.len() == circuit.cells.nu,
        circuit.cells.nu <= b < circuit.cells.vars,
    ensures
        ({
            let points = side_claim_points(seq![source], circuit, row);
            let folds = side_gathered(seq![source], circuit, packed, row);
            let column = circuit.cells.columns@[i] as nat;
            let rows = pow2(circuit.cells.nu as nat);
            let declared = circuit.counts@[source->ty as int];
            let terms = |j: int| eq(row, j) * packed[column * rows + j];
            &&& points.len() == source->Gate_words@.len()
            &&& folds.len() == source->Gate_words@.len()
            &&& points[k].len() == circuit.cells.vars
            &&& points[k].take(circuit.cells.nu as int) == row
            &&& points[k][b] == if (column / pow2((b - circuit.cells.nu) as nat)) % 2 == 1 {
                F128::one()
            } else {
                F128::zero()
            }
            &&& declared <= rows ==> folds[k] == sum(terms, declared as nat)
            &&& declared > rows ==> folds[k] == sum(terms, rows)
        }),
{
    let cells = circuit.cells;
    let (ty, words) = (source->ty, source->Gate_words);
    lemma_slot_is_the_first(cells, ty, words@[k]);
    let found = cells.slot_of(ty, words@[k])->0;
    assert(cells.slots@[i] == (CellSlot::Gate { ty, word: words@[k] }));
    assert(cells.slots@[found] == (CellSlot::Gate { ty, word: words@[k] }));
    assert(found == i);
    let none = seq![source].drop_last();
    assert(side_claim_points(none, circuit, row).len() == 0);
    assert(side_gathered(none, circuit, packed, row).len() == 0);
    assert(side_claim_points(seq![source], circuit, row) =~= source.claim_points(circuit, row));
    assert(side_gathered(seq![source], circuit, packed, row) =~= source.gathered(
        circuit,
        packed,
        row,
    ));
    let width = (cells.vars - cells.nu) as nat;
    lemma_boolean_point_bits(cells.columns@[i] as nat, width, b - cells.nu);
    let point = side_claim_points(seq![source], circuit, row)[k];
    assert(point.take(cells.nu as int) =~= row);
}

} // verus!
