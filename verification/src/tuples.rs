//! The tuples of a channel, their fingerprints and what they fold to.

use crate::channel::{side_columns, ChannelSource};
use crate::circuit::{CellSpace, Circuit, IoWord};
use crate::field::F128;
use crate::multilinear::{eq, live_weight};
use crate::sums::{power, product, sum};
use vstd::prelude::*;

verus! {

/// `sum_k alpha^k t[k]`.
pub open spec fn weighted(t: Seq<F128>, alpha: F128) -> F128 {
    sum(|k: int| power(alpha, k as nat) * t[k], t.len())
}

/// The fingerprint of a tuple: `beta + sum_k alpha^k t[k]`.
pub open spec fn fingerprint(t: Seq<F128>, alpha: F128, beta: F128) -> F128 {
    beta + weighted(t, alpha)
}

/// The fingerprints of tuples, in order.
pub open spec fn fingerprints(tuples: Seq<Seq<F128>>, alpha: F128, beta: F128) -> Seq<F128> {
    Seq::new(tuples.len(), |i: int| fingerprint(tuples[i], alpha, beta))
}

/// The product of the fingerprints of tuples.
pub open spec fn grand_product(tuples: Seq<Seq<F128>>, alpha: F128, beta: F128) -> F128 {
    product(fingerprints(tuples, alpha, beta))
}

/// The address of the first row of a word that the circuit has.
pub open spec fn word_base(cells: CellSpace, ty: usize, word: IoWord) -> int {
    cells.base(cells.slot_of(ty, word)->0)
}

/// The words of a gate row.
pub open spec fn gate_tuple(
    cells: CellSpace,
    packed: Seq<F128>,
    ty: usize,
    words: Seq<IoWord>,
    row: int,
) -> Seq<F128> {
    Seq::new(words.len(), |k: int| packed[word_base(cells, ty, words[k]) + row])
}

/// The listed public words.
pub open spec fn public_tuple(public: Seq<F128>, words: Seq<usize>) -> Seq<F128> {
    Seq::new(words.len(), |k: int| public[words[k] as int])
}

impl ChannelSource {
    /// The tuple in a live row.
    pub open spec fn tuple(
        self,
        circuit: Circuit,
        packed: Seq<F128>,
        public: Seq<F128>,
        row: int,
    ) -> Seq<F128> {
        match self {
            ChannelSource::Gate { ty, words } => gate_tuple(
                circuit.cells,
                packed,
                ty,
                words@,
                row,
            ),
            ChannelSource::Public { words } => public_tuple(public, words@),
        }
    }

    /// The tuples of the live rows.
    pub open spec fn tuples(
        self,
        circuit: Circuit,
        packed: Seq<F128>,
        public: Seq<F128>,
    ) -> Seq<Seq<F128>> {
        Seq::new(
            self.live_rows(circuit),
            |row: int| self.tuple(circuit, packed, public, row),
        )
    }

    /// The committed buffer holds the live rows of every word, where there are
    /// any.
    pub open spec fn covered(self, circuit: Circuit, packed: Seq<F128>) -> bool {
        match self {
            ChannelSource::Gate { ty, words } => self.live_rows(circuit) > 0 ==> forall|k: int|
                0 <= k < words@.len() ==> word_base(circuit.cells, ty, #[trigger] words@[k])
                    + self.live_rows(circuit) <= packed.len(),
            ChannelSource::Public { words } => true,
        }
    }

    /// Its gate columns, each folded over its live rows with the weights of a
    /// row point.
    pub open spec fn gathered(
        self,
        circuit: Circuit,
        packed: Seq<F128>,
        row: Seq<F128>,
    ) -> Seq<F128> {
        match self {
            ChannelSource::Gate { ty, words } => Seq::new(
                words@.len(),
                |k: int|
                    column_fold(
                        packed,
                        word_base(circuit.cells, ty, words@[k]),
                        self.live_rows(circuit),
                        row,
                    ),
            ),
            ChannelSource::Public { words } => Seq::empty(),
        }
    }

    /// The points of the committed buffer that stand for its gate columns at a
    /// row point.
    pub open spec fn claim_points(self, circuit: Circuit, row: Seq<F128>) -> Seq<Seq<F128>> {
        match self {
            ChannelSource::Gate { ty, words } => Seq::new(
                words@.len(),
                |k: int| circuit.cells.claim_point(circuit.cells.slot_of(ty, words@[k])->0, row),
            ),
            ChannelSource::Public { words } => Seq::empty(),
        }
    }

    /// What the tuples fold to, without `beta`: the weighted folds of its gate
    /// columns, or the public tuple with the weight of the first row.
    pub open spec fn folded(
        self,
        public: Seq<F128>,
        values: Seq<F128>,
        alpha: F128,
        row: Seq<F128>,
    ) -> F128 {
        match self {
            ChannelSource::Gate { ty, words } => weighted(values, alpha),
            ChannelSource::Public { words } => weighted(public_tuple(public, words@), alpha) * eq(
                row,
                0,
            ),
        }
    }
}

/// The fold of the first `len` rows of the column at `base` with the weights of
/// a row point.
pub open spec fn column_fold(packed: Seq<F128>, base: int, len: nat, row: Seq<F128>) -> F128 {
    sum(|j: int| eq(row, j) * packed[base + j], len)
}

/// The tuples of a side, source by source.
pub open spec fn side_tuples(
    side: Seq<ChannelSource>,
    circuit: Circuit,
    packed: Seq<F128>,
    public: Seq<F128>,
) -> Seq<Seq<F128>>
    decreases side.len(),
{
    if side.len() == 0 {
        Seq::empty()
    } else {
        side_tuples(side.drop_last(), circuit, packed, public) + side.last().tuples(
            circuit,
            packed,
            public,
        )
    }
}

/// The folded gate columns of a side, source by source.
pub open spec fn side_gathered(
    side: Seq<ChannelSource>,
    circuit: Circuit,
    packed: Seq<F128>,
    row: Seq<F128>,
) -> Seq<F128>
    decreases side.len(),
{
    if side.len() == 0 {
        Seq::empty()
    } else {
        side_gathered(side.drop_last(), circuit, packed, row) + side.last().gathered(
            circuit,
            packed,
            row,
        )
    }
}

/// The claim points of a side, source by source.
pub open spec fn side_claim_points(
    side: Seq<ChannelSource>,
    circuit: Circuit,
    row: Seq<F128>,
) -> Seq<Seq<F128>>
    decreases side.len(),
{
    if side.len() == 0 {
        Seq::empty()
    } else {
        side_claim_points(side.drop_last(), circuit, row) + side.last().claim_points(circuit, row)
    }
}

/// The committed buffer holds the live rows of every word of a side.
pub open spec fn side_covered(
    side: Seq<ChannelSource>,
    circuit: Circuit,
    packed: Seq<F128>,
) -> bool {
    forall|g: int| 0 <= g < side.len() ==> (#[trigger] side[g]).covered(circuit, packed)
}

/// The leaf in row `row` of group `group`: a fingerprint if the row is live,
/// else one.
pub open spec fn leaf(
    side: Seq<ChannelSource>,
    circuit: Circuit,
    packed: Seq<F128>,
    public: Seq<F128>,
    alpha: F128,
    beta: F128,
    group: int,
    row: int,
) -> F128 {
    if group < side.len() && row < side[group].live_rows(circuit) {
        fingerprint(side[group].tuple(circuit, packed, public, row), alpha, beta)
    } else {
        F128::one()
    }
}

/// The leaves of `groups` groups of a side.
pub open spec fn leaves(
    side: Seq<ChannelSource>,
    circuit: Circuit,
    packed: Seq<F128>,
    public: Seq<F128>,
    alpha: F128,
    beta: F128,
    groups: nat,
) -> Seq<F128> {
    let rows = circuit.cells.rows();
    Seq::new(
        rows * groups,
        |x: int|
            leaf(side, circuit, packed, public, alpha, beta, x / (rows as int), x % (rows as int)),
    )
}

/// The values of source `g` among those of its side's gate columns.
pub open spec fn source_values(side: Seq<ChannelSource>, values: Seq<F128>, g: int) -> Seq<F128> {
    values.subrange(
        side_columns(side.take(g)) as int,
        (side_columns(side.take(g)) + side[g].gate_columns()) as int,
    )
}

/// The leaf evaluation that the values of a side's gate columns stand for:
/// `(beta + 1) live(rho) + 1 + sum_g eq(rho_group, g) folded(g)`.
pub open spec fn recombined(
    side: Seq<ChannelSource>,
    lens: Seq<usize>,
    public: Seq<F128>,
    values: Seq<F128>,
    alpha: F128,
    beta: F128,
    row: Seq<F128>,
    group: Seq<F128>,
) -> F128 {
    ((beta + F128::one()) * live_weight(lens, row, group) + F128::one()) + sum(
        |g: int|
            eq(group, g) * side[g].folded(public, source_values(side, values, g), alpha, row),
        side.len(),
    )
}

/// There is a claim point for each gate column.
pub proof fn lemma_claim_points_count(
    side: Seq<ChannelSource>,
    circuit: Circuit,
    row: Seq<F128>,
)
    ensures
        side_claim_points(side, circuit, row).len() == side_columns(side),
    decreases side.len(),
{
    if side.len() > 0 {
        lemma_claim_points_count(side.drop_last(), circuit, row);
    }
}

} // verus!
