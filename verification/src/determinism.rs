//! What a prover reads determines what it sends.
//!
//! Dead rows, words that the spec does not name and the memory that a prover
//! works in have no influence: without grinding, two runs from the same
//! challenger over buffers and public segments that agree in what the spec names
//! return the same.

use crate::challenger::{BatchedGrinding, Event, Oracle};
use crate::channel::{ChannelChallenge, ChannelOutput, ChannelProof, ChannelSource, ChannelSpec};
use crate::circuit::Circuit;
use crate::field::F128;
use crate::fingerprint_challenge::{channel_challenge, fingerprint_bits};
use crate::multilinear::eq;
use crate::pcs::PackedDirectClaim;
use crate::product_gkr::{lemma_honest_products_agree, plain_verdict, same_product};
use crate::prove::honest_run;
use crate::sums::lemma_sum_congruent;
use crate::tuples::{leaves, side_gathered, side_tuples, word_base};
use vstd::arithmetic::power2::lemma_pow2_pos;
use vstd::prelude::*;

verus! {

/// Two buffers hold the same in the live rows of a gate source, or two public
/// segments the same words of a public source.
pub open spec fn same_words(
    source: ChannelSource,
    circuit: Circuit,
    packed: Seq<F128>,
    public: Seq<F128>,
    other_packed: Seq<F128>,
    other_public: Seq<F128>,
) -> bool {
    match source {
        ChannelSource::Gate { ty, words } => forall|k: int, j: int|
            0 <= k < words@.len() && 0 <= j < source.live_rows(circuit) ==> packed[word_base(
                circuit.cells,
                ty,
                words@[k],
            ) + j] == #[trigger] other_packed[word_base(circuit.cells, ty, words@[k]) + j],
        ChannelSource::Public { words } => forall|k: int|
            0 <= k < words@.len() ==> public[(#[trigger] words@[k]) as int]
                == other_public[words@[k] as int],
    }
}

/// The sources of a side name the same words.
pub open spec fn same_side(
    side: Seq<ChannelSource>,
    circuit: Circuit,
    packed: Seq<F128>,
    public: Seq<F128>,
    other_packed: Seq<F128>,
    other_public: Seq<F128>,
) -> bool {
    forall|g: int|
        0 <= g < side.len() ==> same_words(
            #[trigger] side[g],
            circuit,
            packed,
            public,
            other_packed,
            other_public,
        )
}

/// Two buffers and two public segments agree in everything that a channel
/// names: the live rows of its words, its public words and its challenge.
pub open spec fn same_reads(
    spec: ChannelSpec,
    circuit: Circuit,
    packed: Seq<F128>,
    public: Seq<F128>,
    other_packed: Seq<F128>,
    other_public: Seq<F128>,
) -> bool {
    &&& same_side(spec.lhs@, circuit, packed, public, other_packed, other_public)
    &&& same_side(spec.rhs@, circuit, packed, public, other_packed, other_public)
    &&& spec.challenge matches ChannelChallenge::Public { alpha, beta } ==> public[alpha as int]
        == other_public[alpha as int] && public[beta as int] == other_public[beta as int]
}

/// A source that names the same words has the same tuples in its live rows.
proof fn lemma_same_tuple(
    source: ChannelSource,
    circuit: Circuit,
    packed: Seq<F128>,
    public: Seq<F128>,
    other_packed: Seq<F128>,
    other_public: Seq<F128>,
    row: int,
)
    requires
        same_words(source, circuit, packed, public, other_packed, other_public),
        0 <= row < source.live_rows(circuit),
    ensures
        source.tuple(circuit, packed, public, row) == source.tuple(
            circuit,
            other_packed,
            other_public,
            row,
        ),
{
    assert(source.tuple(circuit, packed, public, row) =~= source.tuple(
        circuit,
        other_packed,
        other_public,
        row,
    ));
}

/// Only what is named counts: buffers that hold the same in the live rows of a
/// side, with public segments that hold the same words of it, give it the same
/// tuples and the same folded columns.
pub proof fn lemma_dead_rows_do_not_count(
    side: Seq<ChannelSource>,
    circuit: Circuit,
    packed: Seq<F128>,
    public: Seq<F128>,
    other_packed: Seq<F128>,
    other_public: Seq<F128>,
    row: Seq<F128>,
)
    requires
        same_side(side, circuit, packed, public, other_packed, other_public),
    ensures
        side_tuples(side, circuit, packed, public) == side_tuples(
            side,
            circuit,
            other_packed,
            other_public,
        ),
        side_gathered(side, circuit, packed, row) == side_gathered(
            side,
            circuit,
            other_packed,
            row,
        ),
    decreases side.len(),
{
    if side.len() > 0 {
        let rest = side.drop_last();
        assert forall|g: int| 0 <= g < rest.len() implies same_words(
            #[trigger] rest[g],
            circuit,
            packed,
            public,
            other_packed,
            other_public,
        ) by {
            assert(rest[g] == side[g]);
        }
        lemma_dead_rows_do_not_count(
            rest,
            circuit,
            packed,
            public,
            other_packed,
            other_public,
            row,
        );
        let source = side[side.len() - 1];
        let (ours, theirs) = (
            source.tuples(circuit, packed, public),
            source.tuples(circuit, other_packed, other_public),
        );
        assert forall|j: int| 0 <= j < source.live_rows(circuit) implies #[trigger] ours[j]
            == theirs[j] by {
            lemma_same_tuple(
                source,
                circuit,
                packed,
                public,
                other_packed,
                other_public,
                j,
            );
        }
        assert(ours =~= theirs);
        let (folds, others) = (
            source.gathered(circuit, packed, row),
            source.gathered(circuit, other_packed, row),
        );
        if let ChannelSource::Gate { ty, words } = source {
            assert forall|k: int| 0 <= k < words@.len() implies #[trigger] folds[k] == others[k] by {
                let base = word_base(circuit.cells, ty, words@[k]);
                lemma_sum_congruent(
                    |j: int| eq(row, j) * packed[base + j],
                    |j: int| eq(row, j) * other_packed[base + j],
                    source.live_rows(circuit),
                );
            }
        }
        assert(folds =~= others);
    }
}

/// Sides that name the same words have the same leaves.
proof fn lemma_same_leaves(
    side: Seq<ChannelSource>,
    circuit: Circuit,
    packed: Seq<F128>,
    public: Seq<F128>,
    other_packed: Seq<F128>,
    other_public: Seq<F128>,
    alpha: F128,
    beta: F128,
    groups: nat,
)
    requires
        same_side(side, circuit, packed, public, other_packed, other_public),
    ensures
        leaves(side, circuit, packed, public, alpha, beta, groups) == leaves(
            side,
            circuit,
            other_packed,
            other_public,
            alpha,
            beta,
            groups,
        ),
{
    let rows = circuit.cells.rows();
    lemma_pow2_pos(circuit.cells.nu as nat);
    let (ours, theirs) = (
        leaves(side, circuit, packed, public, alpha, beta, groups),
        leaves(side, circuit, other_packed, other_public, alpha, beta, groups),
    );
    assert forall|x: int| 0 <= x < rows * groups implies #[trigger] ours[x] == theirs[x] by {
        let (g, j) = (x / (rows as int), x % (rows as int));
        assert(g >= 0 && j >= 0) by (nonlinear_arith)
            requires
                g == x / (rows as int),
                j == x % (rows as int),
                x >= 0,
                rows > 0,
        ;
        if g < side.len() && j < side[g].live_rows(circuit) {
            lemma_same_tuple(
                side[g],
                circuit,
                packed,
                public,
                other_packed,
                other_public,
                j,
            );
        }
    }
    assert(ours =~= theirs);
}

/// Two proofs hold the same.
pub open spec fn same_proof(ours: ChannelProof, theirs: ChannelProof) -> bool {
    &&& ours.alpha_nonce == theirs.alpha_nonce
    &&& same_product(ours.gkr, theirs.gkr)
    &&& ours.gather@ == theirs.gather@
}

/// Two lists of claims hold the same.
pub open spec fn same_claims(
    ours: Seq<PackedDirectClaim>,
    theirs: Seq<PackedDirectClaim>,
) -> bool {
    &&& ours.len() == theirs.len()
    &&& forall|i: int|
        0 <= i < ours.len() ==> {
            &&& (#[trigger] ours[i]).value == theirs[i].value
            &&& ours[i].point@ == theirs[i].point@
            &&& ours[i].eq_ind->EqPoint_0@ == theirs[i].eq_ind->EqPoint_0@
        }
}

/// Without grinding, two runs of the prover from challengers in the same state,
/// over buffers and public segments that agree in what the channel names,
/// return the same proof, the same claims and the same output, and leave the
/// challengers in the same state.
pub proof fn lemma_reads_determine_the_proof(
    circuit: Circuit,
    spec: ChannelSpec,
    grinding: BatchedGrinding,
    oracle: Oracle,
    transcript: Seq<Event>,
    packed: Seq<F128>,
    public: Seq<F128>,
    proof: ChannelProof,
    claims: Seq<PackedDirectClaim>,
    output: ChannelOutput,
    after: Seq<Event>,
    other_packed: Seq<F128>,
    other_public: Seq<F128>,
    other_proof: ChannelProof,
    other_claims: Seq<PackedDirectClaim>,
    other_output: ChannelOutput,
    other_after: Seq<Event>,
)
    requires
        grinding.round_bits == 0,
        spec.challenge == ChannelChallenge::Sampled ==> fingerprint_bits(spec, circuit, grinding)
            == 0,
        same_reads(spec, circuit, packed, public, other_packed, other_public),
        honest_run(
            circuit,
            packed,
            public,
            spec,
            grinding,
            oracle,
            transcript,
            proof,
            claims,
            output,
            after,
        ),
        honest_run(
            circuit,
            other_packed,
            other_public,
            spec,
            grinding,
            oracle,
            transcript,
            other_proof,
            other_claims,
            other_output,
            other_after,
        ),
    ensures
        same_proof(proof, other_proof),
        same_claims(claims, other_claims),
        output == other_output,
        after == other_after,
{
    let bits = fingerprint_bits(spec, circuit, grinding);
    let groups = spec.spec_groups();
    let mu = spec.spec_mu(circuit.cells.nu as nat);
    let (alpha, beta, challenged) = channel_challenge(
        oracle,
        transcript,
        spec.challenge,
        public,
        bits,
        proof.alpha_nonce,
    )->0;
    assert(channel_challenge(
        oracle,
        transcript,
        spec.challenge,
        other_public,
        bits,
        other_proof.alpha_nonce,
    ) == Some((alpha, beta, challenged)));
    let none = Seq::<F128>::empty();
    lemma_dead_rows_do_not_count(
        spec.lhs@,
        circuit,
        packed,
        public,
        other_packed,
        other_public,
        none,
    );
    lemma_dead_rows_do_not_count(
        spec.rhs@,
        circuit,
        packed,
        public,
        other_packed,
        other_public,
        none,
    );
    lemma_same_leaves(
        spec.lhs@,
        circuit,
        packed,
        public,
        other_packed,
        other_public,
        alpha,
        beta,
        groups,
    );
    lemma_same_leaves(
        spec.rhs@,
        circuit,
        packed,
        public,
        other_packed,
        other_public,
        alpha,
        beta,
        groups,
    );
    lemma_honest_products_agree(
        oracle,
        proof.gkr,
        other_proof.gkr,
        leaves(spec.lhs@, circuit, packed, public, alpha, beta, groups),
        leaves(spec.rhs@, circuit, packed, public, alpha, beta, groups),
        mu,
        challenged,
    );
    let state = plain_verdict(oracle, 0, mu, proof.gkr, challenged)->Ok_0;
    let row = state.point.take(circuit.cells.nu as int);
    lemma_dead_rows_do_not_count(
        spec.lhs@,
        circuit,
        packed,
        public,
        other_packed,
        other_public,
        row,
    );
    lemma_dead_rows_do_not_count(
        spec.rhs@,
        circuit,
        packed,
        public,
        other_packed,
        other_public,
        row,
    );
}

} // verus!
