//! What a channel's products say of its tuples.

use crate::challenger::{BatchedGrinding, Event, Oracle};
use crate::channel::{
    side_columns, side_fits, side_live, ChannelBalance, ChannelChallenge, ChannelError,
    ChannelProof, ChannelSource, ChannelSpec,
};
use crate::circuit::{lemma_claim_point, lemma_find_slot, Circuit};
use crate::collisions::{
    all_padded, collisions, lemma_by_values, lemma_different_multisets_rarely_collide,
    lemma_product_remove, lemma_remove_common, longer, shifted, values, width_at_most,
};
use crate::field::{lemma_add_zero, lemma_mul_commutes, lemma_mul_zero, F128};
use crate::fingerprint_challenge::fingerprint_bits;
use crate::inverse::lemma_mul_cancels;
use crate::multilinear::{eq, mle};
use crate::pcs::{claims_up, pairs_up, PackedDirectClaim};
use crate::recombination::lemma_gathered_count;
use crate::sums::{lemma_sum_splits, lemma_sum_zero, product, sum};
use crate::tuples::{
    column_fold, fingerprint, fingerprints, grand_product, lemma_claim_points_count,
    side_claim_points, side_gathered, side_tuples, word_base,
};
use crate::verify::{channel_claim_points, channel_verdict, Accepted};
use vstd::arithmetic::power2::pow2;
use vstd::prelude::*;

verus! {

/// Products over values with the same multiset are equal.
proof fn lemma_product_of_multiset(left: Seq<F128>, right: Seq<F128>)
    requires
        left.to_multiset() == right.to_multiset(),
    ensures
        product(left) == product(right),
    decreases left.len(),
{
    left.to_multiset_ensures();
    right.to_multiset_ensures();
    if left.len() == 0 {
        assert(left =~= right);
    } else {
        let a = left[0];
        assert(left.contains(a));
        assert(left.to_multiset().count(a) > 0);
        assert(right.contains(a));
        let j = right.index_of(a);
        lemma_remove_common(left, right, 0, j);
        lemma_product_of_multiset(left.remove(0), right.remove(j));
        lemma_product_remove(left, 0);
        lemma_product_remove(right, j);
    }
}

/// The values that a function gives to two sequences with the same multiset
/// have the same multiset.
proof fn lemma_map_multiset<A, B>(left: Seq<A>, right: Seq<A>, f: spec_fn(A) -> B)
    requires
        left.to_multiset() == right.to_multiset(),
    ensures
        left.map_values(f).to_multiset() == right.map_values(f).to_multiset(),
    decreases left.len(),
{
    left.to_multiset_ensures();
    right.to_multiset_ensures();
    if left.len() == 0 {
        assert(left.map_values(f) =~= right.map_values(f));
    } else {
        let a = left[0];
        assert(left.contains(a));
        assert(left.to_multiset().count(a) > 0);
        assert(right.contains(a));
        let j = right.index_of(a);
        lemma_remove_common(left, right, 0, j);
        lemma_map_multiset(left.remove(0), right.remove(j), f);
        assert(left.remove(0).map_values(f) =~= left.map_values(f).remove(0));
        assert(right.remove(j).map_values(f) =~= right.map_values(f).remove(j));
        lemma_remove_common(left.map_values(f), right.map_values(f), 0, j);
    }
}

/// Pushes that equal the pulls as multisets, in whatever order, have the same
/// product at every challenge.
pub proof fn lemma_equal_multisets_balance(
    left: Seq<Seq<F128>>,
    right: Seq<Seq<F128>>,
    alpha: F128,
    beta: F128,
)
    requires
        left.to_multiset() == right.to_multiset(),
    ensures
        grand_product(left, alpha, beta) == grand_product(right, alpha, beta),
{
    let f = |t: Seq<F128>| fingerprint(t, alpha, beta);
    lemma_map_multiset(left, right, f);
    assert(left.map_values(f) =~= fingerprints(left, alpha, beta));
    assert(right.map_values(f) =~= fingerprints(right, alpha, beta));
    lemma_product_of_multiset(fingerprints(left, alpha, beta), fingerprints(right, alpha, beta));
}

/// Tuples that differ only in zeros at their ends have the same product at
/// every challenge.
pub proof fn lemma_padded_multisets_balance(
    left: Seq<Seq<F128>>,
    right: Seq<Seq<F128>>,
    width: nat,
    alpha: F128,
    beta: F128,
)
    requires
        width_at_most(left, width),
        width_at_most(right, width),
        all_padded(left, width).to_multiset() == all_padded(right, width).to_multiset(),
    ensures
        grand_product(left, alpha, beta) == grand_product(right, alpha, beta),
{
    let (l, r) = (all_padded(left, width), all_padded(right, width));
    lemma_by_values(left, width, alpha, beta);
    lemma_by_values(right, width, alpha, beta);
    let f = |t: Seq<F128>| fingerprint(t, alpha, beta);
    lemma_map_multiset(l, r, f);
    let (lv, rv) = (shifted(values(l, alpha), beta), shifted(values(r, alpha), beta));
    assert(l.map_values(f) =~= lv);
    assert(r.map_values(f) =~= rv);
    lemma_product_of_multiset(lv, rv);
}

/// A disabled row pushes and pulls the same tuple, and so cancels: it changes
/// neither whether the multisets are equal nor, where its fingerprint is not
/// zero, whether the products are.
pub proof fn lemma_pushed_and_pulled_cancels(
    left: Seq<Seq<F128>>,
    right: Seq<Seq<F128>>,
    t: Seq<F128>,
    alpha: F128,
    beta: F128,
)
    ensures
        left.push(t).to_multiset() == right.push(t).to_multiset() <==> left.to_multiset()
            == right.to_multiset(),
        grand_product(left, alpha, beta) == grand_product(right, alpha, beta) ==> grand_product(
            left.push(t),
            alpha,
            beta,
        ) == grand_product(right.push(t), alpha, beta),
        fingerprint(t, alpha, beta) != F128::zero() && grand_product(left.push(t), alpha, beta)
            == grand_product(right.push(t), alpha, beta) ==> grand_product(left, alpha, beta)
            == grand_product(right, alpha, beta),
{
    let (l, r) = (left.push(t), right.push(t));
    lemma_remove_common(l, r, left.len() as int, right.len() as int);
    assert(l.remove(left.len() as int) =~= left);
    assert(r.remove(right.len() as int) =~= right);
    assert(fingerprints(l, alpha, beta).drop_last() =~= fingerprints(left, alpha, beta));
    assert(fingerprints(r, alpha, beta).drop_last() =~= fingerprints(right, alpha, beta));
    let fp = fingerprint(t, alpha, beta);
    let (p, q) = (grand_product(left, alpha, beta), grand_product(right, alpha, beta));
    lemma_mul_commutes(p, fp);
    lemma_mul_commutes(q, fp);
    if fp != F128::zero() && p * fp == q * fp {
        lemma_mul_cancels(fp, p, q);
    }
}

/// A side has as many tuples as its sources have live rows.
pub proof fn lemma_side_tuples_count(
    side: Seq<ChannelSource>,
    circuit: Circuit,
    packed: Seq<F128>,
    public: Seq<F128>,
)
    ensures
        side_tuples(side, circuit, packed, public).len() == side_live(side, circuit),
    decreases side.len(),
{
    if side.len() > 0 {
        lemma_side_tuples_count(side.drop_last(), circuit, packed, public);
    }
}

/// The sources of a side have at most the given width.
pub open spec fn side_width_at_most(side: Seq<ChannelSource>, width: nat) -> bool {
    forall|g: int| 0 <= g < side.len() ==> (#[trigger] side[g]).spec_width() <= width
}

/// The tuples of a side are no wider than its sources.
proof fn lemma_side_tuples_width(
    side: Seq<ChannelSource>,
    circuit: Circuit,
    packed: Seq<F128>,
    public: Seq<F128>,
    width: nat,
)
    requires
        side_width_at_most(side, width),
    ensures
        width_at_most(side_tuples(side, circuit, packed, public), width),
    decreases side.len(),
{
    if side.len() > 0 {
        let rest = side.drop_last();
        assert forall|g: int| 0 <= g < rest.len() implies (#[trigger] rest[g]).spec_width()
            <= width by {
            assert(rest[g] == side[g]);
        }
        lemma_side_tuples_width(rest, circuit, packed, public, width);
        let own = side.last().tuples(circuit, packed, public);
        assert(side[side.len() - 1].spec_width() <= width);
        assert forall|i: int| 0 <= i < own.len() implies (#[trigger] own[i]).len() <= width by {}
        let before = side_tuples(rest, circuit, packed, public);
        let all = side_tuples(side, circuit, packed, public);
        assert forall|i: int| 0 <= i < all.len() implies (#[trigger] all[i]).len() <= width by {
            if i < before.len() {
                assert(all[i] == before[i]);
            } else {
                assert(all[i] == own[i - before.len()]);
            }
        }
    }
}

/// The products of a channel whose sides are different multisets of tuples of
/// width at most `width` agree at no more than `n width 2^128` of the `2^256`
/// challenges, where `n` is the number of tuples of the larger side.
pub proof fn lemma_unbalanced_channel_rarely_agrees(
    spec: ChannelSpec,
    circuit: Circuit,
    packed: Seq<F128>,
    public: Seq<F128>,
    width: nat,
)
    requires
        width >= 1,
        side_width_at_most(spec.lhs@, width),
        side_width_at_most(spec.rhs@, width),
        all_padded(side_tuples(spec.lhs@, circuit, packed, public), width).to_multiset()
            != all_padded(side_tuples(spec.rhs@, circuit, packed, public), width).to_multiset(),
    ensures
        ({
            let agreeing = collisions(
                side_tuples(spec.lhs@, circuit, packed, public),
                side_tuples(spec.rhs@, circuit, packed, public),
            );
            &&& agreeing.finite()
            &&& agreeing.len() <= longer(
                side_live(spec.lhs@, circuit),
                side_live(spec.rhs@, circuit),
            ) * width * pow2(128)
        }),
{
    lemma_side_tuples_count(spec.lhs@, circuit, packed, public);
    lemma_side_tuples_count(spec.rhs@, circuit, packed, public);
    lemma_side_tuples_width(spec.lhs@, circuit, packed, public, width);
    lemma_side_tuples_width(spec.rhs@, circuit, packed, public, width);
    lemma_different_multisets_rarely_collide(
        side_tuples(spec.lhs@, circuit, packed, public),
        side_tuples(spec.rhs@, circuit, packed, public),
        width,
    );
}

/// The rows of a source beyond its live ones are zero in the buffer.
pub open spec fn dead_rows_zero(
    source: ChannelSource,
    circuit: Circuit,
    packed: Seq<F128>,
) -> bool {
    match source {
        ChannelSource::Gate { ty, words } => forall|k: int, j: int|
            0 <= k < words@.len() && source.live_rows(circuit) <= j < circuit.cells.rows()
                ==> #[trigger] packed[word_base(circuit.cells, ty, words@[k]) + j]
                == F128::zero(),
        ChannelSource::Public { words } => true,
    }
}

/// Gather factorization: where the dead rows are zero, the fold of a gate
/// column is the extension of the whole buffer at the column's claim point.
pub proof fn lemma_gather_factors(
    side: Seq<ChannelSource>,
    circuit: Circuit,
    packed: Seq<F128>,
    row: Seq<F128>,
)
    requires
        circuit.wf(),
        side_fits(side, circuit),
        packed.len() == pow2(circuit.cells.vars as nat),
        row.len() == circuit.cells.nu,
        forall|g: int|
            0 <= g < side.len() ==> dead_rows_zero(#[trigger] side[g], circuit, packed),
    ensures
        forall|i: int|
            0 <= i < side_columns(side) ==> #[trigger] side_gathered(side, circuit, packed, row)[i]
                == mle(packed, side_claim_points(side, circuit, row)[i]),
    decreases side.len(),
{
    if side.len() > 0 {
        let rest = side.drop_last();
        assert forall|g: int| 0 <= g < rest.len() implies dead_rows_zero(
            #[trigger] rest[g],
            circuit,
            packed,
        ) && rest[g].fits(circuit) by {
            assert(rest[g] == side[g]);
        }
        lemma_gather_factors(rest, circuit, packed, row);
        lemma_gathered_count(rest, circuit, packed, row);
        lemma_claim_points_count(rest, circuit, row);
        let source = side[side.len() - 1];
        assert(source.fits(circuit) && dead_rows_zero(source, circuit, packed));
        let (folds, points) = (
            source.gathered(circuit, packed, row),
            source.claim_points(circuit, row),
        );
        if let ChannelSource::Gate { ty, words } = source {
            assert forall|k: int| 0 <= k < words@.len() implies #[trigger] folds[k] == mle(
                packed,
                points[k],
            ) by {
                lemma_find_slot(
                    circuit.cells.slots@,
                    circuit.cells.columns@.len(),
                    ty,
                    words@[k],
                );
                let iota = circuit.cells.slot_of(ty, words@[k])->0;
                assert(circuit.cells.slot_of(ty, words@[k]) is Some);
                lemma_claim_point(circuit.cells, packed, iota, row);
                lemma_live_fold(source, circuit, packed, row, k);
            }
        }
        let (all, before) = (
            side_gathered(side, circuit, packed, row),
            side_gathered(rest, circuit, packed, row),
        );
        assert forall|i: int| 0 <= i < side_columns(side) implies #[trigger] all[i] == mle(
            packed,
            side_claim_points(side, circuit, row)[i],
        ) by {
            if i < side_columns(rest) {
                assert(all[i] == before[i]);
            } else {
                assert(all[i] == folds[i - before.len()]);
            }
        }
    }
}

/// The fold of the live rows is the fold of all rows where the others are zero.
proof fn lemma_live_fold(
    source: ChannelSource,
    circuit: Circuit,
    packed: Seq<F128>,
    row: Seq<F128>,
    k: int,
)
    requires
        dead_rows_zero(source, circuit, packed),
        source is Gate,
        0 <= k < source->Gate_words@.len(),
    ensures
        column_fold(
            packed,
            word_base(circuit.cells, source->ty, source->Gate_words@[k]),
            source.live_rows(circuit),
            row,
        ) == sum(
            |j: int|
                eq(row, j) * packed[word_base(circuit.cells, source->ty, source->Gate_words@[k])
                    + j],
            circuit.cells.rows(),
        ),
{
    let base = word_base(circuit.cells, source->ty, source->Gate_words@[k]);
    let live = source.live_rows(circuit);
    let rows = circuit.cells.rows();
    let f = |j: int| eq(row, j) * packed[base + j];
    let dead = |j: int| f(live + j);
    let rest = (rows - live) as nat;
    lemma_sum_splits(f, dead, live, rest);
    assert forall|j: int| 0 <= j < rest implies #[trigger] dead(j) == F128::zero() by {
        assert(packed[base + (live + j)] == F128::zero());
        lemma_mul_zero(eq(row, live + j));
    }
    lemma_sum_zero(dead, rest);
    lemma_add_zero(sum(f, live));
}

/// The claims of a prover hold of a buffer whose dead rows are zero.
pub proof fn lemma_claims_hold(
    spec: ChannelSpec,
    circuit: Circuit,
    packed: Seq<F128>,
    row: Seq<F128>,
    claims: Seq<PackedDirectClaim>,
)
    requires
        circuit.wf(),
        spec.fits(circuit),
        packed.len() == pow2(circuit.cells.vars as nat),
        row.len() == circuit.cells.nu,
        forall|g: int|
            0 <= g < spec.lhs@.len() ==> dead_rows_zero(#[trigger] spec.lhs@[g], circuit, packed),
        forall|g: int|
            0 <= g < spec.rhs@.len() ==> dead_rows_zero(#[trigger] spec.rhs@[g], circuit, packed),
        claims_up(
            claims,
            channel_claim_points(spec, circuit, row),
            side_gathered(spec.lhs@, circuit, packed, row) + side_gathered(
                spec.rhs@,
                circuit,
                packed,
                row,
            ),
        ),
    ensures
        forall|i: int|
            0 <= i < claims.len() ==> (#[trigger] claims[i]).value == mle(packed, claims[i].point@),
{
    lemma_gather_factors(spec.lhs@, circuit, packed, row);
    lemma_gather_factors(spec.rhs@, circuit, packed, row);
    lemma_gathered_count(spec.lhs@, circuit, packed, row);
    lemma_gathered_count(spec.rhs@, circuit, packed, row);
    lemma_claim_points_count(spec.lhs@, circuit, row);
    lemma_claim_points_count(spec.rhs@, circuit, row);
    let (left, right) = (
        side_gathered(spec.lhs@, circuit, packed, row),
        side_gathered(spec.rhs@, circuit, packed, row),
    );
    let n = side_columns(spec.lhs@);
    assert forall|i: int| 0 <= i < claims.len() implies (#[trigger] claims[i]).value == mle(
        packed,
        claims[i].point@,
    ) by {
        if i < n {
            assert(left[i] == mle(packed, side_claim_points(spec.lhs@, circuit, row)[i]));
        } else {
            assert(right[i - n] == mle(
                packed,
                side_claim_points(spec.rhs@, circuit, row)[i - n],
            ));
        }
    }
}

/// The verifier's pairs are the prover's claims, in the prover's order.
pub proof fn lemma_pairs_are_claims(
    claims: Seq<PackedDirectClaim>,
    pairs: Seq<(Vec<F128>, F128)>,
    points: Seq<Seq<F128>>,
    gather: Seq<F128>,
)
    requires
        claims_up(claims, points, gather),
        pairs_up(pairs, points, gather),
    ensures
        claims.len() == pairs.len(),
        forall|i: int|
            0 <= i < claims.len() ==> (#[trigger] claims[i]).point@ == pairs[i].0@
                && claims[i].value == pairs[i].1,
{
}

/// What acceptance says: the products are the proof's, equal where they must
/// be, and a public challenge is the public words of the verifier, with no
/// nonce. Nor does a sampled challenge have one where the policy asks for no
/// work.
pub proof fn lemma_accepted(
    circuit: Circuit,
    public: Seq<F128>,
    spec: ChannelSpec,
    proof: ChannelProof,
    grinding: BatchedGrinding,
    oracle: Oracle,
    transcript: Seq<Event>,
    accepted: Accepted,
)
    requires
        channel_verdict(circuit, public, spec, proof, grinding, oracle, transcript) == Ok::<
            Accepted,
            ChannelError,
        >(accepted),
    ensures
        accepted.output.top_lhs == proof.gkr.top_lhs,
        accepted.output.top_rhs == proof.gkr.top_rhs,
        spec.balance == ChannelBalance::Equal ==> accepted.output.top_lhs
            == accepted.output.top_rhs,
        spec.challenge matches ChannelChallenge::Public { alpha, beta } ==> accepted.output.alpha
            == public[alpha as int] && accepted.output.beta == public[beta as int]
            && proof.alpha_nonce is None,
        spec.challenge == ChannelChallenge::Sampled ==> (proof.alpha_nonce is None
            <==> fingerprint_bits(spec, circuit, grinding) == 0),
{
}

/// Verifiers with different challenge words that accept the same proof report
/// different outputs: each reports its own words.
pub proof fn lemma_outputs_report_the_challenge(
    circuit: Circuit,
    public: Seq<F128>,
    other: Seq<F128>,
    spec: ChannelSpec,
    proof: ChannelProof,
    grinding: BatchedGrinding,
    oracle: Oracle,
    transcript: Seq<Event>,
)
    requires
        spec.challenge matches ChannelChallenge::Public { alpha, beta } && (public[alpha as int],
            public[beta as int]) != (other[alpha as int], other[beta as int]),
        channel_verdict(circuit, public, spec, proof, grinding, oracle, transcript) is Ok,
    ensures
        channel_verdict(circuit, other, spec, proof, grinding, oracle, transcript) matches Ok(
            theirs,
        ) ==> theirs.output != (channel_verdict(
            circuit,
            public,
            spec,
            proof,
            grinding,
            oracle,
            transcript,
        )->Ok_0).output,
{
}

/// An exported channel never requires balance.
pub proof fn lemma_exported_is_never_unbalanced(
    circuit: Circuit,
    public: Seq<F128>,
    spec: ChannelSpec,
    proof: ChannelProof,
    grinding: BatchedGrinding,
    oracle: Oracle,
    transcript: Seq<Event>,
)
    requires
        spec.balance == ChannelBalance::Exported,
    ensures
        channel_verdict(circuit, public, spec, proof, grinding, oracle, transcript) != Err::<
            Accepted,
            ChannelError,
        >(ChannelError::Unbalanced),
{
}

} // verus!
