//! When a channel proof is rejected, in plain terms.

use crate::argument_laws::{
    challenge_events, lemma_challenge_is_absorbed, lemma_product_is_absorbed,
};
use crate::challenge_laws::{
    label, lemma_public_challenge_is_two_words, lemma_sampled_challenge_is_two_squeezes,
};
use crate::challenger::{BatchedGrinding, Event, Oracle};
use crate::channel::{
    lemma_domain, lemma_larger_side_fits, lemma_side_columns_take, side_columns, ChannelBalance, ChannelChallenge,
    ChannelError, ChannelProof, ChannelSource, ChannelSpec,
};
use crate::circuit::{lemma_sum_single, Circuit};
use crate::field::{
    lemma_add_associates, lemma_add_zero, lemma_mul_distributes, lemma_mul_zero, F128,
};
use crate::fingerprint_challenge::{channel_challenge, fingerprint_bits};
use crate::multilinear::{eq, live_weight, mle};
use crate::pcs::{claims_up, pairs_up, DirectEqInd, PackedDirectClaim};
use crate::product_gkr::{plain_verdict, GkrState, VerifyError};
use crate::recombination::{lemma_gathered_count, lemma_leaves_extend};
use crate::roots::{lemma_summed, summed};
use crate::spec_laws::lemma_columns_are_the_gate_words;
use crate::sums::{lemma_sum_adds, power, sum};
use crate::tuple_laws::lemma_claims_line_up;
use crate::tuples::{
    leaves, lemma_claim_points_count, recombined, side_claim_points, side_gathered, source_values,
    weighted,
};
use crate::verify::{channel_claim_points, channel_verdict, Accepted};
use vstd::prelude::*;

verus! {

/// Requiring balance changes one thing: where an exported channel would be
/// accepted, or its values would not recombine, and the two products differ, it
/// is unbalanced.
pub proof fn lemma_balance_is_the_only_difference(
    circuit: Circuit,
    public: Seq<F128>,
    spec: ChannelSpec,
    exported: ChannelSpec,
    proof: ChannelProof,
    grinding: BatchedGrinding,
    oracle: Oracle,
    transcript: Seq<Event>,
)
    requires
        spec.balance == ChannelBalance::Equal,
        exported.balance == ChannelBalance::Exported,
        spec.lhs == exported.lhs,
        spec.rhs == exported.rhs,
        spec.challenge == exported.challenge,
    ensures
        channel_verdict(circuit, public, spec, proof, grinding, oracle, transcript) == ({
            let plain = channel_verdict(
                circuit,
                public,
                exported,
                proof,
                grinding,
                oracle,
                transcript,
            );
            let reached = plain is Ok || plain == Err::<Accepted, ChannelError>(
                ChannelError::Recombination,
            );
            if reached && proof.gkr.top_lhs != proof.gkr.top_rhs {
                Err::<Accepted, ChannelError>(ChannelError::Unbalanced)
            } else {
                plain
            }
        }),
        channel_verdict(circuit, public, exported, proof, grinding, oracle, transcript) != Err::<
            Accepted,
            ChannelError,
        >(ChannelError::Unbalanced),
{
}

/// A spec is malformed exactly when it does not fit the circuit. A proof is
/// malformed exactly when the spec fits but the public segment does not have the
/// circuit's length, or there is not one gather value for each word of each gate
/// source.
pub proof fn lemma_malformed_channels(
    circuit: Circuit,
    public: Seq<F128>,
    spec: ChannelSpec,
    proof: ChannelProof,
    grinding: BatchedGrinding,
    oracle: Oracle,
    transcript: Seq<Event>,
)
    ensures
        channel_verdict(circuit, public, spec, proof, grinding, oracle, transcript) == Err::<
            Accepted,
            ChannelError,
        >(ChannelError::MalformedSpec) <==> !spec.fits(circuit),
        channel_verdict(circuit, public, spec, proof, grinding, oracle, transcript) == Err::<
            Accepted,
            ChannelError,
        >(ChannelError::MalformedProof) <==> spec.fits(circuit) && (public.len()
            != circuit.num_public || proof.gather@.len() != side_columns(spec.lhs@ + spec.rhs@)),
{
    lemma_columns_are_the_gate_words(
        spec.lhs@,
        spec.rhs@,
        ChannelSource::Public { words: arbitrary() },
    );
}

/// Of a well-formed channel, the grinding witness is invalid exactly when it is
/// there under a public challenge or where no work is asked for, or where work
/// is asked for is missing or does not solve it after the label.
pub proof fn lemma_invalid_grinding_exactly(
    circuit: Circuit,
    public: Seq<F128>,
    spec: ChannelSpec,
    proof: ChannelProof,
    grinding: BatchedGrinding,
    oracle: Oracle,
    transcript: Seq<Event>,
)
    requires
        spec.fits(circuit),
        public.len() == circuit.num_public,
        proof.gather@.len() == side_columns(spec.lhs@) + side_columns(spec.rhs@),
    ensures
        channel_verdict(circuit, public, spec, proof, grinding, oracle, transcript) == Err::<
            Accepted,
            ChannelError,
        >(ChannelError::InvalidGrinding) <==> ({
            let bits = fingerprint_bits(spec, circuit, grinding);
            if spec.challenge is Public || bits == 0 {
                proof.alpha_nonce is Some
            } else {
                proof.alpha_nonce is None || !(oracle.solves)(
                    transcript.push(Event::Label(label())),
                    proof.alpha_nonce->0,
                    bits,
                )
            }
        }),
{
    let bits = fingerprint_bits(spec, circuit, grinding);
    lemma_sampled_challenge_is_two_squeezes(
        oracle,
        transcript,
        public,
        bits,
        proof.alpha_nonce,
    );
    if let ChannelChallenge::Public { alpha, beta } = spec.challenge {
        lemma_public_challenge_is_two_words(
            oracle,
            transcript,
            alpha,
            beta,
            public,
            bits,
            proof.alpha_nonce,
        );
    }
}

/// Of a well-formed channel with a valid challenge, the product argument is
/// rejected with the error that it has after the challenge.
pub proof fn lemma_product_errors_exactly(
    circuit: Circuit,
    public: Seq<F128>,
    spec: ChannelSpec,
    proof: ChannelProof,
    grinding: BatchedGrinding,
    oracle: Oracle,
    transcript: Seq<Event>,
    error: VerifyError,
)
    requires
        spec.fits(circuit),
        public.len() == circuit.num_public,
        proof.gather@.len() == side_columns(spec.lhs@) + side_columns(spec.rhs@),
        channel_verdict(circuit, public, spec, proof, grinding, oracle, transcript) != Err::<
            Accepted,
            ChannelError,
        >(ChannelError::InvalidGrinding),
    ensures
        channel_verdict(circuit, public, spec, proof, grinding, oracle, transcript) == Err::<
            Accepted,
            ChannelError,
        >(ChannelError::Gkr(error)) <==> plain_verdict(
            oracle,
            grinding.round_bits,
            spec.spec_mu(circuit.cells.nu as nat),
            proof.gkr,
            transcript + challenge_events(
                spec.challenge,
                public,
                fingerprint_bits(spec, circuit, grinding),
                proof.alpha_nonce,
            ),
        ) == Err::<GkrState, VerifyError>(error),
{
    lemma_challenge_is_absorbed(
        oracle,
        transcript,
        spec.challenge,
        public,
        fingerprint_bits(spec, circuit, grinding),
        proof.alpha_nonce,
    );
}

/// Gather values that are the folds of a buffer recombine exactly when the two
/// evaluations that the product argument leaves are those of the extensions of
/// the buffer's leaves.
pub proof fn lemma_recombination_exactly(
    circuit: Circuit,
    packed: Seq<F128>,
    public: Seq<F128>,
    spec: ChannelSpec,
    proof: ChannelProof,
    grinding: BatchedGrinding,
    oracle: Oracle,
    transcript: Seq<Event>,
    alpha: F128,
    beta: F128,
    challenged: Seq<Event>,
    state: GkrState,
)
    requires
        circuit.wf(),
        spec.fits(circuit),
        public.len() == circuit.num_public,
        spec.balance == ChannelBalance::Exported || proof.gkr.top_lhs == proof.gkr.top_rhs,
        channel_challenge(
            oracle,
            transcript,
            spec.challenge,
            public,
            fingerprint_bits(spec, circuit, grinding),
            proof.alpha_nonce,
        ) == Some((alpha, beta, challenged)),
        plain_verdict(
            oracle,
            grinding.round_bits,
            spec.spec_mu(circuit.cells.nu as nat),
            proof.gkr,
            challenged,
        ) == Ok::<GkrState, VerifyError>(state),
        proof.gather@ == side_gathered(
            spec.lhs@,
            circuit,
            packed,
            state.point.take(circuit.cells.nu as int),
        ) + side_gathered(
            spec.rhs@,
            circuit,
            packed,
            state.point.take(circuit.cells.nu as int),
        ),
    ensures
        ({
            let groups = spec.spec_groups();
            let left = leaves(spec.lhs@, circuit, packed, public, alpha, beta, groups);
            let right = leaves(spec.rhs@, circuit, packed, public, alpha, beta, groups);
            let fits = state.lhs == mle(left, state.point) && state.rhs == mle(right, state.point);
            let verdict = channel_verdict(
                circuit,
                public,
                spec,
                proof,
                grinding,
                oracle,
                transcript,
            );
            &&& fits ==> verdict is Ok
            &&& !fits ==> verdict == Err::<Accepted, ChannelError>(ChannelError::Recombination)
        }),
{
    let nu = circuit.cells.nu as nat;
    lemma_product_is_absorbed(
        oracle,
        grinding.round_bits,
        spec.spec_mu(nu),
        proof.gkr,
        challenged,
    );
    let (row, group) = (state.point.take(nu as int), state.point.skip(nu as int));
    assert(row + group =~= state.point);
    lemma_domain(spec, circuit);
    lemma_larger_side_fits(spec);
    lemma_gathered_count(spec.lhs@, circuit, packed, row);
    lemma_gathered_count(spec.rhs@, circuit, packed, row);
    let split = side_columns(spec.lhs@) as int;
    assert(proof.gather@.take(split) =~= side_gathered(spec.lhs@, circuit, packed, row));
    assert(proof.gather@.skip(split) =~= side_gathered(spec.rhs@, circuit, packed, row));
    lemma_leaves_extend(spec.lhs@, circuit, packed, public, alpha, beta, row, group);
    lemma_leaves_extend(spec.rhs@, circuit, packed, public, alpha, beta, row, group);
}

/// A prover's claims and a verifier's pairs list each point once, in order, with
/// the value at the same place; a claim is weighted with the equality polynomial
/// at its own point.
pub proof fn lemma_claims_list_the_points(
    claims: Seq<PackedDirectClaim>,
    pairs: Seq<(Vec<F128>, F128)>,
    points: Seq<Seq<F128>>,
    values: Seq<F128>,
    i: int,
)
    requires
        0 <= i < points.len(),
    ensures
        claims_up(claims, points, values) ==> {
            &&& claims.len() == points.len()
            &&& claims[i].point@ == points[i]
            &&& claims[i].value == values[i]
            &&& claims[i].eq_ind matches DirectEqInd::EqPoint(weights) && weights@
                == claims[i].point@
        },
        pairs_up(pairs, points, values) ==> {
            &&& pairs.len() == points.len()
            &&& pairs[i].0@ == points[i]
            &&& pairs[i].1 == values[i]
        },
{
}

/// The claim points of a channel are those of its left sources, then those of its
/// right sources, one for each word of each gate.
pub proof fn lemma_claim_points_in_spec_order(
    spec: ChannelSpec,
    circuit: Circuit,
    packed: Seq<F128>,
    row: Seq<F128>,
)
    ensures
        channel_claim_points(spec, circuit, row) == side_claim_points(
            spec.lhs@ + spec.rhs@,
            circuit,
            row,
        ),
        channel_claim_points(spec, circuit, row).len() == side_columns(spec.lhs@ + spec.rhs@),
{
    lemma_claims_line_up(spec.lhs@, spec.rhs@, circuit, packed, row);
    lemma_claim_points_count(spec.lhs@ + spec.rhs@, circuit, row);
}

/// Changing one entry of a tuple by `d` changes its weighted sum by `d` at the
/// entry's power of `alpha`.
pub proof fn lemma_weighted_entry(t: Seq<F128>, k: int, d: F128, alpha: F128)
    requires
        0 <= k < t.len(),
    ensures
        weighted(t.update(k, t[k] + d), alpha) == weighted(t, alpha) + power(alpha, k as nat) * d,
{
    let unit = Seq::new(
        t.len(),
        |j: int|
            if j == k {
                d
            } else {
                F128::zero()
            },
    );
    let terms = |j: int| power(alpha, j as nat) * unit[j];
    assert forall|j: int| 0 <= j < t.len() && j != k implies #[trigger] terms(j)
        == F128::zero() by {
        lemma_mul_zero(power(alpha, j as nat));
    }
    lemma_sum_single(terms, t.len(), k);
    lemma_summed(t, unit, alpha);
    assert(t.update(k, t[k] + d) =~= summed(t, unit)) by {
        assert forall|j: int| 0 <= j < t.len() && j != k implies t[j] == #[trigger] summed(
            t,
            unit,
        )[j] by {
            lemma_add_zero(t[j]);
        }
    }
}

/// Every gather value counts: changing the value of word `k` of gate source `g`
/// by `d` changes what its side recombines to by `d` at the word's power of
/// `alpha`, weighted with the equality polynomial at the group, whether or not
/// the source has live rows.
pub proof fn lemma_every_gather_value_counts(
    side: Seq<ChannelSource>,
    lens: Seq<usize>,
    public: Seq<F128>,
    values: Seq<F128>,
    alpha: F128,
    beta: F128,
    row: Seq<F128>,
    group: Seq<F128>,
    g: int,
    k: int,
    d: F128,
)
    requires
        0 <= g < side.len(),
        side[g] matches ChannelSource::Gate { ty, words } && 0 <= k < words@.len(),
        values.len() == side_columns(side),
    ensures
        ({
            let at = side_columns(side.take(g)) + k;
            recombined(
                side,
                lens,
                public,
                values.update(at, values[at] + d),
                alpha,
                beta,
                row,
                group,
            ) == recombined(side, lens, public, values, alpha, beta, row, group) + eq(group, g) * (
            power(alpha, k as nat) * d)
        }),
{
    let at = side_columns(side.take(g)) + k;
    let changed = values.update(at, values[at] + d);
    let f = |h: int| eq(group, h) * side[h].folded(public, source_values(side, values, h), alpha, row);
    let c = |h: int|
        eq(group, h) * side[h].folded(public, source_values(side, changed, h), alpha, row);
    let delta = |h: int|
        if h == g {
            eq(group, g) * (power(alpha, k as nat) * d)
        } else {
            F128::zero()
        };
    lemma_side_columns_take(side, g);
    lemma_side_columns_take(side, g + 1);
    assert forall|h: int| 0 <= h < side.len() implies #[trigger] c(h) == f(h) + delta(h) by {
        lemma_side_columns_take(side, h);
        lemma_side_columns_take(side, h + 1);
        let (before, after) = (source_values(side, values, h), source_values(side, changed, h));
        if h == g {
            assert(after =~= before.update(k, before[k] + d));
            lemma_weighted_entry(before, k, d, alpha);
            lemma_mul_distributes(
                eq(group, g),
                weighted(before, alpha),
                power(alpha, k as nat) * d,
            );
        } else {
            if h < g {
                lemma_side_columns_take(side.take(g), h + 1);
                assert(side.take(g).take(h + 1) =~= side.take(h + 1));
            } else {
                lemma_side_columns_take(side.take(h), g + 1);
                assert(side.take(h).take(g + 1) =~= side.take(g + 1));
            }
            assert(after =~= before);
            lemma_add_zero(f(h));
        }
    }
    lemma_sum_adds(f, delta, c, side.len());
    lemma_sum_single(delta, side.len(), g);
    let base = (beta + F128::one()) * live_weight(lens, row, group) + F128::one();
    lemma_add_associates(base, sum(f, side.len()), delta(g));
}

} // verus!
