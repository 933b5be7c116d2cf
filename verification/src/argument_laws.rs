//! What a transcript holds, and when each challenge is drawn, in plain terms.
//!
//! Every message of a proof is absorbed before the challenge that follows it,
//! and nothing else is. Each challenge is the oracle's answer to all of what was
//! absorbed before.

use crate::challenge_laws::{
    draw_events, label, lemma_label, lemma_draw_is_a_fresh_squeeze,
    lemma_public_challenge_is_two_words, lemma_sampled_challenge_is_two_squeezes,
};
use crate::challenger::{drawn, transcript_after_draw, BatchedGrinding, Event, Oracle};
use crate::channel::{ChannelChallenge, ChannelError, ChannelProof, ChannelSpec};
use crate::circuit::Circuit;
use crate::field::F128;
use crate::fingerprint_challenge::{channel_challenge, domain_channel, fingerprint_bits};
use crate::product_gkr::{
    layer_step, plain_verdict, run_layers, top_state, transcript_after_layer,
    transcript_after_layers, GkrState, LayerProof, PlainGkrProof, VerifyError,
};
use crate::sumcheck::{
    lemma_rounds_bind, run_rounds, transcript_after_rounds, RoundProof, SumcheckState,
};
use crate::verify::{channel_verdict, transcript_after_channel, Accepted};
use vstd::prelude::*;

verus! {

/// What a round leaves in a transcript: its three coefficients, then the draw.
pub open spec fn round_events(round: RoundProof, bits: u32) -> Seq<Event> {
    seq![Event::Value(round.c0), Event::Value(round.c2), Event::Value(round.c3)] + draw_events(
        bits,
        round.nonce,
    )
}

/// What rounds leave in a transcript.
pub open spec fn rounds_events(rounds: Seq<RoundProof>, bits: u32) -> Seq<Event>
    decreases rounds.len(),
{
    if rounds.len() == 0 {
        Seq::empty()
    } else {
        rounds_events(rounds.drop_last(), bits) + round_events(rounds.last(), bits)
    }
}

/// What a layer leaves in a transcript: the draw of its weight, its rounds, the
/// values of its four half tables and the draw that ties them.
pub open spec fn layer_events(layer: LayerProof, bits: u32) -> Seq<Event> {
    draw_events(bits, layer.lambda_nonce) + rounds_events(layer.rounds@, bits) + seq![
        Event::Value(layer.lhs_low),
        Event::Value(layer.lhs_high),
        Event::Value(layer.rhs_low),
        Event::Value(layer.rhs_high),
    ] + draw_events(bits, layer.tau_nonce)
}

/// What layers leave in a transcript.
pub open spec fn layers_events(layers: Seq<LayerProof>, bits: u32) -> Seq<Event>
    decreases layers.len(),
{
    if layers.len() == 0 {
        Seq::empty()
    } else {
        layers_events(layers.drop_last(), bits) + layer_events(layers.last(), bits)
    }
}

/// What a product argument leaves in a transcript: the two products, then its
/// layers.
pub open spec fn product_events(proof: PlainGkrProof, bits: u32) -> Seq<Event> {
    seq![Event::Value(proof.top_lhs), Event::Value(proof.top_rhs)] + layers_events(
        proof.layers@,
        bits,
    )
}

/// What the challenge of a channel leaves in a transcript.
pub open spec fn challenge_events(
    challenge: ChannelChallenge,
    public: Seq<F128>,
    bits: u32,
    nonce: Option<u64>,
) -> Seq<Event> {
    seq![Event::Label(label())] + match challenge {
        ChannelChallenge::Sampled => draw_events(bits, nonce) + seq![Event::Sample],
        ChannelChallenge::Public { alpha, beta } => seq![
            Event::Value(public[alpha as int]),
            Event::Value(public[beta as int]),
        ],
    }
}

/// The rounds of a sumcheck leave their messages, and each coordinate that they
/// bind is the oracle's answer to all messages up to its own round.
pub proof fn lemma_rounds_are_absorbed(
    oracle: Oracle,
    bits: u32,
    state: SumcheckState,
    rounds: Seq<RoundProof>,
)
    requires
        state.point.len() == 0,
    ensures
        run_rounds(oracle, bits, state, rounds) matches Some(end) ==> {
            &&& end.transcript == state.transcript + rounds_events(rounds, bits)
            &&& end.point.len() == rounds.len()
            &&& forall|i: int|
                0 <= i < rounds.len() ==> #[trigger] end.point[i] == (oracle.squeeze)(
                    (state.transcript + rounds_events(rounds.take(i + 1), bits)).drop_last(),
                )
        },
    decreases rounds.len(),
{
    if let Some(end) = run_rounds(oracle, bits, state, rounds) {
        lemma_rounds_bind(oracle, bits, state, rounds);
        if rounds.len() == 0 {
            assert(state.transcript + rounds_events(rounds, bits) =~= state.transcript);
        } else {
            let (rest, round) = (rounds.drop_last(), rounds.last());
            lemma_rounds_are_absorbed(oracle, bits, state, rest);
            let before = run_rounds(oracle, bits, state, rest)->0;
            lemma_rounds_bind(oracle, bits, state, rest);
            let sent = before.transcript.push(Event::Value(round.c0)).push(
                Event::Value(round.c2),
            ).push(Event::Value(round.c3));
            lemma_draw_is_a_fresh_squeeze(oracle, sent, bits, round.nonce);
            assert(sent + draw_events(bits, round.nonce) =~= state.transcript + rounds_events(
                rounds,
                bits,
            ));
            assert forall|i: int| 0 <= i < rounds.len() implies #[trigger] end.point[i] == (
            oracle.squeeze)(
                (state.transcript + rounds_events(rounds.take(i + 1), bits)).drop_last(),
            ) by {
                if i < rest.len() {
                    assert(rounds.take(i + 1) =~= rest.take(i + 1));
                    assert(end.point[i] == before.point[i]);
                } else {
                    assert(rounds.take(i + 1) =~= rounds);
                }
            }
        }
    }
}

/// A layer leaves its messages. The coordinates of its rounds are drawn after
/// its weight and all messages up to their own round, the last coordinate after
/// everything.
pub proof fn lemma_layer_is_absorbed(
    oracle: Oracle,
    bits: u32,
    state: GkrState,
    layer: LayerProof,
)
    ensures
        layer_step(oracle, bits, state, layer) matches Ok(next) ==> {
            let weighted = state.transcript + draw_events(bits, layer.lambda_nonce);
            &&& next.transcript == state.transcript + layer_events(layer, bits)
            &&& next.point.len() == layer.rounds@.len() + 1
            &&& next.point.last() == (oracle.squeeze)(next.transcript.drop_last())
            &&& forall|i: int|
                0 <= i < layer.rounds@.len() ==> #[trigger] next.point[i] == (oracle.squeeze)(
                    (weighted + rounds_events(layer.rounds@.take(i + 1), bits)).drop_last(),
                )
        },
{
    if let Ok(next) = layer_step(oracle, bits, state, layer) {
        lemma_draw_is_a_fresh_squeeze(oracle, state.transcript, bits, layer.lambda_nonce);
        let (lambda, weighted) = drawn(oracle, state.transcript, bits, layer.lambda_nonce)->0;
        let claimed = SumcheckState {
            claim: state.lhs + lambda * state.rhs,
            point: Seq::empty(),
            transcript: weighted,
        };
        lemma_rounds_are_absorbed(oracle, bits, claimed, layer.rounds@);
        let end = run_rounds(oracle, bits, claimed, layer.rounds@)->0;
        let sent = end.transcript.push(Event::Value(layer.lhs_low)).push(
            Event::Value(layer.lhs_high),
        ).push(Event::Value(layer.rhs_low)).push(Event::Value(layer.rhs_high));
        lemma_draw_is_a_fresh_squeeze(oracle, sent, bits, layer.tau_nonce);
        assert(next.transcript =~= state.transcript + layer_events(layer, bits));
        assert forall|i: int| 0 <= i < layer.rounds@.len() implies #[trigger] next.point[i] == (
        oracle.squeeze)(
            (weighted + rounds_events(layer.rounds@.take(i + 1), bits)).drop_last(),
        ) by {
            assert(next.point[i] == end.point[i]);
        }
    }
}

proof fn lemma_layers_are_absorbed(
    oracle: Oracle,
    bits: u32,
    state: GkrState,
    layers: Seq<LayerProof>,
)
    ensures
        run_layers(oracle, bits, state, layers) matches Ok(end) ==> end.transcript
            == state.transcript + layers_events(layers, bits),
    decreases layers.len(),
{
    if run_layers(oracle, bits, state, layers) is Ok {
        if layers.len() == 0 {
            assert(state.transcript + layers_events(layers, bits) =~= state.transcript);
        } else {
            let rest = layers.drop_last();
            lemma_layers_are_absorbed(oracle, bits, state, rest);
            let before = run_layers(oracle, bits, state, rest)->Ok_0;
            lemma_layer_is_absorbed(oracle, bits, before, layers.last());
            assert(state.transcript + layers_events(layers, bits) =~= before.transcript
                + layer_events(layers.last(), bits));
        }
    }
}

/// An accepted product argument has one layer for each coordinate, with a round
/// for each coordinate of the layer above, and leaves all its messages. Its
/// point is drawn in its last layer.
pub proof fn lemma_product_is_absorbed(
    oracle: Oracle,
    bits: u32,
    mu: nat,
    proof: PlainGkrProof,
    transcript: Seq<Event>,
)
    ensures
        plain_verdict(oracle, bits, mu, proof, transcript) matches Ok(end) ==> {
            let layers = proof.layers@;
            let before = transcript + seq![
                Event::Value(proof.top_lhs),
                Event::Value(proof.top_rhs),
            ] + layers_events(layers.drop_last(), bits);
            &&& layers.len() == mu
            &&& forall|k: int| 0 <= k < mu ==> (#[trigger] layers[k]).rounds@.len() == k
            &&& end.transcript == transcript + product_events(proof, bits)
            &&& end.point.len() == mu
            &&& mu > 0 ==> end.point.last() == (oracle.squeeze)(end.transcript.drop_last())
            &&& mu > 0 ==> forall|i: int|
                0 <= i < mu - 1 ==> #[trigger] end.point[i] == (oracle.squeeze)(
                    (before + draw_events(bits, layers.last().lambda_nonce) + rounds_events(
                        layers.last().rounds@.take(i + 1),
                        bits,
                    )).drop_last(),
                )
        },
{
    if let Ok(end) = plain_verdict(oracle, bits, mu, proof, transcript) {
        let start = top_state(proof, transcript);
        let layers = proof.layers@;
        lemma_layers_are_absorbed(oracle, bits, start, layers);
        let tops = seq![Event::Value(proof.top_lhs), Event::Value(proof.top_rhs)];
        assert(start.transcript =~= transcript + tops);
        assert(end.transcript =~= transcript + product_events(proof, bits));
        if mu > 0 {
            let rest = layers.drop_last();
            lemma_layers_are_absorbed(oracle, bits, start, rest);
            let state = run_layers(oracle, bits, start, rest)->Ok_0;
            lemma_layer_is_absorbed(oracle, bits, state, layers.last());
            assert(layers.last() == layers[mu - 1]);
        }
    }
}

/// An accepted channel leaves the label, its challenge and the messages of its
/// product argument, and nothing else.
pub proof fn lemma_channel_is_absorbed(
    circuit: Circuit,
    public: Seq<F128>,
    spec: ChannelSpec,
    proof: ChannelProof,
    grinding: BatchedGrinding,
    oracle: Oracle,
    transcript: Seq<Event>,
    accepted: Accepted,
)
    requires
        channel_verdict(circuit, public, spec, proof, grinding, oracle, transcript) == Ok::<
            Accepted,
            ChannelError,
        >(accepted),
    ensures
        accepted.transcript == transcript + challenge_events(
            spec.challenge,
            public,
            fingerprint_bits(spec, circuit, grinding),
            proof.alpha_nonce,
        ) + product_events(proof.gkr, grinding.round_bits),
        accepted.rho.len() == spec.spec_mu(circuit.cells.nu as nat),
{
    let bits = fingerprint_bits(spec, circuit, grinding);
    lemma_challenge_is_absorbed(
        oracle,
        transcript,
        spec.challenge,
        public,
        bits,
        proof.alpha_nonce,
    );
    let (_, _, challenged) = channel_challenge(
        oracle,
        transcript,
        spec.challenge,
        public,
        bits,
        proof.alpha_nonce,
    )->0;
    lemma_product_is_absorbed(
        oracle,
        grinding.round_bits,
        spec.spec_mu(circuit.cells.nu as nat),
        proof.gkr,
        challenged,
    );
}

/// A challenge leaves its events.
pub proof fn lemma_challenge_is_absorbed(
    oracle: Oracle,
    transcript: Seq<Event>,
    challenge: ChannelChallenge,
    public: Seq<F128>,
    bits: u32,
    nonce: Option<u64>,
)
    ensures
        channel_challenge(oracle, transcript, challenge, public, bits, nonce) matches Some(
            (_, _, after),
        ) ==> after == transcript + challenge_events(challenge, public, bits, nonce),
{
    if let Some((_, _, after)) = channel_challenge(
        oracle,
        transcript,
        challenge,
        public,
        bits,
        nonce,
    ) {
        match challenge {
            ChannelChallenge::Sampled => {
                lemma_sampled_challenge_is_two_squeezes(oracle, transcript, public, bits, nonce);
            },
            ChannelChallenge::Public { alpha, beta } => {
                lemma_public_challenge_is_two_words(
                    oracle,
                    transcript,
                    alpha,
                    beta,
                    public,
                    bits,
                    nonce,
                );
            },
        }
        assert(after =~= transcript + challenge_events(challenge, public, bits, nonce));
    }
}

// Rejections.

/// `after` is `before` with more behind it.
pub open spec fn extends(before: Seq<Event>, after: Seq<Event>) -> bool {
    before.len() <= after.len() && after.take(before.len() as int) == before
}

proof fn lemma_extends_appended(before: Seq<Event>, middle: Seq<Event>, more: Seq<Event>)
    ensures
        extends(before, before),
        extends(before, middle) ==> extends(before, middle + more),
{
    assert(before.take(before.len() as int) =~= before);
    if extends(before, middle) {
        assert((middle + more).take(before.len() as int) =~= middle.take(before.len() as int));
    }
}

proof fn lemma_after_draw_extends(
    oracle: Oracle,
    before: Seq<Event>,
    transcript: Seq<Event>,
    bits: u32,
    nonce: Option<u64>,
)
    requires
        extends(before, transcript),
    ensures
        transcript_after_draw(oracle, transcript, bits, nonce) matches Some(
            after,
        ) ==> extends(before, after),
{
    lemma_draw_is_a_fresh_squeeze(oracle, transcript, bits, nonce);
    lemma_extends_appended(before, transcript, draw_events(bits, nonce));
}

proof fn lemma_after_rounds_extends(
    oracle: Oracle,
    bits: u32,
    state: SumcheckState,
    rounds: Seq<RoundProof>,
)
    requires
        state.point.len() == 0,
    ensures
        transcript_after_rounds(oracle, bits, state, rounds) matches Some(after) ==> extends(
            state.transcript,
            after,
        ),
    decreases rounds.len(),
{
    lemma_extends_appended(state.transcript, state.transcript, Seq::empty());
    if rounds.len() > 0 {
        let rest = rounds.drop_last();
        let round = rounds.last();
        lemma_after_rounds_extends(oracle, bits, state, rest);
        lemma_rounds_are_absorbed(oracle, bits, state, rest);
        if let Some(before) = run_rounds(oracle, bits, state, rest) {
            let sent = before.transcript.push(Event::Value(round.c0)).push(
                Event::Value(round.c2),
            ).push(Event::Value(round.c3));
            let values = seq![
                Event::Value(round.c0),
                Event::Value(round.c2),
                Event::Value(round.c3),
            ];
            let more = rounds_events(rest, bits) + values;
            lemma_extends_appended(state.transcript, state.transcript, more);
            assert(sent =~= state.transcript + more);
            lemma_after_draw_extends(oracle, state.transcript, sent, bits, round.nonce);
        }
    }
}

proof fn lemma_after_layer_extends(
    oracle: Oracle,
    bits: u32,
    base: Seq<Event>,
    state: GkrState,
    layer: LayerProof,
)
    requires
        extends(base, state.transcript),
    ensures
        transcript_after_layer(oracle, bits, state, layer) matches Some(after) ==> extends(
            base,
            after,
        ),
{
    lemma_after_draw_extends(oracle, base, state.transcript, bits, layer.lambda_nonce);
    if let Some((lambda, weighted)) = drawn(
        oracle,
        state.transcript,
        bits,
        layer.lambda_nonce,
    ) {
        let claimed = SumcheckState {
            claim: state.lhs + lambda * state.rhs,
            point: Seq::empty(),
            transcript: weighted,
        };
        lemma_after_rounds_extends(oracle, bits, claimed, layer.rounds@);
        lemma_rounds_are_absorbed(oracle, bits, claimed, layer.rounds@);
        if let Some(end) = run_rounds(oracle, bits, claimed, layer.rounds@) {
            let sent = end.transcript.push(Event::Value(layer.lhs_low)).push(
                Event::Value(layer.lhs_high),
            ).push(Event::Value(layer.rhs_low)).push(Event::Value(layer.rhs_high));
            let more = rounds_events(layer.rounds@, bits) + seq![
                Event::Value(layer.lhs_low),
                Event::Value(layer.lhs_high),
                Event::Value(layer.rhs_low),
                Event::Value(layer.rhs_high),
            ];
            lemma_extends_appended(base, weighted, more);
            assert(sent =~= weighted + more);
            lemma_after_draw_extends(oracle, base, sent, bits, layer.tau_nonce);
        } else if let Some(after) = transcript_after_rounds(
            oracle,
            bits,
            claimed,
            layer.rounds@,
        ) {
            assert(after.take(base.len() as int) =~= after.take(weighted.len() as int).take(
                base.len() as int,
            ));
        }
    }
}

proof fn lemma_after_layers_extends(
    oracle: Oracle,
    bits: u32,
    base: Seq<Event>,
    state: GkrState,
    layers: Seq<LayerProof>,
)
    requires
        extends(base, state.transcript),
    ensures
        transcript_after_layers(oracle, bits, state, layers) matches Some(after) ==> extends(
            base,
            after,
        ),
    decreases layers.len(),
{
    if layers.len() > 0 {
        let rest = layers.drop_last();
        lemma_after_layers_extends(oracle, bits, base, state, rest);
        lemma_layers_are_absorbed(oracle, bits, state, rest);
        if let Ok(before) = run_layers(oracle, bits, state, rest) {
            lemma_extends_appended(base, state.transcript, layers_events(rest, bits));
            lemma_after_layer_extends(oracle, bits, base, before, layers.last());
        }
    }
}

/// What a verifier leaves of its transcript. It never takes anything back. A
/// malformed channel leaves it alone. A nonce that is missing or superfluous
/// leaves the label, a malformed product argument the challenge, and products or
/// values that do not fit, like acceptance, everything.
pub proof fn lemma_rejected_transcript(
    circuit: Circuit,
    public: Seq<F128>,
    spec: ChannelSpec,
    proof: ChannelProof,
    grinding: BatchedGrinding,
    oracle: Oracle,
    transcript: Seq<Event>,
)
    ensures
        ({
            let after = transcript_after_channel(
                circuit,
                public,
                spec,
                proof,
                grinding,
                oracle,
                transcript,
            );
            let bits = fingerprint_bits(spec, circuit, grinding);
            let challenged = transcript + challenge_events(
                spec.challenge,
                public,
                bits,
                proof.alpha_nonce,
            );
            &&& after matches Some(left) ==> extends(transcript, left)
            &&& match channel_verdict(
                circuit,
                public,
                spec,
                proof,
                grinding,
                oracle,
                transcript,
            ) {
                Ok(accepted) => after == Some(accepted.transcript),
                Err(ChannelError::MalformedSpec) => after == Some(transcript),
                Err(ChannelError::MalformedProof) => after == Some(transcript),
                Err(ChannelError::InvalidGrinding) => spec.challenge is Public || bits == 0
                    || proof.alpha_nonce is None ==> after == Some(
                    transcript.push(Event::Label(label())),
                ),
                Err(ChannelError::Gkr(VerifyError::Malformed)) => after == Some(challenged),
                Err(ChannelError::Gkr(_)) => true,
                Err(ChannelError::Unbalanced) => after == Some(
                    challenged + product_events(proof.gkr, grinding.round_bits),
                ),
                Err(ChannelError::Recombination) => after == Some(
                    challenged + product_events(proof.gkr, grinding.round_bits),
                ),
            }
        }),
{
    let bits = fingerprint_bits(spec, circuit, grinding);
    let mu = spec.spec_mu(circuit.cells.nu as nat);
    let nonce = proof.alpha_nonce;
    let labelled = transcript.push(Event::Label(domain_channel()));
    lemma_label();
    lemma_extends_appended(transcript, transcript, seq![Event::Label(label())]);
    assert(labelled =~= transcript + seq![Event::Label(label())]);
    lemma_challenge_is_absorbed(oracle, transcript, spec.challenge, public, bits, nonce);
    lemma_sampled_challenge_is_two_squeezes(oracle, transcript, public, bits, nonce);
    lemma_after_draw_extends(oracle, transcript, labelled, bits, nonce);
    if let Some((_, _, challenged)) = channel_challenge(
        oracle,
        transcript,
        spec.challenge,
        public,
        bits,
        nonce,
    ) {
        let rounds = grinding.round_bits;
        let events = challenge_events(spec.challenge, public, bits, nonce);
        lemma_extends_appended(transcript, transcript, events);
        let start = top_state(proof.gkr, challenged);
        let tops = seq![Event::Value(proof.gkr.top_lhs), Event::Value(proof.gkr.top_rhs)];
        lemma_extends_appended(transcript, challenged, tops);
        assert(start.transcript =~= challenged + tops);
        lemma_after_layers_extends(oracle, rounds, transcript, start, proof.gkr.layers@);
        lemma_product_is_absorbed(oracle, rounds, mu, proof.gkr, challenged);
        lemma_finished_layers(oracle, rounds, start, proof.gkr.layers@);
        lemma_malformed_exactly(oracle, rounds, mu, proof.gkr, challenged);
    }
}

proof fn lemma_layers_are_never_malformed(
    oracle: Oracle,
    bits: u32,
    state: GkrState,
    layers: Seq<LayerProof>,
)
    ensures
        run_layers(oracle, bits, state, layers) != Err::<GkrState, VerifyError>(
            VerifyError::Malformed,
        ),
    decreases layers.len(),
{
    if layers.len() > 0 {
        lemma_layers_are_never_malformed(oracle, bits, state, layers.drop_last());
    }
}

/// A product argument is malformed exactly when it does not have one layer for
/// each coordinate or some layer `k` does not have `k` rounds.
pub proof fn lemma_malformed_exactly(
    oracle: Oracle,
    bits: u32,
    mu: nat,
    proof: PlainGkrProof,
    transcript: Seq<Event>,
)
    ensures
        plain_verdict(oracle, bits, mu, proof, transcript) == Err::<GkrState, VerifyError>(
            VerifyError::Malformed,
        ) <==> !(proof.layers@.len() == mu && forall|k: int|
            0 <= k < mu ==> (#[trigger] proof.layers@[k]).rounds@.len() == k),
{
    lemma_layers_are_never_malformed(
        oracle,
        bits,
        top_state(proof, transcript),
        proof.layers@,
    );
}

/// Layers that succeed leave what they leave.
proof fn lemma_finished_layers(
    oracle: Oracle,
    bits: u32,
    state: GkrState,
    layers: Seq<LayerProof>,
)
    ensures
        run_layers(oracle, bits, state, layers) matches Ok(end) ==> transcript_after_layers(
            oracle,
            bits,
            state,
            layers,
        ) == Some(end.transcript),
{
}

/// A layer holds nonces behind all its challenges, or behind none.
pub open spec fn layer_nonces(layer: LayerProof, present: bool) -> bool {
    &&& layer.lambda_nonce is Some == present
    &&& layer.tau_nonce is Some == present
    &&& forall|i: int|
        0 <= i < layer.rounds@.len() ==> (#[trigger] layer.rounds@[i]).nonce is Some == present
}

proof fn lemma_round_nonces(
    oracle: Oracle,
    bits: u32,
    state: SumcheckState,
    rounds: Seq<RoundProof>,
)
    ensures
        run_rounds(oracle, bits, state, rounds) is Some ==> forall|i: int|
            0 <= i < rounds.len() ==> (#[trigger] rounds[i]).nonce is Some == (bits != 0),
        bits == 0 && (forall|i: int|
            0 <= i < rounds.len() ==> (#[trigger] rounds[i]).nonce is None) ==> run_rounds(
            oracle,
            bits,
            state,
            rounds,
        ) is Some,
    decreases rounds.len(),
{
    if rounds.len() > 0 {
        let rest = rounds.drop_last();
        lemma_round_nonces(oracle, bits, state, rest);
        if run_rounds(oracle, bits, state, rounds) is Some {
            assert forall|i: int| 0 <= i < rounds.len() implies (#[trigger] rounds[i]).nonce is Some
                == (bits != 0) by {
                if i < rest.len() {
                    assert(rounds[i] == rest[i]);
                }
            }
        }
        if bits == 0 && (forall|i: int|
            0 <= i < rounds.len() ==> (#[trigger] rounds[i]).nonce is None) {
            assert forall|i: int| 0 <= i < rest.len() implies (
            #[trigger] rest[i]).nonce is None by {
                assert(rest[i] == rounds[i]);
            }
            assert(rounds[rounds.len() - 1].nonce is None);
        }
    }
}

proof fn lemma_layer_nonces(
    oracle: Oracle,
    bits: u32,
    state: GkrState,
    layers: Seq<LayerProof>,
)
    ensures
        run_layers(oracle, bits, state, layers) is Ok ==> forall|k: int|
            0 <= k < layers.len() ==> layer_nonces(#[trigger] layers[k], bits != 0),
        bits == 0 && (forall|k: int|
            0 <= k < layers.len() ==> layer_nonces(#[trigger] layers[k], false)) ==> run_layers(
            oracle,
            bits,
            state,
            layers,
        ) != Err::<GkrState, VerifyError>(VerifyError::InvalidGrinding),
    decreases layers.len(),
{
    if layers.len() > 0 {
        let rest = layers.drop_last();
        let layer = layers.last();
        lemma_layer_nonces(oracle, bits, state, rest);
        let given = bits == 0 && (forall|k: int|
            0 <= k < layers.len() ==> layer_nonces(#[trigger] layers[k], false));
        if given {
            assert forall|k: int| 0 <= k < rest.len() implies layer_nonces(
                #[trigger] rest[k],
                false,
            ) by {
                assert(rest[k] == layers[k]);
            }
            assert(layer_nonces(layers[layers.len() - 1], false));
        }
        if let Ok(before) = run_layers(oracle, bits, state, rest) {
            if let Some((lambda, transcript)) = drawn(
                oracle,
                before.transcript,
                bits,
                layer.lambda_nonce,
            ) {
                let claimed = SumcheckState {
                    claim: before.lhs + lambda * before.rhs,
                    point: Seq::empty(),
                    transcript,
                };
                lemma_round_nonces(oracle, bits, claimed, layer.rounds@);
            }
            if run_layers(oracle, bits, state, layers) is Ok {
                assert forall|k: int| 0 <= k < layers.len() implies layer_nonces(
                    #[trigger] layers[k],
                    bits != 0,
                ) by {
                    if k < rest.len() {
                        assert(layers[k] == rest[k]);
                    }
                }
            }
        }
    }
}

/// An accepted product argument holds a nonce behind every challenge where the
/// policy asks for work, and behind none where it does not. Where it does not,
/// an argument without nonces is never rejected for its grinding.
pub proof fn lemma_nonces_follow_the_policy(
    oracle: Oracle,
    bits: u32,
    mu: nat,
    proof: PlainGkrProof,
    transcript: Seq<Event>,
)
    ensures
        plain_verdict(oracle, bits, mu, proof, transcript) is Ok ==> forall|k: int|
            0 <= k < proof.layers@.len() ==> layer_nonces(#[trigger] proof.layers@[k], bits != 0),
        bits == 0 && (forall|k: int|
            0 <= k < proof.layers@.len() ==> layer_nonces(#[trigger] proof.layers@[k], false))
            ==> plain_verdict(oracle, bits, mu, proof, transcript) != Err::<GkrState, VerifyError>(
            VerifyError::InvalidGrinding,
        ),
{
    lemma_layer_nonces(oracle, bits, top_state(proof, transcript), proof.layers@);
}

} // verus!
