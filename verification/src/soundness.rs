//! What an accepted proof says of a committed buffer.
//!
//! The challenges of the product argument are drawn one by one. At each draw a
//! false claim can become a true one, but only at a few challenges, which are
//! determined by what was sent before. A proof that is accepted although its
//! products are not those of the tuples has met such a challenge.

use crate::balance::{dead_rows_zero, lemma_gather_factors};
use crate::challenger::{drawn, BatchedGrinding, Event, Oracle};
use crate::channel::{
    lemma_domain, lemma_larger_side_fits, side_columns, ChannelBalance, ChannelError, ChannelProof,
    ChannelSpec,
};
use crate::circuit::Circuit;
use crate::collisions::{collisions, level};
use crate::field::{lemma_add_cancels, lemma_add_zero, lemma_mul_zero, F128};
use crate::fingerprint_challenge::{channel_challenge, fingerprint_bits};
use crate::multilinear::{lemma_mle_halves, lemma_mle_of_eq_table, lemma_mle_single, line, mle};
use crate::product_gkr::{
    halve, halved, layer_step, layer_sum, lemma_halved, lemma_layer_total, lemma_product_single,
    run_layers, shaped, top_state, GkrState, LayerProof,
};
use crate::recombination::{lemma_gathered_count, lemma_leaves_extend, lemma_leaves_multiply};
use crate::roots::{lemma_agreements, lemma_horner, roots, summed};
use crate::sumcheck::{
    cubic, lemma_at_all_coordinates, lemma_round_folds, lemma_rounds_bind, run_rounds, LayerSum,
    RoundProof, SumcheckState,
};
use crate::sums::{product, sum};
use crate::tuples::{
    grand_product, leaves, lemma_claim_points_count, side_gathered, side_tuples, weighted,
};
use crate::verify::{channel_claim_points, channel_verdict, Accepted};
use vstd::arithmetic::power2::{lemma2_to64, lemma_pow2_unfold, pow2};
use vstd::prelude::*;

verus! {

/// A challenge that is one of at most three.
pub open spec fn unlucky(few: Set<F128>, challenge: F128) -> bool {
    &&& few.finite()
    &&& few.len() <= 3
    &&& few.contains(challenge)
}

/// The challenges at which a round's cubic has the value of the sum over the
/// tables, of which `2 n` entries are left.
pub open spec fn round_escapes(
    tables: LayerSum,
    n: nat,
    claim: F128,
    round: RoundProof,
) -> Set<F128> {
    Set::new(
        |x: F128| cubic(claim, round.c0, round.c2, round.c3, x) == tables.at(x).total(n),
    )
}

/// The coefficients of a round's cubic.
spec fn coefficients(claim: F128, c0: F128, c2: F128, c3: F128) -> Seq<F128> {
    seq![c0, (claim + c2) + c3, c2, c3]
}

proof fn lemma_coefficients(claim: F128, c0: F128, c2: F128, c3: F128, x: F128)
    ensures
        weighted(coefficients(claim, c0, c2, c3), x) == cubic(claim, c0, c2, c3, x),
{
    let p = coefficients(claim, c0, c2, c3);
    let (p1, p2, p3) = (p.drop_first(), p.drop_first().drop_first(), seq![c3]);
    assert(p2.drop_first() =~= p3);
    lemma_horner(p, x);
    lemma_horner(p1, x);
    lemma_horner(p2, x);
    lemma_horner(p3, x);
    assert(weighted(p3.drop_first(), x) == F128::zero());
    lemma_mul_zero(x);
    lemma_add_zero(c3);
}

/// A false claim of a round becomes true at no more than three challenges.
pub proof fn lemma_round_escapes(tables: LayerSum, n: nat, claim: F128, round: RoundProof)
    requires
        tables.sized(2 * n),
        claim != tables.total(2 * n),
    ensures
        round_escapes(tables, n, claim, round).finite(),
        round_escapes(tables, n, claim, round).len() <= 3,
{
    let total = tables.total(2 * n);
    let (d0, d2, d3) = (
        sum(|i: int| tables.pair_c0(i), n),
        sum(|i: int| tables.pair_c2(i), n),
        sum(|i: int| tables.pair_c3(i), n),
    );
    let p = coefficients(claim, round.c0, round.c2, round.c3);
    let q = coefficients(total, d0, d2, d3);
    assert(p != q) by {
        if p == q {
            assert(p[0] == q[0] && p[1] == q[1] && p[2] == q[2] && p[3] == q[3]);
            let (a, b, c, d) = (claim.bits, total.bits, d2.bits, d3.bits);
            assert((a ^ c) ^ d == (b ^ c) ^ d ==> a == b) by (bit_vector);
        }
    }
    lemma_agreements(p, q);
    assert forall|x: F128| round_escapes(tables, n, claim, round).contains(x) <==> roots(
        summed(p, q),
    ).contains(x) by {
        lemma_coefficients(claim, round.c0, round.c2, round.c3, x);
        lemma_coefficients(total, d0, d2, d3, x);
        lemma_round_folds(tables, x, n);
    }
    assert(round_escapes(tables, n, claim, round) =~= roots(summed(p, q)));
}

/// Round `i` of a sumcheck meets a challenge at which its false claim becomes
/// true.
pub open spec fn round_escapes_at(
    oracle: Oracle,
    bits: u32,
    start: SumcheckState,
    tables: LayerSum,
    rounds: Seq<RoundProof>,
    i: int,
) -> bool {
    match (
        run_rounds(oracle, bits, start, rounds.take(i)),
        run_rounds(oracle, bits, start, rounds.take(i + 1)),
    ) {
        (Some(before), Some(after)) => {
            let left = tables.at_all(before.point);
            let n = pow2((rounds.len() - i - 1) as nat);
            &&& before.claim != left.total(2 * n)
            &&& unlucky(round_escapes(left, n, before.claim, rounds[i]), after.point.last())
        },
        _ => false,
    }
}

/// Some round of a sumcheck meets such a challenge.
pub open spec fn rounds_escape(
    oracle: Oracle,
    bits: u32,
    start: SumcheckState,
    tables: LayerSum,
    rounds: Seq<RoundProof>,
) -> bool {
    exists|i: int|
        0 <= i < rounds.len() && #[trigger] round_escapes_at(oracle, bits, start, tables, rounds, i)
}

/// The tables that are left after `xs.len()` of `k` rounds.
proof fn lemma_left_sized(tables: LayerSum, xs: Seq<F128>, k: nat)
    requires
        tables.sized(pow2(k)),
        xs.len() <= k,
    ensures
        tables.at_all(xs).sized(pow2((k - xs.len()) as nat)),
    decreases xs.len(),
{
    if xs.len() > 0 {
        lemma_left_sized(tables, xs.drop_last(), k);
        lemma_pow2_unfold((k - xs.len() + 1) as nat);
    }
}

/// A false claim stays false through the first `m` rounds unless a round meets
/// such a challenge.
proof fn lemma_rounds_sound(
    oracle: Oracle,
    bits: u32,
    start: SumcheckState,
    tables: LayerSum,
    rounds: Seq<RoundProof>,
    m: int,
)
    requires
        0 <= m <= rounds.len(),
        start.point.len() == 0,
        tables.sized(pow2(rounds.len())),
        start.claim != tables.total(pow2(rounds.len())),
        !rounds_escape(oracle, bits, start, tables, rounds),
    ensures
        run_rounds(oracle, bits, start, rounds.take(m)) matches Some(end) ==> end.claim
            != tables.at_all(end.point).total(pow2((rounds.len() - m) as nat)),
    decreases m,
{
    if m == 0 {
        assert(run_rounds(oracle, bits, start, rounds.take(0)) == Some(start));
        assert(tables.at_all(start.point) == tables);
    } else {
        let i = m - 1;
        lemma_rounds_sound(oracle, bits, start, tables, rounds, i);
        assert(rounds.take(m).drop_last() =~= rounds.take(i));
        lemma_rounds_bind(oracle, bits, start, rounds.take(i));
        if let Some(after) = run_rounds(oracle, bits, start, rounds.take(m)) {
            let before = run_rounds(oracle, bits, start, rounds.take(i))->0;
            let left = tables.at_all(before.point);
            let n = pow2((rounds.len() - m) as nat);
            let x = after.point.last();
            lemma_pow2_unfold((rounds.len() - i) as nat);
            lemma_left_sized(tables, before.point, rounds.len());
            lemma_round_escapes(left, n, before.claim, rounds[i]);
            assert(after.point.drop_last() =~= before.point);
            assert(tables.at_all(after.point) == left.at(x));
            assert(!round_escapes_at(oracle, bits, start, tables, rounds, i));
            assert(!round_escapes(left, n, before.claim, rounds[i]).contains(x));
        }
    }
}

// One layer.

/// The weights at which two claims of a layer add up as the true values do.
pub open spec fn weight_escapes(lhs: F128, rhs: F128, l: F128, r: F128) -> Set<F128> {
    Set::new(|lambda: F128| lhs + lambda * rhs == l + lambda * r)
}

/// The challenges at which two lines meet.
pub open spec fn tie_escapes(low: F128, high: F128, l: F128, h: F128) -> Set<F128> {
    Set::new(|tau: F128| line(low, high, tau) == line(l, h, tau))
}

proof fn lemma_weight_escapes(lhs: F128, rhs: F128, l: F128, r: F128)
    requires
        lhs != l || rhs != r,
    ensures
        weight_escapes(lhs, rhs, l, r).finite(),
        weight_escapes(lhs, rhs, l, r).len() <= 1,
{
    let (p, q) = (seq![lhs, rhs], seq![l, r]);
    assert(p != q) by {
        if p == q {
            assert(p[0] == q[0] && p[1] == q[1]);
        }
    }
    lemma_agreements(p, q);
    assert forall|x: F128| weight_escapes(lhs, rhs, l, r).contains(x) <==> roots(
        summed(p, q),
    ).contains(x) by {
        lemma_two_coefficients(lhs, rhs, x);
        lemma_two_coefficients(l, r, x);
    }
    assert(weight_escapes(lhs, rhs, l, r) =~= roots(summed(p, q)));
}

proof fn lemma_two_coefficients(a: F128, b: F128, x: F128)
    ensures
        weighted(seq![a, b], x) == a + x * b,
{
    let (p, p1) = (seq![a, b], seq![b]);
    assert(p.drop_first() =~= p1);
    lemma_horner(p, x);
    lemma_horner(p1, x);
    assert(weighted(p1.drop_first(), x) == F128::zero());
    lemma_mul_zero(x);
    lemma_add_zero(b);
}

proof fn lemma_tie_escapes(low: F128, high: F128, l: F128, h: F128)
    requires
        low != l || high != h,
    ensures
        tie_escapes(low, high, l, h).finite(),
        tie_escapes(low, high, l, h).len() <= 1,
{
    lemma_add_cancels(low, high);
    lemma_add_cancels(l, h);
    lemma_weight_escapes(low, low + high, l, l + h);
    assert(tie_escapes(low, high, l, h) =~= weight_escapes(low, low + high, l, l + h));
}

/// A layer meets a challenge at which a false claim becomes true: its weight,
/// one of its rounds, or the challenge that ties the halves of its tables.
pub open spec fn layer_escapes(
    oracle: Oracle,
    bits: u32,
    state: GkrState,
    layer: LayerProof,
    lhs: Seq<F128>,
    rhs: Seq<F128>,
) -> bool {
    match drawn(oracle, state.transcript, bits, layer.lambda_nonce) {
        None => false,
        Some((lambda, transcript)) => {
            let (l, r) = (mle(halve(lhs), state.point), mle(halve(rhs), state.point));
            let claimed = SumcheckState {
                claim: state.lhs + lambda * state.rhs,
                point: Seq::empty(),
                transcript,
            };
            let sums = layer_sum(lhs, rhs, state.point, lambda);
            ||| (state.lhs, state.rhs) != (l, r) && unlucky(
                weight_escapes(state.lhs, state.rhs, l, r),
                lambda,
            )
            ||| rounds_escape(oracle, bits, claimed, sums, layer.rounds@)
            ||| match run_rounds(oracle, bits, claimed, layer.rounds@) {
                None => false,
                Some(end) => {
                    let (l0, l1) = (mle(sums.lhs_low, end.point), mle(sums.lhs_high, end.point));
                    let (r0, r1) = (mle(sums.rhs_low, end.point), mle(sums.rhs_high, end.point));
                    match layer_step(oracle, bits, state, layer) {
                        Err(_) => false,
                        Ok(next) => {
                            let tau = next.point.last();
                            ||| (layer.lhs_low, layer.lhs_high) != (l0, l1) && unlucky(
                                tie_escapes(layer.lhs_low, layer.lhs_high, l0, l1),
                                tau,
                            )
                            ||| (layer.rhs_low, layer.rhs_high) != (r0, r1) && unlucky(
                                tie_escapes(layer.rhs_low, layer.rhs_high, r0, r1),
                                tau,
                            )
                        },
                    }
                },
            }
        },
    }
}

/// True claims after a layer come from true claims before it, unless the layer
/// meets such a challenge.
proof fn lemma_layer_sound(
    oracle: Oracle,
    bits: u32,
    state: GkrState,
    layer: LayerProof,
    lhs: Seq<F128>,
    rhs: Seq<F128>,
)
    requires
        layer.rounds@.len() == state.point.len(),
        lhs.len() == 2 * pow2(state.point.len()),
        rhs.len() == 2 * pow2(state.point.len()),
        layer_step(oracle, bits, state, layer) matches Ok(next) && next.lhs == mle(lhs, next.point)
            && next.rhs == mle(rhs, next.point),
        !layer_escapes(oracle, bits, state, layer, lhs, rhs),
    ensures
        state.lhs == mle(halve(lhs), state.point),
        state.rhs == mle(halve(rhs), state.point),
{
    let k = state.point.len();
    let (l, r) = (mle(halve(lhs), state.point), mle(halve(rhs), state.point));
    let next = layer_step(oracle, bits, state, layer)->Ok_0;
    let (lambda, transcript) = drawn(oracle, state.transcript, bits, layer.lambda_nonce)->0;
    let claimed = SumcheckState {
        claim: state.lhs + lambda * state.rhs,
        point: Seq::empty(),
        transcript,
    };
    let sums = layer_sum(lhs, rhs, state.point, lambda);
    let rounds = layer.rounds@;
    let end = run_rounds(oracle, bits, claimed, rounds)->0;
    lemma_rounds_bind(oracle, bits, claimed, rounds);
    let tau = next.point.last();
    assert(next.point =~= end.point.push(tau));
    if (state.lhs, state.rhs) != (l, r) {
        // The weighted claim is false, and stays so through the rounds.
        lemma_weight_escapes(state.lhs, state.rhs, l, r);
        lemma_layer_total(sums, lhs, rhs, state.point);
        assert(!weight_escapes(state.lhs, state.rhs, l, r).contains(lambda));
        lemma_rounds_sound(oracle, bits, claimed, sums, rounds, k as int);
        assert(rounds.take(k as int) =~= rounds);
        lemma2_to64();
        lemma_at_all_coordinates(sums, end.point);
        let left = sums.at_all(end.point);
        let terms = |i: int| left.term(i);
        assert(sum(terms, 1) == sum(terms, 0) + terms(0));
        lemma_add_zero(left.term(0));
        lemma_mle_of_eq_table(state.point, end.point);
        // So the values sent are not the true ones.
        let (l0, l1) = (mle(sums.lhs_low, end.point), mle(sums.lhs_high, end.point));
        let (r0, r1) = (mle(sums.rhs_low, end.point), mle(sums.rhs_high, end.point));
        lemma_mle_halves(sums.lhs_low, sums.lhs_high, end.point, tau);
        lemma_mle_halves(sums.rhs_low, sums.rhs_high, end.point, tau);
        assert(sums.lhs_low + sums.lhs_high =~= lhs);
        assert(sums.rhs_low + sums.rhs_high =~= rhs);
        if (layer.lhs_low, layer.lhs_high) != (l0, l1) {
            lemma_tie_escapes(layer.lhs_low, layer.lhs_high, l0, l1);
            assert(tie_escapes(layer.lhs_low, layer.lhs_high, l0, l1).contains(tau));
        } else {
            assert((layer.rhs_low, layer.rhs_high) != (r0, r1));
            lemma_tie_escapes(layer.rhs_low, layer.rhs_high, r0, r1);
            assert(tie_escapes(layer.rhs_low, layer.rhs_high, r0, r1).contains(tau));
        }
    }
}

// All layers.

/// Layer `k` of a product argument over the leaves `lhs` and `rhs` meets a
/// challenge at which a false claim becomes true.
pub open spec fn layer_escapes_at(
    oracle: Oracle,
    bits: u32,
    start: GkrState,
    layers: Seq<LayerProof>,
    lhs: Seq<F128>,
    rhs: Seq<F128>,
    k: int,
) -> bool {
    let depth = (layers.len() - k - 1) as nat;
    match run_layers(oracle, bits, start, layers.take(k)) {
        Ok(state) => layer_escapes(
            oracle,
            bits,
            state,
            layers[k],
            halved(lhs, depth),
            halved(rhs, depth),
        ),
        Err(_) => false,
    }
}

/// Some layer of a product argument meets such a challenge.
pub open spec fn layers_escape(
    oracle: Oracle,
    bits: u32,
    start: GkrState,
    layers: Seq<LayerProof>,
    lhs: Seq<F128>,
    rhs: Seq<F128>,
) -> bool {
    exists|k: int|
        0 <= k < layers.len() && #[trigger] layer_escapes_at(
            oracle,
            bits,
            start,
            layers,
            lhs,
            rhs,
            k,
        )
}

/// The first `k` layers bind `k` coordinates.
proof fn lemma_layers_bind(
    oracle: Oracle,
    bits: u32,
    start: GkrState,
    layers: Seq<LayerProof>,
    mu: nat,
    k: int,
)
    requires
        shaped(layers, mu),
        start.point.len() == 0,
        0 <= k <= mu,
    ensures
        run_layers(oracle, bits, start, layers.take(k)) matches Ok(state) ==> state.point.len()
            == k,
    decreases k,
{
    if k > 0 {
        lemma_layers_bind(oracle, bits, start, layers, mu, k - 1);
        assert(layers.take(k).drop_last() =~= layers.take(k - 1));
        if let Ok(state) = run_layers(oracle, bits, start, layers.take(k)) {
            let before = run_layers(oracle, bits, start, layers.take(k - 1))->Ok_0;
            let layer = layers[k - 1];
            let (lambda, transcript) = drawn(
                oracle,
                before.transcript,
                bits,
                layer.lambda_nonce,
            )->0;
            let claimed = SumcheckState {
                claim: before.lhs + lambda * before.rhs,
                point: Seq::empty(),
                transcript,
            };
            lemma_rounds_bind(oracle, bits, claimed, layer.rounds@);
        }
    }
}

/// True claims after `k` layers come from a true start, unless a layer meets
/// such a challenge.
proof fn lemma_layers_sound(
    oracle: Oracle,
    bits: u32,
    start: GkrState,
    layers: Seq<LayerProof>,
    lhs: Seq<F128>,
    rhs: Seq<F128>,
    mu: nat,
    k: int,
)
    requires
        shaped(layers, mu),
        start.point.len() == 0,
        lhs.len() == pow2(mu),
        rhs.len() == pow2(mu),
        0 <= k <= mu,
        run_layers(oracle, bits, start, layers.take(k)) matches Ok(state) && state.lhs == mle(
            halved(lhs, (mu - k) as nat),
            state.point,
        ) && state.rhs == mle(halved(rhs, (mu - k) as nat), state.point),
        !layers_escape(oracle, bits, start, layers, lhs, rhs),
    ensures
        start.lhs == mle(halved(lhs, mu), start.point),
        start.rhs == mle(halved(rhs, mu), start.point),
    decreases k,
{
    if k > 0 {
        let i = k - 1;
        let depth = (mu - k) as nat;
        let (l, r) = (halved(lhs, depth), halved(rhs, depth));
        assert(layers.take(k).drop_last() =~= layers.take(i));
        lemma_layers_bind(oracle, bits, start, layers, mu, i);
        let before = run_layers(oracle, bits, start, layers.take(i))->Ok_0;
        lemma_halved(lhs, mu, depth);
        lemma_halved(rhs, mu, depth);
        lemma_pow2_unfold(k as nat);
        assert(!layer_escapes_at(oracle, bits, start, layers, lhs, rhs, i));
        lemma_layer_sound(oracle, bits, before, layers[i], l, r);
        assert(halved(lhs, depth + 1) == halve(l));
        assert(halved(rhs, depth + 1) == halve(r));
        lemma_layers_sound(oracle, bits, start, layers, lhs, rhs, mu, i);
    }
}

/// Soundness of the product argument. A proof that leaves true evaluations of
/// the leaves has the leaves' products at its top, unless one of its challenges
/// is among at most three that what was sent before it determines.
pub proof fn lemma_products_are_true(
    oracle: Oracle,
    bits: u32,
    start: GkrState,
    layers: Seq<LayerProof>,
    lhs: Seq<F128>,
    rhs: Seq<F128>,
    mu: nat,
)
    requires
        shaped(layers, mu),
        start.point.len() == 0,
        lhs.len() == pow2(mu),
        rhs.len() == pow2(mu),
        run_layers(oracle, bits, start, layers) matches Ok(end) && end.lhs == mle(lhs, end.point)
            && end.rhs == mle(rhs, end.point),
    ensures
        (start.lhs == product(lhs) && start.rhs == product(rhs)) || layers_escape(
            oracle,
            bits,
            start,
            layers,
            lhs,
            rhs,
        ),
{
    if !layers_escape(oracle, bits, start, layers, lhs, rhs) {
        assert(layers.take(mu as int) =~= layers);
        lemma_layers_sound(oracle, bits, start, layers, lhs, rhs, mu, mu as int);
        lemma2_to64();
        lemma_halved(lhs, mu, mu);
        lemma_halved(rhs, mu, mu);
        lemma_mle_single(halved(lhs, mu), start.point);
        lemma_mle_single(halved(rhs, mu), start.point);
        lemma_product_single(halved(lhs, mu));
        lemma_product_single(halved(rhs, mu));
    }
}

// The channel.

/// The product argument of a channel over a committed buffer meets a challenge
/// at which a false claim becomes true.
pub open spec fn channel_escapes(
    circuit: Circuit,
    packed: Seq<F128>,
    public: Seq<F128>,
    spec: ChannelSpec,
    proof: ChannelProof,
    grinding: BatchedGrinding,
    oracle: Oracle,
    transcript: Seq<Event>,
) -> bool {
    match channel_challenge(
        oracle,
        transcript,
        spec.challenge,
        public,
        fingerprint_bits(spec, circuit, grinding),
        proof.alpha_nonce,
    ) {
        None => false,
        Some((alpha, beta, challenged)) => layers_escape(
            oracle,
            grinding.round_bits,
            top_state(proof.gkr, challenged),
            proof.gkr.layers@,
            leaves(spec.lhs@, circuit, packed, public, alpha, beta, spec.spec_groups()),
            leaves(spec.rhs@, circuit, packed, public, alpha, beta, spec.spec_groups()),
        ),
    }
}

/// Soundness of a channel. Let the values of an accepted proof be those of the
/// committed buffer at their claim points, and the buffer's dead rows zero. Then
/// the two products of the proof are the products over the buffer's tuples,
/// unless a challenge of the product argument is among at most three that what
/// was sent before it determines. Where the products must be equal, the
/// fingerprint challenge is then one at which those over the tuples agree.
pub proof fn lemma_accepted_channel_is_sound(
    circuit: Circuit,
    packed: Seq<F128>,
    public: Seq<F128>,
    spec: ChannelSpec,
    proof: ChannelProof,
    grinding: BatchedGrinding,
    oracle: Oracle,
    transcript: Seq<Event>,
    accepted: Accepted,
)
    requires
        circuit.wf(),
        packed.len() == pow2(circuit.cells.vars as nat),
        forall|g: int|
            0 <= g < spec.lhs@.len() ==> dead_rows_zero(#[trigger] spec.lhs@[g], circuit, packed),
        forall|g: int|
            0 <= g < spec.rhs@.len() ==> dead_rows_zero(#[trigger] spec.rhs@[g], circuit, packed),
        channel_verdict(circuit, public, spec, proof, grinding, oracle, transcript) == Ok::<
            Accepted,
            ChannelError,
        >(accepted),
        forall|i: int|
            0 <= i < proof.gather@.len() ==> #[trigger] proof.gather@[i] == mle(
                packed,
                channel_claim_points(spec, circuit, accepted.rho.take(circuit.cells.nu as int))[i],
            ),
    ensures
        ({
            let output = accepted.output;
            let pushed = side_tuples(spec.lhs@, circuit, packed, public);
            let pulled = side_tuples(spec.rhs@, circuit, packed, public);
            ||| channel_escapes(
                circuit,
                packed,
                public,
                spec,
                proof,
                grinding,
                oracle,
                transcript,
            )
            ||| {
                &&& output.top_lhs == grand_product(pushed, output.alpha, output.beta)
                &&& output.top_rhs == grand_product(pulled, output.alpha, output.beta)
                &&& spec.balance == ChannelBalance::Equal ==> collisions(pushed, pulled).contains(
                    (output.alpha, output.beta),
                )
            }
        }),
{
    let nu = circuit.cells.nu as nat;
    let mu = spec.spec_mu(nu);
    let groups = spec.spec_groups();
    let (alpha, beta) = (accepted.output.alpha, accepted.output.beta);
    let (_, _, challenged) = channel_challenge(
        oracle,
        transcript,
        spec.challenge,
        public,
        fingerprint_bits(spec, circuit, grinding),
        proof.alpha_nonce,
    )->0;
    let start = top_state(proof.gkr, challenged);
    let layers = proof.gkr.layers@;
    let state = run_layers(oracle, grinding.round_bits, start, layers)->Ok_0;
    let (row, group) = (state.point.take(nu as int), state.point.skip(nu as int));
    lemma_layers_bind(oracle, grinding.round_bits, start, layers, mu, mu as int);
    assert(layers.take(mu as int) =~= layers);
    assert(row + group =~= state.point);
    lemma_domain(spec, circuit);
    lemma_larger_side_fits(spec);
    // The values of the proof are the folds of the buffer's columns.
    lemma_gather_factors(spec.lhs@, circuit, packed, row);
    lemma_gather_factors(spec.rhs@, circuit, packed, row);
    lemma_gathered_count(spec.lhs@, circuit, packed, row);
    lemma_gathered_count(spec.rhs@, circuit, packed, row);
    lemma_claim_points_count(spec.lhs@, circuit, row);
    lemma_claim_points_count(spec.rhs@, circuit, row);
    let split = side_columns(spec.lhs@) as int;
    let (left, right) = (
        side_gathered(spec.lhs@, circuit, packed, row),
        side_gathered(spec.rhs@, circuit, packed, row),
    );
    assert forall|i: int| 0 <= i < split implies #[trigger] proof.gather@.take(split)[i]
        == left[i] by {
        assert(proof.gather@[i] == mle(packed, channel_claim_points(spec, circuit, row)[i]));
    }
    assert(proof.gather@.take(split) =~= left);
    assert forall|i: int| 0 <= i < right.len() implies #[trigger] proof.gather@.skip(split)[i]
        == right[i] by {
        assert(proof.gather@[split + i] == mle(
            packed,
            channel_claim_points(spec, circuit, row)[split + i],
        ));
    }
    assert(proof.gather@.skip(split) =~= right);
    // So the evaluations that the product argument leaves are those of the leaves.
    lemma_leaves_extend(spec.lhs@, circuit, packed, public, alpha, beta, row, group);
    lemma_leaves_extend(spec.rhs@, circuit, packed, public, alpha, beta, row, group);
    let (lhs, rhs) = (
        leaves(spec.lhs@, circuit, packed, public, alpha, beta, groups),
        leaves(spec.rhs@, circuit, packed, public, alpha, beta, groups),
    );
    lemma_products_are_true(oracle, grinding.round_bits, start, layers, lhs, rhs, mu);
    lemma_leaves_multiply(spec.lhs@, circuit, packed, public, alpha, beta, groups);
    lemma_leaves_multiply(spec.rhs@, circuit, packed, public, alpha, beta, groups);
    assert(spec.lhs@.take(spec.lhs@.len() as int) =~= spec.lhs@);
    assert(spec.rhs@.take(spec.rhs@.len() as int) =~= spec.rhs@);
}

/// A proof under one challenge does not verify under another. Let a proof be
/// accepted with the words `public` and with the words `other`, each time with
/// values that are those of the committed buffer at their claim points. Then, on
/// each side, the product over the tuples at the one challenge is the product at
/// the other, unless a challenge of one of the two product arguments is among at
/// most three that what was sent before it determines. How few challenges give a
/// product the same value is in
/// [`crate::collisions::lemma_products_tell_challenges_apart`].
pub proof fn lemma_challenges_are_kept_apart(
    circuit: Circuit,
    packed: Seq<F128>,
    public: Seq<F128>,
    other: Seq<F128>,
    spec: ChannelSpec,
    proof: ChannelProof,
    grinding: BatchedGrinding,
    oracle: Oracle,
    transcript: Seq<Event>,
    accepted: Accepted,
    also_accepted: Accepted,
)
    requires
        circuit.wf(),
        packed.len() == pow2(circuit.cells.vars as nat),
        forall|g: int|
            0 <= g < spec.lhs@.len() ==> dead_rows_zero(#[trigger] spec.lhs@[g], circuit, packed),
        forall|g: int|
            0 <= g < spec.rhs@.len() ==> dead_rows_zero(#[trigger] spec.rhs@[g], circuit, packed),
        channel_verdict(circuit, public, spec, proof, grinding, oracle, transcript) == Ok::<
            Accepted,
            ChannelError,
        >(accepted),
        channel_verdict(circuit, other, spec, proof, grinding, oracle, transcript) == Ok::<
            Accepted,
            ChannelError,
        >(also_accepted),
        forall|i: int|
            0 <= i < proof.gather@.len() ==> #[trigger] proof.gather@[i] == mle(
                packed,
                channel_claim_points(spec, circuit, accepted.rho.take(circuit.cells.nu as int))[i],
            ),
        forall|i: int|
            0 <= i < proof.gather@.len() ==> #[trigger] proof.gather@[i] == mle(
                packed,
                channel_claim_points(
                    spec,
                    circuit,
                    also_accepted.rho.take(circuit.cells.nu as int),
                )[i],
            ),
    ensures
        ({
            let (one, two) = (accepted.output, also_accepted.output);
            let (pushed, pulled) = (
                side_tuples(spec.lhs@, circuit, packed, other),
                side_tuples(spec.rhs@, circuit, packed, other),
            );
            let (top_lhs, top_rhs) = (
                grand_product(
                    side_tuples(spec.lhs@, circuit, packed, public),
                    one.alpha,
                    one.beta,
                ),
                grand_product(
                    side_tuples(spec.rhs@, circuit, packed, public),
                    one.alpha,
                    one.beta,
                ),
            );
            ||| channel_escapes(
                circuit,
                packed,
                public,
                spec,
                proof,
                grinding,
                oracle,
                transcript,
            )
            ||| channel_escapes(
                circuit,
                packed,
                other,
                spec,
                proof,
                grinding,
                oracle,
                transcript,
            )
            ||| {
                &&& top_lhs == grand_product(pushed, two.alpha, two.beta)
                &&& top_rhs == grand_product(pulled, two.alpha, two.beta)
                &&& level(pushed, top_lhs).contains((two.alpha, two.beta))
                &&& level(pulled, top_rhs).contains((two.alpha, two.beta))
            }
        }),
{
    lemma_accepted_channel_is_sound(
        circuit,
        packed,
        public,
        spec,
        proof,
        grinding,
        oracle,
        transcript,
        accepted,
    );
    lemma_accepted_channel_is_sound(
        circuit,
        packed,
        other,
        spec,
        proof,
        grinding,
        oracle,
        transcript,
        also_accepted,
    );
}

} // verus!
