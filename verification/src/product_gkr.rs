//! The product argument: two grand products over a Boolean cube, reduced to
//! one evaluation of each table.
//!
//! Each table is halved by multiplying its lower half into its upper half, until
//! its product is left. The argument walks back down: a claim on the extension
//! of a halved table becomes, by a sumcheck over both sides at once, a claim on
//! the extension of the table that was halved.

use crate::challenger::{
    draw, drawn, redraw, transcript_after_draw, BatchedGrinding, Challenger, Event, Oracle,
};
use crate::field::{
    lemma_add_zero, lemma_mul_associates, lemma_mul_commutes, lemma_mul_distributes, lemma_mul_one,
    F128,
};
use crate::multilinear::{
    build_eq, eq, eq_points, eq_table, lemma_mle_halves, lemma_mle_of_eq_table, lemma_mle_single,
    line, mle,
};
use crate::sumcheck::{
    honest_rounds, lemma_honest_rounds_agree, lemma_rounds_bind, prove_rounds, run_rounds,
    transcript_after_rounds, verify_rounds, LayerSum, RoundProof, SumcheckState, Tables,
};
use crate::sums::{
    lemma_product_concatenates, lemma_product_of_products, lemma_sum_adds, lemma_sum_scales,
    product, sum,
};
use vstd::arithmetic::power2::{lemma2_to64, lemma_pow2_unfold, pow2};
use vstd::prelude::*;

verus! {

/// One layer: a sumcheck, the values of the four half tables at its point and
/// the nonces behind the layer's own challenges.
#[derive(Clone, Debug, PartialEq, Eq)]
pub struct LayerProof {
    pub lambda_nonce: Option<u64>,
    pub rounds: Vec<RoundProof>,
    pub lhs_low: F128,
    pub lhs_high: F128,
    pub rhs_low: F128,
    pub rhs_high: F128,
    pub tau_nonce: Option<u64>,
}

/// The two products and a layer for each coordinate.
#[derive(Clone, Debug, PartialEq, Eq)]
pub struct PlainGkrProof {
    pub top_lhs: F128,
    pub top_rhs: F128,
    pub layers: Vec<LayerProof>,
}

/// What is left of the two products: an evaluation of each table.
#[derive(Clone, Debug, PartialEq, Eq)]
pub struct PlainGkrClaim {
    pub rho: Vec<F128>,
    pub l_eval: F128,
    pub r_eval: F128,
}

/// Why a product argument was rejected.
#[derive(Clone, Copy, Debug, PartialEq, Eq, Structural)]
pub enum VerifyError {
    /// The wrong number of layers, or a layer with the wrong number of rounds.
    Malformed,
    /// A grinding witness was missing, superfluous or wrong.
    InvalidGrinding,
    /// A layer's values do not multiply to what its sumcheck left.
    LayerMismatch,
}

/// A verifier between two layers.
pub struct GkrState {
    pub point: Seq<F128>,
    pub lhs: F128,
    pub rhs: F128,
    pub transcript: Seq<Event>,
}

/// One layer.
pub open spec fn layer_step(
    oracle: Oracle,
    bits: u32,
    state: GkrState,
    layer: LayerProof,
) -> Result<GkrState, VerifyError> {
    match drawn(oracle, state.transcript, bits, layer.lambda_nonce) {
        None => Err(VerifyError::InvalidGrinding),
        Some((lambda, weighted)) => {
            let claimed = SumcheckState {
                claim: state.lhs + lambda * state.rhs,
                point: Seq::empty(),
                transcript: weighted,
            };
            match run_rounds(oracle, bits, claimed, layer.rounds@) {
                None => Err(VerifyError::InvalidGrinding),
                Some(end) => {
                    let sent = end.transcript.push(Event::Value(layer.lhs_low)).push(
                        Event::Value(layer.lhs_high),
                    ).push(Event::Value(layer.rhs_low)).push(Event::Value(layer.rhs_high));
                    if eq_points(state.point, end.point) * (layer.lhs_low * layer.lhs_high + lambda
                        * (layer.rhs_low * layer.rhs_high)) != end.claim {
                        Err(VerifyError::LayerMismatch)
                    } else {
                        match drawn(oracle, sent, bits, layer.tau_nonce) {
                            None => Err(VerifyError::InvalidGrinding),
                            Some((tau, transcript)) => Ok(
                                GkrState {
                                    point: end.point.push(tau),
                                    lhs: line(layer.lhs_low, layer.lhs_high, tau),
                                    rhs: line(layer.rhs_low, layer.rhs_high, tau),
                                    transcript,
                                },
                            ),
                        }
                    }
                },
            }
        },
    }
}

/// The layers in order.
pub open spec fn run_layers(
    oracle: Oracle,
    bits: u32,
    state: GkrState,
    layers: Seq<LayerProof>,
) -> Result<GkrState, VerifyError>
    decreases layers.len(),
{
    if layers.len() == 0 {
        Ok(state)
    } else {
        match run_layers(oracle, bits, state, layers.drop_last()) {
            Ok(before) => layer_step(oracle, bits, before, layers.last()),
            Err(error) => Err(error),
        }
    }
}

/// The transcript after a layer, up to where it fails; `None` if a failed proof
/// of work leaves it open.
pub open spec fn transcript_after_layer(
    oracle: Oracle,
    bits: u32,
    state: GkrState,
    layer: LayerProof,
) -> Option<Seq<Event>> {
    match drawn(oracle, state.transcript, bits, layer.lambda_nonce) {
        None => transcript_after_draw(oracle, state.transcript, bits, layer.lambda_nonce),
        Some((lambda, weighted)) => {
            let claimed = SumcheckState {
                claim: state.lhs + lambda * state.rhs,
                point: Seq::empty(),
                transcript: weighted,
            };
            match run_rounds(oracle, bits, claimed, layer.rounds@) {
                None => transcript_after_rounds(oracle, bits, claimed, layer.rounds@),
                Some(end) => {
                    let sent = end.transcript.push(Event::Value(layer.lhs_low)).push(
                        Event::Value(layer.lhs_high),
                    ).push(Event::Value(layer.rhs_low)).push(Event::Value(layer.rhs_high));
                    if eq_points(state.point, end.point) * (layer.lhs_low * layer.lhs_high + lambda
                        * (layer.rhs_low * layer.rhs_high)) != end.claim {
                        Some(sent)
                    } else {
                        transcript_after_draw(oracle, sent, bits, layer.tau_nonce)
                    }
                },
            }
        },
    }
}

/// The transcript after the layers, up to the one that fails; `None` if a failed
/// proof of work leaves it open.
pub open spec fn transcript_after_layers(
    oracle: Oracle,
    bits: u32,
    state: GkrState,
    layers: Seq<LayerProof>,
) -> Option<Seq<Event>>
    decreases layers.len(),
{
    if layers.len() == 0 {
        Some(state.transcript)
    } else {
        match run_layers(oracle, bits, state, layers.drop_last()) {
            Ok(before) => transcript_after_layer(oracle, bits, before, layers.last()),
            Err(_) => transcript_after_layers(oracle, bits, state, layers.drop_last()),
        }
    }
}

/// One layer for each coordinate, and in each a round for each coordinate of
/// the layer above.
pub open spec fn shaped(layers: Seq<LayerProof>, mu: nat) -> bool {
    &&& layers.len() == mu
    &&& forall|k: int| 0 <= k < mu ==> (#[trigger] layers[k]).rounds@.len() == k
}

/// What the verifier makes of a proof over `2^mu` entries.
pub open spec fn plain_verdict(
    oracle: Oracle,
    bits: u32,
    mu: nat,
    proof: PlainGkrProof,
    transcript: Seq<Event>,
) -> Result<GkrState, VerifyError> {
    if !shaped(proof.layers@, mu) {
        Err(VerifyError::Malformed)
    } else {
        run_layers(
            oracle,
            bits,
            top_state(proof, transcript),
            proof.layers@,
        )
    }
}

/// The transcript after a proof over `2^mu` entries, up to where it fails; `None`
/// if a failed proof of work leaves it open.
pub open spec fn transcript_after_product(
    oracle: Oracle,
    bits: u32,
    mu: nat,
    proof: PlainGkrProof,
    transcript: Seq<Event>,
) -> Option<Seq<Event>> {
    if !shaped(proof.layers@, mu) {
        Some(transcript)
    } else {
        transcript_after_layers(
            oracle,
            bits,
            top_state(proof, transcript),
            proof.layers@,
        )
    }
}

/// The lower half of a table times its upper half.
pub open spec fn halve(table: Seq<F128>) -> Seq<F128> {
    Seq::new(table.len() / 2, |i: int| table[i] * table[table.len() / 2 + i])
}

/// A table halved `depth` times.
pub open spec fn halved(table: Seq<F128>, depth: nat) -> Seq<F128>
    decreases depth,
{
    if depth == 0 {
        table
    } else {
        halve(halved(table, (depth - 1) as nat))
    }
}

/// The leaves of a grouped domain: `rows` rows for each group, the first
/// `lens[g]` of group `g` live, the others one.
pub open spec fn grouped(buffer: Seq<F128>, lens: Seq<usize>, rows: nat) -> Seq<F128> {
    Seq::new(
        buffer.len(),
        |x: int|
            if x % (rows as int) < lens[x / (rows as int)] {
                buffer[x]
            } else {
                F128::one()
            },
    )
}

/// Halving keeps the product.
proof fn lemma_halve_keeps_product(table: Seq<F128>)
    requires
        table.len() % 2 == 0,
    ensures
        product(halve(table)) == product(table),
{
    let n = table.len() / 2;
    let (low, high) = (table.take(n as int), table.skip(n as int));
    lemma_product_of_products(low, high);
    assert(halve(table) =~= Seq::new(low.len(), |i: int| low[i] * high[i]));
    lemma_product_concatenates(low, high);
    assert(low + high =~= table);
}

/// The last halving leaves the product.
pub proof fn lemma_halved(table: Seq<F128>, mu: nat, depth: nat)
    requires
        table.len() == pow2(mu),
        depth <= mu,
    ensures
        halved(table, depth).len() == pow2((mu - depth) as nat),
        product(halved(table, depth)) == product(table),
    decreases depth,
{
    if depth > 0 {
        lemma_halved(table, mu, (depth - 1) as nat);
        lemma_pow2_unfold((mu - depth + 1) as nat);
        lemma_halve_keeps_product(halved(table, (depth - 1) as nat));
    }
}

/// The product of one entry is the entry.
pub proof fn lemma_product_single(table: Seq<F128>)
    requires
        table.len() == 1,
    ensures
        product(table) == table[0],
{
    assert(table.drop_last().len() == 0);
    assert(product(table.drop_last()) == F128::one());
    lemma_mul_one(table[0]);
}

/// The sum that a layer proves: the halved tables' extensions, weighted.
pub proof fn lemma_layer_total(tables: LayerSum, lhs: Seq<F128>, rhs: Seq<F128>, point: Seq<F128>)
    requires
        lhs.len() == 2 * pow2(point.len()),
        rhs.len() == 2 * pow2(point.len()),
        tables.eq == eq_table(point),
        tables.lhs_low == lhs.take(pow2(point.len()) as int),
        tables.lhs_high == lhs.skip(pow2(point.len()) as int),
        tables.rhs_low == rhs.take(pow2(point.len()) as int),
        tables.rhs_high == rhs.skip(pow2(point.len()) as int),
    ensures
        tables.total(pow2(point.len())) == mle(halve(lhs), point) + tables.lambda * mle(
            halve(rhs),
            point,
        ),
{
    let n = pow2(point.len());
    let lambda = tables.lambda;
    let terms = |i: int| tables.term(i);
    let left = |i: int| eq(point, i) * halve(lhs)[i];
    let right = |i: int| eq(point, i) * halve(rhs)[i];
    let weighted = |i: int| lambda * right(i);
    assert forall|i: int| 0 <= i < n implies #[trigger] terms(i) == left(i) + weighted(i) by {
        let (e, p, q) = (eq(point, i), halve(lhs)[i], halve(rhs)[i]);
        lemma_mul_distributes(e, p, lambda * q);
        lemma_mul_associates(e, lambda, q);
        lemma_mul_commutes(e, lambda);
        lemma_mul_associates(lambda, e, q);
    }
    lemma_sum_adds(left, weighted, terms, n);
    lemma_sum_scales(lambda, right, weighted, n);
}

/// The sum that a layer over the tables `lhs` and `rhs` proves at `point`.
pub open spec fn layer_sum(
    lhs: Seq<F128>,
    rhs: Seq<F128>,
    point: Seq<F128>,
    lambda: F128,
) -> LayerSum {
    let n = pow2(point.len()) as int;
    LayerSum {
        eq: eq_table(point),
        lhs_low: lhs.take(n),
        lhs_high: lhs.skip(n),
        rhs_low: rhs.take(n),
        rhs_high: rhs.skip(n),
        lambda,
    }
}

/// A layer sends what a prover over the tables `lhs` and `rhs` sends: the rounds
/// of its sum, and the values of the four half tables at the point that they
/// bind.
pub open spec fn honest_layer(
    oracle: Oracle,
    bits: u32,
    state: GkrState,
    layer: LayerProof,
    lhs: Seq<F128>,
    rhs: Seq<F128>,
) -> bool {
    match drawn(oracle, state.transcript, bits, layer.lambda_nonce) {
        None => false,
        Some((lambda, transcript)) => {
            let sums = layer_sum(lhs, rhs, state.point, lambda);
            let claimed = SumcheckState {
                claim: state.lhs + lambda * state.rhs,
                point: Seq::empty(),
                transcript,
            };
            match run_rounds(oracle, bits, claimed, layer.rounds@) {
                None => false,
                Some(end) => {
                    &&& honest_rounds(sums, end.point, layer.rounds@)
                    &&& layer.lhs_low == mle(sums.lhs_low, end.point)
                    &&& layer.lhs_high == mle(sums.lhs_high, end.point)
                    &&& layer.rhs_low == mle(sums.rhs_low, end.point)
                    &&& layer.rhs_high == mle(sums.rhs_high, end.point)
                },
            }
        },
    }
}

/// Layer `k` of `mu` sends what a prover over the leaves `lhs` and `rhs` sends.
pub open spec fn honest_layer_at(
    oracle: Oracle,
    bits: u32,
    start: GkrState,
    layers: Seq<LayerProof>,
    lhs: Seq<F128>,
    rhs: Seq<F128>,
    mu: nat,
    k: int,
) -> bool {
    let depth = (mu - k - 1) as nat;
    match run_layers(oracle, bits, start, layers.take(k)) {
        Ok(state) => honest_layer(
            oracle,
            bits,
            state,
            layers[k],
            halved(lhs, depth),
            halved(rhs, depth),
        ),
        Err(_) => false,
    }
}

/// Every layer sends what a prover over the leaves `lhs` and `rhs` sends.
pub open spec fn honest_layers(
    oracle: Oracle,
    bits: u32,
    start: GkrState,
    layers: Seq<LayerProof>,
    lhs: Seq<F128>,
    rhs: Seq<F128>,
    mu: nat,
) -> bool {
    forall|k: int|
        0 <= k < layers.len() ==> #[trigger] honest_layer_at(
            oracle,
            bits,
            start,
            layers,
            lhs,
            rhs,
            mu,
            k,
        )
}

/// The state in which a verifier starts on the layers of a proof.
pub open spec fn top_state(proof: PlainGkrProof, transcript: Seq<Event>) -> GkrState {
    GkrState {
        point: Seq::empty(),
        lhs: proof.top_lhs,
        rhs: proof.top_rhs,
        transcript: transcript.push(Event::Value(proof.top_lhs)).push(
            Event::Value(proof.top_rhs),
        ),
    }
}

/// Two layers hold the same.
pub open spec fn same_layer(ours: LayerProof, theirs: LayerProof) -> bool {
    &&& ours.lambda_nonce == theirs.lambda_nonce
    &&& ours.rounds@ == theirs.rounds@
    &&& ours.lhs_low == theirs.lhs_low
    &&& ours.lhs_high == theirs.lhs_high
    &&& ours.rhs_low == theirs.rhs_low
    &&& ours.rhs_high == theirs.rhs_high
    &&& ours.tau_nonce == theirs.tau_nonce
}

/// Two product arguments hold the same.
pub open spec fn same_product(ours: PlainGkrProof, theirs: PlainGkrProof) -> bool {
    &&& ours.top_lhs == theirs.top_lhs
    &&& ours.top_rhs == theirs.top_rhs
    &&& ours.layers@.len() == theirs.layers@.len()
    &&& forall|k: int|
        0 <= k < ours.layers@.len() ==> same_layer(#[trigger] ours.layers@[k], theirs.layers@[k])
}

/// Without grinding, the tables and the state determine an honest layer.
proof fn lemma_honest_layer_agrees(
    oracle: Oracle,
    state: GkrState,
    ours: LayerProof,
    theirs: LayerProof,
    lhs: Seq<F128>,
    rhs: Seq<F128>,
)
    requires
        ours.rounds@.len() == theirs.rounds@.len(),
        honest_layer(oracle, 0, state, ours, lhs, rhs),
        honest_layer(oracle, 0, state, theirs, lhs, rhs),
        layer_step(oracle, 0, state, ours) is Ok,
        layer_step(oracle, 0, state, theirs) is Ok,
    ensures
        same_layer(ours, theirs),
        layer_step(oracle, 0, state, ours) == layer_step(oracle, 0, state, theirs),
{
    let (lambda, transcript) = drawn(oracle, state.transcript, 0, ours.lambda_nonce)->0;
    let claimed = SumcheckState {
        claim: state.lhs + lambda * state.rhs,
        point: Seq::empty(),
        transcript,
    };
    lemma_honest_rounds_agree(
        oracle,
        claimed,
        layer_sum(lhs, rhs, state.point, lambda),
        ours.rounds@,
        theirs.rounds@,
    );
}

proof fn lemma_honest_layers_agree(
    oracle: Oracle,
    start: GkrState,
    ours: Seq<LayerProof>,
    theirs: Seq<LayerProof>,
    lhs: Seq<F128>,
    rhs: Seq<F128>,
    mu: nat,
    n: int,
)
    requires
        0 <= n <= mu,
        shaped(ours, mu),
        shaped(theirs, mu),
        honest_layers(oracle, 0, start, ours, lhs, rhs, mu),
        honest_layers(oracle, 0, start, theirs, lhs, rhs, mu),
        run_layers(oracle, 0, start, ours) is Ok,
        run_layers(oracle, 0, start, theirs) is Ok,
    ensures
        run_layers(oracle, 0, start, ours.take(n)) == run_layers(oracle, 0, start, theirs.take(n)),
        forall|k: int| 0 <= k < n ==> same_layer(#[trigger] ours[k], theirs[k]),
    decreases n,
{
    if n > 0 {
        let i = n - 1;
        lemma_honest_layers_agree(oracle, start, ours, theirs, lhs, rhs, mu, i);
        assert(honest_layer_at(oracle, 0, start, ours, lhs, rhs, mu, i));
        assert(honest_layer_at(oracle, 0, start, theirs, lhs, rhs, mu, i));
        assert(ours.take(n).drop_last() =~= ours.take(i));
        assert(theirs.take(n).drop_last() =~= theirs.take(i));
        if run_layers(oracle, 0, start, ours.take(n)) is Err {
            lemma_layers_stay_failed(oracle, 0, start, ours, n);
        }
        if run_layers(oracle, 0, start, theirs.take(n)) is Err {
            lemma_layers_stay_failed(oracle, 0, start, theirs, n);
        }
        let state = run_layers(oracle, 0, start, ours.take(i))->Ok_0;
        let depth = (mu - i - 1) as nat;
        lemma_honest_layer_agrees(
            oracle,
            state,
            ours[i],
            theirs[i],
            halved(lhs, depth),
            halved(rhs, depth),
        );
    }
}

/// Without grinding, the leaves and the transcript determine an honest product
/// argument, and what it leaves.
pub proof fn lemma_honest_products_agree(
    oracle: Oracle,
    ours: PlainGkrProof,
    theirs: PlainGkrProof,
    lhs: Seq<F128>,
    rhs: Seq<F128>,
    mu: nat,
    transcript: Seq<Event>,
)
    requires
        ours.top_lhs == theirs.top_lhs,
        ours.top_rhs == theirs.top_rhs,
        plain_verdict(oracle, 0, mu, ours, transcript) is Ok,
        plain_verdict(oracle, 0, mu, theirs, transcript) is Ok,
        honest_layers(oracle, 0, top_state(ours, transcript), ours.layers@, lhs, rhs, mu),
        honest_layers(oracle, 0, top_state(theirs, transcript), theirs.layers@, lhs, rhs, mu),
    ensures
        same_product(ours, theirs),
        plain_verdict(oracle, 0, mu, ours, transcript) == plain_verdict(
            oracle,
            0,
            mu,
            theirs,
            transcript,
        ),
{
    let (l, r) = (ours.layers@, theirs.layers@);
    lemma_honest_layers_agree(
        oracle,
        top_state(ours, transcript),
        l,
        r,
        lhs,
        rhs,
        mu,
        mu as int,
    );
    assert(l.take(mu as int) =~= l);
    assert(r.take(mu as int) =~= r);
}

/// The product of lower and upper half.
fn halve_table(table: &Vec<F128>) -> (half: Vec<F128>)
    ensures
        half@ == halve(table@),
{
    let n: usize = table.len() / 2;
    let mut half: Vec<F128> = Vec::new();
    let mut i: usize = 0;
    while i < n
        invariant
            i <= n,
            n == table@.len() / 2,
            2 * n <= usize::MAX,
            half@.len() == i,
            forall|k: int| 0 <= k < i ==> #[trigger] half@[k] == table@[k] * table@[n + k],
        decreases n - i,
    {
        half.push(table[i] * table[n + i]);
        i = i + 1;
    }
    assert(half@ =~= halve(table@));
    half
}

/// A table and its halvings, down to its product.
fn tower(table: Vec<F128>, mu: usize) -> (tables: Vec<Vec<F128>>)
    requires
        table@.len() == pow2(mu as nat),
    ensures
        tables@.len() == mu + 1,
        forall|d: int| 0 <= d <= mu ==> (#[trigger] tables@[d])@ == halved(table@, d as nat),
{
    let ghost leaves = table@;
    let mut tables: Vec<Vec<F128>> = Vec::new();
    tables.push(table);
    let mut depth: usize = 0;
    while depth < mu
        invariant
            depth <= mu,
            tables@.len() == depth + 1,
            forall|d: int| 0 <= d <= depth ==> (#[trigger] tables@[d])@ == halved(leaves, d as nat),
        decreases mu - depth,
    {
        let next = halve_table(&tables[depth]);
        tables.push(next);
        depth = depth + 1;
        proof {
            assert(tables@[depth as int]@ == halved(leaves, depth as nat));
        }
    }
    tables
}

/// The equality polynomial of two points.
fn eval_eq(p: &[F128], q: &[F128]) -> (value: F128)
    requires
        p@.len() == q@.len(),
    ensures
        value == eq_points(p@, q@),
{
    let mut value = F128::one();
    let mut i: usize = p.len();
    proof {
        assert(p@.skip(i as int).len() == 0);
    }
    while i > 0
        invariant
            i <= p@.len(),
            p@.len() == q@.len(),
            value == eq_points(p@.skip(i as int), q@.skip(i as int)),
        decreases i,
    {
        i = i - 1;
        value = ((F128::one() + p[i]) + q[i]) * value;
        proof {
            assert(p@.skip(i as int).drop_first() =~= p@.skip(i + 1));
            assert(q@.skip(i as int).drop_first() =~= q@.skip(i + 1));
        }
    }
    assert(p@.skip(0) =~= p@);
    assert(q@.skip(0) =~= q@);
    value
}

/// Proves one layer: from the extensions of the halved tables at `point` to
/// those of the tables at the returned point.
fn prove_layer<C: Challenger>(
    lhs: &Vec<F128>,
    rhs: &Vec<F128>,
    point: &Vec<F128>,
    bits: u32,
    ch: &mut C,
) -> (proved: (LayerProof, PlainGkrClaim))
    requires
        lhs@.len() == 2 * pow2(point@.len()),
        rhs@.len() == 2 * pow2(point@.len()),
    ensures
        final(ch).oracle() == old(ch).oracle(),
        proved.0.rounds@.len() == point@.len(),
        proved.1.rho@.len() == point@.len() + 1,
        proved.1.l_eval == mle(lhs@, proved.1.rho@),
        proved.1.r_eval == mle(rhs@, proved.1.rho@),
        honest_layer(
            old(ch).oracle(),
            bits,
            (GkrState {
                point: point@,
                lhs: mle(halve(lhs@), point@),
                rhs: mle(halve(rhs@), point@),
                transcript: old(ch).transcript(),
            }),
            proved.0,
            lhs@,
            rhs@,
        ),
        layer_step(
            old(ch).oracle(),
            bits,
            (GkrState {
                point: point@,
                lhs: mle(halve(lhs@), point@),
                rhs: mle(halve(rhs@), point@),
                transcript: old(ch).transcript(),
            }),
            proved.0,
        ) == Ok::<GkrState, VerifyError>(
            (GkrState {
                point: proved.1.rho@,
                lhs: proved.1.l_eval,
                rhs: proved.1.r_eval,
                transcript: final(ch).transcript(),
            }),
        ),
{
    let half: usize = lhs.len() / 2;
    let (lambda_nonce, lambda) = draw(ch, bits);
    let tables = Tables {
        eq: build_eq(point.as_slice()),
        lhs_low: vstd::slice::slice_to_vec(vstd::slice::slice_subrange(lhs.as_slice(), 0, half)),
        lhs_high: vstd::slice::slice_to_vec(
            vstd::slice::slice_subrange(lhs.as_slice(), half, lhs.len()),
        ),
        rhs_low: vstd::slice::slice_to_vec(vstd::slice::slice_subrange(rhs.as_slice(), 0, half)),
        rhs_high: vstd::slice::slice_to_vec(
            vstd::slice::slice_subrange(rhs.as_slice(), half, rhs.len()),
        ),
        lambda,
    };
    let ghost (l0, l1) = (tables.lhs_low@, tables.lhs_high@);
    let ghost (r0, r1) = (tables.rhs_low@, tables.rhs_high@);
    proof {
        assert(l0 =~= lhs@.take(half as int));
        assert(l1 =~= lhs@.skip(half as int));
        assert(r0 =~= rhs@.take(half as int));
        assert(r1 =~= rhs@.skip(half as int));
        assert(tables@ =~= layer_sum(lhs@, rhs@, point@, lambda));
        lemma_layer_total(tables@, lhs@, rhs@, point@);
        lemma_mle_of_eq_table(point@, point@);
    }
    let ghost first = tables;
    let (rounds, bound, end) = prove_rounds(tables, point.len(), bits, ch);
    let (lhs_low, lhs_high) = (end.lhs_low[0], end.lhs_high[0]);
    let (rhs_low, rhs_high) = (end.rhs_low[0], end.rhs_high[0]);
    ch.observe_f128(lhs_low);
    ch.observe_f128(lhs_high);
    ch.observe_f128(rhs_low);
    ch.observe_f128(rhs_high);
    let (tau_nonce, tau) = draw(ch, bits);
    let mut rho = bound;
    proof {
        lemma_mle_of_eq_table(point@, bound@);
        let terms = |i: int| end@.term(i);
        assert(sum(terms, 1) == sum(terms, 0) + terms(0));
        lemma_add_zero(end@.term(0));
        lemma_mle_halves(l0, l1, bound@, tau);
        lemma_mle_halves(r0, r1, bound@, tau);
        assert(l0 + l1 =~= lhs@);
        assert(r0 + r1 =~= rhs@);
    }
    rho.push(tau);
    let l_eval = lhs_low + tau * (lhs_low + lhs_high);
    let r_eval = rhs_low + tau * (rhs_low + rhs_high);
    (
        LayerProof { lambda_nonce, rounds, lhs_low, lhs_high, rhs_low, rhs_high, tau_nonce },
        PlainGkrClaim { rho, l_eval, r_eval },
    )
}

/// The leaves of a grouped domain, with its dead rows written as ones.
fn fill_dead_rows(buffer: Vec<F128>, lens: &Vec<usize>, rows: usize) -> (leaves: Vec<F128>)
    requires
        rows > 0,
        buffer@.len() == rows * lens@.len(),
    ensures
        leaves@ == grouped(buffer@, lens@, rows as nat),
{
    let ghost given = buffer@;
    let mut leaves = buffer;
    assert(leaves.len() == given.len());
    let mut g: usize = 0;
    let mut x: usize = 0;
    while g < lens.len()
        invariant
            g <= lens@.len(),
            rows > 0,
            x == rows * g,
            given.len() == rows * lens@.len(),
            leaves@.len() == given.len() <= usize::MAX,
            forall|y: int| 0 <= y < x ==> #[trigger] leaves@[y] == grouped(
                given,
                lens@,
                rows as nat,
            )[y],
            forall|y: int| x <= y < given.len() ==> #[trigger] leaves@[y] == given[y],
        decreases lens@.len() - g,
    {
        let len: usize = lens[g];
        let mut j: usize = 0;
        assert(rows * (g + 1) == rows * g + rows) by (nonlinear_arith);
        assert(rows * (g + 1) <= rows * lens@.len()) by (nonlinear_arith)
            requires
                g + 1 <= lens@.len(),
                rows > 0,
        ;
        while j < rows
            invariant
                j <= rows,
                g < lens@.len(),
                len == lens@[g as int],
                rows > 0,
                x == rows * g + j,
                rows * g + rows <= given.len(),
                leaves@.len() == given.len() <= usize::MAX,
                forall|y: int| 0 <= y < x ==> #[trigger] leaves@[y] == grouped(
                    given,
                    lens@,
                    rows as nat,
                )[y],
                forall|y: int| x <= y < given.len() ==> #[trigger] leaves@[y] == given[y],
            decreases rows - j,
        {
            assert(x as int / rows as int == g && x as int % rows as int == j) by (nonlinear_arith)
                requires
                    x == rows * g + j,
                    0 <= j < rows,
            ;
            if j >= len {
                leaves.set(x, F128::one());
            }
            x = x + 1;
            j = j + 1;
        }
        g = g + 1;
    }
    assert(leaves@ =~= grouped(given, lens@, rows as nat));
    leaves
}

/// Proves the products of two grouped domains of `2^mu` entries.
pub fn prove_plain_grouped<C: Challenger>(
    lhs: Vec<F128>,
    lens_l: &Vec<usize>,
    rhs: Vec<F128>,
    lens_r: &Vec<usize>,
    rows: usize,
    mu: usize,
    grinding: BatchedGrinding,
    ch: &mut C,
) -> (proved: (PlainGkrProof, PlainGkrClaim))
    requires
        rows > 0,
        lhs@.len() == pow2(mu as nat),
        rhs@.len() == pow2(mu as nat),
        rows * lens_l@.len() == pow2(mu as nat),
        rows * lens_r@.len() == pow2(mu as nat),
    ensures
        final(ch).oracle() == old(ch).oracle(),
        proved.0.top_lhs == product(grouped(lhs@, lens_l@, rows as nat)),
        proved.0.top_rhs == product(grouped(rhs@, lens_r@, rows as nat)),
        proved.1.rho@.len() == mu,
        proved.1.l_eval == mle(grouped(lhs@, lens_l@, rows as nat), proved.1.rho@),
        proved.1.r_eval == mle(grouped(rhs@, lens_r@, rows as nat), proved.1.rho@),
        honest_layers(
            old(ch).oracle(),
            grinding.round_bits,
            top_state(proved.0, old(ch).transcript()),
            proved.0.layers@,
            grouped(lhs@, lens_l@, rows as nat),
            grouped(rhs@, lens_r@, rows as nat),
            mu as nat,
        ),
        plain_verdict(
            old(ch).oracle(),
            grinding.round_bits,
            mu as nat,
            proved.0,
            old(ch).transcript(),
        ) == Ok::<GkrState, VerifyError>(
            (GkrState {
                point: proved.1.rho@,
                lhs: proved.1.l_eval,
                rhs: proved.1.r_eval,
                transcript: final(ch).transcript(),
            }),
        ),
{
    let bits: u32 = grinding.round_bits;
    let ghost oracle = ch.oracle();
    let left = fill_dead_rows(lhs, lens_l, rows);
    let right = fill_dead_rows(rhs, lens_r, rows);
    let ghost (l, r) = (left@, right@);
    let lhs_tower = tower(left, mu);
    let rhs_tower = tower(right, mu);
    proof {
        lemma2_to64();
        lemma_halved(l, mu as nat, mu as nat);
        lemma_halved(r, mu as nat, mu as nat);
        lemma_product_single(halved(l, mu as nat));
        lemma_product_single(halved(r, mu as nat));
        assert(lhs_tower@[mu as int]@ == halved(l, mu as nat));
        assert(rhs_tower@[mu as int]@ == halved(r, mu as nat));
    }
    let top_lhs = lhs_tower[mu][0];
    let top_rhs = rhs_tower[mu][0];
    ch.observe_f128(top_lhs);
    ch.observe_f128(top_rhs);
    let ghost start = GkrState {
        point: Seq::empty(),
        lhs: top_lhs,
        rhs: top_rhs,
        transcript: ch.transcript(),
    };
    let mut claim = PlainGkrClaim { rho: Vec::new(), l_eval: top_lhs, r_eval: top_rhs };
    let mut layers: Vec<LayerProof> = Vec::new();
    proof {
        assert(claim.rho@ =~= Seq::empty());
        lemma_mle_single(halved(l, mu as nat), claim.rho@);
        lemma_mle_single(halved(r, mu as nat), claim.rho@);
    }
    let mut k: usize = 0;
    while k < mu
        invariant
            k <= mu,
            l.len() == pow2(mu as nat),
            r.len() == pow2(mu as nat),
            lhs_tower@.len() == mu + 1,
            rhs_tower@.len() == mu + 1,
            forall|d: int| 0 <= d <= mu ==> (#[trigger] lhs_tower@[d])@ == halved(l, d as nat),
            forall|d: int| 0 <= d <= mu ==> (#[trigger] rhs_tower@[d])@ == halved(r, d as nat),
            ch.oracle() == oracle,
            claim.rho@.len() == k,
            claim.l_eval == mle(halved(l, (mu - k) as nat), claim.rho@),
            claim.r_eval == mle(halved(r, (mu - k) as nat), claim.rho@),
            layers@.len() == k,
            forall|i: int| 0 <= i < k ==> (#[trigger] layers@[i]).rounds@.len() == i,
            honest_layers(oracle, bits, start, layers@, l, r, mu as nat),
            run_layers(oracle, bits, start, layers@) == Ok::<GkrState, VerifyError>(
                (GkrState {
                    point: claim.rho@,
                    lhs: claim.l_eval,
                    rhs: claim.r_eval,
                    transcript: ch.transcript(),
                }),
            ),
        decreases mu - k,
    {
        let depth: usize = mu - k - 1;
        let (lhs_table, rhs_table) = (&lhs_tower[depth], &rhs_tower[depth]);
        proof {
            lemma_halved(l, mu as nat, depth as nat);
            lemma_halved(r, mu as nat, depth as nat);
            lemma_pow2_unfold((k + 1) as nat);
            assert(halved(l, (mu - k) as nat) == halve(halved(l, depth as nat)));
            assert(halved(r, (mu - k) as nat) == halve(halved(r, depth as nat)));
        }
        let (layer, next) = prove_layer(lhs_table, rhs_table, &claim.rho, bits, ch);
        let ghost before = layers@;
        layers.push(layer);
        claim = next;
        proof {
            assert(layers@.drop_last() =~= before);
            assert forall|i: int| 0 <= i < layers@.len() implies #[trigger] honest_layer_at(
                oracle,
                bits,
                start,
                layers@,
                l,
                r,
                mu as nat,
                i,
            ) by {
                if i < before.len() {
                    assert(honest_layer_at(oracle, bits, start, before, l, r, mu as nat, i));
                    assert(layers@.take(i) =~= before.take(i));
                } else {
                    assert(layers@.take(i) =~= before);
                }
            }
        }
        k = k + 1;
    }
    (PlainGkrProof { top_lhs, top_rhs, layers }, claim)
}

/// Once a layer fails the argument has failed, with that layer's error.
proof fn lemma_layers_stay_failed(
    oracle: Oracle,
    bits: u32,
    state: GkrState,
    layers: Seq<LayerProof>,
    n: int,
)
    requires
        0 <= n <= layers.len(),
        run_layers(oracle, bits, state, layers.take(n)) is Err,
    ensures
        run_layers(oracle, bits, state, layers) == run_layers(oracle, bits, state, layers.take(n)),
        transcript_after_layers(oracle, bits, state, layers) == transcript_after_layers(
            oracle,
            bits,
            state,
            layers.take(n),
        ),
    decreases layers.len() - n,
{
    if n == layers.len() {
        assert(layers.take(n) =~= layers);
    } else {
        assert(layers.take(n + 1).drop_last() =~= layers.take(n));
        lemma_layers_stay_failed(oracle, bits, state, layers, n + 1);
    }
}

/// Whether a proof has a layer for each coordinate and each layer its rounds.
fn check_shape(layers: &Vec<LayerProof>, mu: usize) -> (ok: bool)
    ensures
        ok == shaped(layers@, mu as nat),
{
    if layers.len() != mu {
        return false;
    }
    let mut k: usize = 0;
    while k < mu
        invariant
            k <= mu,
            layers@.len() == mu,
            forall|i: int| 0 <= i < k ==> (#[trigger] layers@[i]).rounds@.len() == i,
        decreases mu - k,
    {
        if layers[k].rounds.len() != k {
            return false;
        }
        k = k + 1;
    }
    true
}

/// Replays one layer.
fn verify_layer<C: Challenger>(
    claim: &PlainGkrClaim,
    layer: &LayerProof,
    bits: u32,
    ch: &mut C,
) -> (next: Result<PlainGkrClaim, VerifyError>)
    requires
        layer.rounds@.len() == claim.rho@.len(),
    ensures
        final(ch).oracle() == old(ch).oracle(),
        match layer_step(
            old(ch).oracle(),
            bits,
            (GkrState {
                point: claim.rho@,
                lhs: claim.l_eval,
                rhs: claim.r_eval,
                transcript: old(ch).transcript(),
            }),
            *layer,
        ) {
            Ok(state) => {
                &&& next is Ok
                &&& next->Ok_0.rho@ == state.point
                &&& next->Ok_0.rho@.len() == claim.rho@.len() + 1
                &&& next->Ok_0.l_eval == state.lhs
                &&& next->Ok_0.r_eval == state.rhs
                &&& final(ch).transcript() == state.transcript
            },
            Err(error) => next == Err::<PlainGkrClaim, VerifyError>(error),
        },
        transcript_after_layer(
            old(ch).oracle(),
            bits,
            (GkrState {
                point: claim.rho@,
                lhs: claim.l_eval,
                rhs: claim.r_eval,
                transcript: old(ch).transcript(),
            }),
            *layer,
        ) matches Some(after) ==> final(ch).transcript() == after,
{
    let lambda = match redraw(ch, bits, layer.lambda_nonce) {
        Some(lambda) => lambda,
        None => return Err(VerifyError::InvalidGrinding),
    };
    let ghost claimed = SumcheckState {
        claim: claim.l_eval + lambda * claim.r_eval,
        point: Seq::empty(),
        transcript: ch.transcript(),
    };
    proof {
        lemma_rounds_bind(ch.oracle(), bits, claimed, layer.rounds@);
    }
    let (left, bound) = match verify_rounds(
        claim.l_eval + lambda * claim.r_eval,
        &layer.rounds,
        bits,
        ch,
    ) {
        Some(end) => end,
        None => return Err(VerifyError::InvalidGrinding),
    };
    ch.observe_f128(layer.lhs_low);
    ch.observe_f128(layer.lhs_high);
    ch.observe_f128(layer.rhs_low);
    ch.observe_f128(layer.rhs_high);
    let products = layer.lhs_low * layer.lhs_high + lambda * (layer.rhs_low * layer.rhs_high);
    if eval_eq(claim.rho.as_slice(), bound.as_slice()) * products != left {
        return Err(VerifyError::LayerMismatch);
    }
    let tau = match redraw(ch, bits, layer.tau_nonce) {
        Some(tau) => tau,
        None => return Err(VerifyError::InvalidGrinding),
    };
    let mut rho = bound;
    rho.push(tau);
    Ok(
        PlainGkrClaim {
            rho,
            l_eval: layer.lhs_low + tau * (layer.lhs_low + layer.lhs_high),
            r_eval: layer.rhs_low + tau * (layer.rhs_low + layer.rhs_high),
        },
    )
}

/// Replays a product argument over `2^mu` entries.
pub fn verify_plain<C: Challenger>(
    mu: usize,
    proof: &PlainGkrProof,
    grinding: BatchedGrinding,
    ch: &mut C,
) -> (claim: Result<PlainGkrClaim, VerifyError>)
    ensures
        final(ch).oracle() == old(ch).oracle(),
        match plain_verdict(
            old(ch).oracle(),
            grinding.round_bits,
            mu as nat,
            *proof,
            old(ch).transcript(),
        ) {
            Ok(state) => {
                &&& claim is Ok
                &&& claim->Ok_0.rho@ == state.point
                &&& claim->Ok_0.rho@.len() == mu
                &&& claim->Ok_0.l_eval == state.lhs
                &&& claim->Ok_0.r_eval == state.rhs
                &&& final(ch).transcript() == state.transcript
            },
            Err(error) => claim == Err::<PlainGkrClaim, VerifyError>(error),
        },
        transcript_after_product(
            old(ch).oracle(),
            grinding.round_bits,
            mu as nat,
            *proof,
            old(ch).transcript(),
        ) matches Some(after) ==> final(ch).transcript() == after,
{
    let bits: u32 = grinding.round_bits;
    if !check_shape(&proof.layers, mu) {
        return Err(VerifyError::Malformed);
    }
    let ghost oracle = ch.oracle();
    ch.observe_f128(proof.top_lhs);
    ch.observe_f128(proof.top_rhs);
    let ghost start = GkrState {
        point: Seq::empty(),
        lhs: proof.top_lhs,
        rhs: proof.top_rhs,
        transcript: ch.transcript(),
    };
    let mut claim = PlainGkrClaim {
        rho: Vec::new(),
        l_eval: proof.top_lhs,
        r_eval: proof.top_rhs,
    };
    proof {
        assert(claim.rho@ =~= Seq::empty());
        assert(proof.layers@.take(0) =~= Seq::empty());
    }
    let mut k: usize = 0;
    while k < mu
        invariant
            k <= mu,
            shaped(proof.layers@, mu as nat),
            ch.oracle() == oracle,
            oracle == old(ch).oracle(),
            bits == grinding.round_bits,
            plain_verdict(oracle, bits, mu as nat, *proof, old(ch).transcript()) == run_layers(
                oracle,
                bits,
                start,
                proof.layers@,
            ),
            transcript_after_product(oracle, bits, mu as nat, *proof, old(ch).transcript())
                == transcript_after_layers(oracle, bits, start, proof.layers@),
            claim.rho@.len() == k,
            run_layers(oracle, bits, start, proof.layers@.take(k as int)) == Ok::<
                GkrState,
                VerifyError,
            >(
                (GkrState {
                    point: claim.rho@,
                    lhs: claim.l_eval,
                    rhs: claim.r_eval,
                    transcript: ch.transcript(),
                }),
            ),
        decreases mu - k,
    {
        proof {
            assert(proof.layers@.take(k + 1).drop_last() =~= proof.layers@.take(k as int));
            assert(proof.layers@[k as int].rounds@.len() == k);
        }
        match verify_layer(&claim, &proof.layers[k], bits, ch) {
            Ok(next) => {
                claim = next;
            },
            Err(error) => {
                proof {
                    lemma_layers_stay_failed(oracle, bits, start, proof.layers@, k + 1);
                }
                return Err(error);
            },
        }
        k = k + 1;
    }
    assert(proof.layers@.take(mu as int) =~= proof.layers@);
    Ok(claim)
}

} // verus!
