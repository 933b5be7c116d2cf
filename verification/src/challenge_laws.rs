//! Where challenges come from and how much work stands behind them, in plain
//! terms.

use crate::balance::lemma_side_tuples_count;
use crate::challenger::{
    ceil_log2, drawn, lemma_ceil_log2, samples, BatchedGrinding, CoinTape, Event, Oracle,
};
use crate::channel::{
    lemma_domain, lemma_larger_side_fits, side_live, ChannelChallenge, ChannelError, ChannelProof,
    ChannelSource, ChannelSpec,
};
use crate::circuit::Circuit;
use crate::field::F128;
use crate::fingerprint_challenge::{channel_challenge, domain_channel, fingerprint_bits};
use crate::tuples::side_tuples;
use crate::verify::{channel_verdict, Accepted};
use vstd::arithmetic::power2::{
    lemma2_to64, lemma_pow2_adds, lemma_pow2_pos, lemma_pow2_strictly_increases, pow2,
};
use vstd::prelude::*;

verus! {

/// What a draw leaves in a transcript: the nonce where work is asked for, then
/// the squeeze.
pub open spec fn draw_events(bits: u32, nonce: Option<u64>) -> Seq<Event> {
    if bits == 0 {
        seq![Event::Sample]
    } else {
        seq![Event::Work { nonce: nonce->0, bits }, Event::Sample]
    }
}

/// A challenge that is drawn is the oracle's answer to everything before it, its
/// own nonce included. It is drawn exactly when there is no nonce and no work is
/// asked for, or there is one that solves the work.
pub proof fn lemma_draw_is_a_fresh_squeeze(
    oracle: Oracle,
    transcript: Seq<Event>,
    bits: u32,
    nonce: Option<u64>,
)
    ensures
        drawn(oracle, transcript, bits, nonce) matches Some((x, after)) ==> {
            &&& after == transcript + draw_events(bits, nonce)
            &&& x == (oracle.squeeze)(after.drop_last())
        },
        drawn(oracle, transcript, bits, nonce) is Some <==> if bits == 0 {
            nonce is None
        } else {
            nonce is Some && (oracle.solves)(transcript, nonce->0, bits)
        },
{
    if let Some((x, after)) = drawn(oracle, transcript, bits, nonce) {
        assert(after =~= transcript + draw_events(bits, nonce));
        if bits == 0 {
            assert(after.drop_last() =~= transcript);
        } else {
            assert(after.drop_last() =~= transcript.push(Event::Work { nonce: nonce->0, bits }));
        }
    }
}

/// The characters of the label that opens a channel's transcript.
pub open spec fn label() -> Seq<u8> {
    "flock-channel-v0"@.map_values(|c: char| c as u8)
}

/// The transcript opens with the label.
pub proof fn lemma_label()
    ensures
        domain_channel() == label(),
{
    reveal_strlit("flock-channel-v0");
    assert(domain_channel() =~= label());
}

/// A sampled challenge is two squeezes, the second one squeeze after the first:
/// `alpha` is the oracle's answer after the label, and after the nonce where
/// work is asked for; `beta` is its answer once `alpha` was squeezed.
pub proof fn lemma_sampled_challenge_is_two_squeezes(
    oracle: Oracle,
    transcript: Seq<Event>,
    public: Seq<F128>,
    bits: u32,
    nonce: Option<u64>,
)
    ensures
        channel_challenge(
            oracle,
            transcript,
            ChannelChallenge::Sampled,
            public,
            bits,
            nonce,
        ) matches Some((alpha, beta, after)) ==> {
            let first = transcript.push(Event::Label(label())) + draw_events(bits, nonce);
            &&& alpha == (oracle.squeeze)(first.drop_last())
            &&& beta == (oracle.squeeze)(first)
            &&& after == first.push(Event::Sample)
        },
        channel_challenge(
            oracle,
            transcript,
            ChannelChallenge::Sampled,
            public,
            bits,
            nonce,
        ) is Some <==> if bits == 0 {
            nonce is None
        } else {
            nonce is Some && (oracle.solves)(
                transcript.push(Event::Label(label())),
                nonce->0,
                bits,
            )
        },
{
    lemma_label();
    lemma_draw_is_a_fresh_squeeze(
        oracle,
        transcript.push(Event::Label(domain_channel())),
        bits,
        nonce,
    );
}

/// A public challenge is the two named words, both absorbed after the label. It
/// has no nonce.
pub proof fn lemma_public_challenge_is_two_words(
    oracle: Oracle,
    transcript: Seq<Event>,
    at: usize,
    also_at: usize,
    public: Seq<F128>,
    bits: u32,
    nonce: Option<u64>,
)
    ensures
        ({
            let drawn_at = channel_challenge(
                oracle,
                transcript,
                ChannelChallenge::Public { alpha: at, beta: also_at },
                public,
                bits,
                nonce,
            );
            &&& drawn_at is Some <==> nonce is None
            &&& drawn_at matches Some((alpha, beta, after)) ==> {
                &&& alpha == public[at as int]
                &&& beta == public[also_at as int]
                &&& after == transcript + seq![
                    Event::Label(label()),
                    Event::Value(public[at as int]),
                    Event::Value(public[also_at as int]),
                ]
            }
        }),
{
    lemma_label();
    let after = transcript.push(Event::Label(domain_channel())).push(
        Event::Value(public[at as int]),
    ).push(Event::Value(public[also_at as int]));
    assert(after =~= transcript + seq![
        Event::Label(label()),
        Event::Value(public[at as int]),
        Event::Value(public[also_at as int]),
    ]);
}

/// The number of squeezes in a transcript.
pub open spec fn squeezes(transcript: Seq<Event>) -> nat {
    transcript.filter(|event: Event| event is Sample).len()
}

proof fn lemma_squeezes(transcript: Seq<Event>)
    ensures
        samples(transcript) == squeezes(transcript),
    decreases transcript.len(),
{
    reveal(Seq::filter);
    if transcript.len() > 0 {
        lemma_squeezes(transcript.drop_last());
    }
}

/// A tape of coins answers each squeeze with the next coin, with zero when there
/// is none left, and accepts only the nonce zero.
pub proof fn lemma_coins_are_dealt_in_order(
    coins: Seq<F128>,
    transcript: Seq<Event>,
    nonce: u64,
    bits: u32,
)
    ensures
        squeezes(transcript) < coins.len() ==> (CoinTape::answers(coins).squeeze)(transcript)
            == coins[squeezes(transcript) as int],
        squeezes(transcript) >= coins.len() ==> (CoinTape::answers(coins).squeeze)(transcript)
            == F128::zero(),
        (CoinTape::answers(coins).solves)(transcript, nonce, bits) <==> nonce == 0,
        squeezes(transcript.push(Event::Sample)) == squeezes(transcript) + 1,
        forall|event: Event|
            !(event is Sample) ==> squeezes(#[trigger] transcript.push(event)) == squeezes(
                transcript,
            ),
{
    reveal(Seq::filter);
    lemma_squeezes(transcript);
    assert(transcript.push(Event::Sample).drop_last() =~= transcript);
    assert forall|event: Event| !(event is Sample) implies squeezes(
        #[trigger] transcript.push(event),
    ) == squeezes(transcript) by {
        assert(transcript.push(event).drop_last() =~= transcript);
    }
}

/// The output of an accepted run under a sampled challenge is the next two
/// answers of its challenger. Over a tape of coins it is the next two coins, so
/// every pair of field elements is the output under some tape.
pub proof fn lemma_accepted_output_is_dealt(
    circuit: Circuit,
    public: Seq<F128>,
    spec: ChannelSpec,
    proof: ChannelProof,
    grinding: BatchedGrinding,
    coins: Seq<F128>,
    transcript: Seq<Event>,
    accepted: Accepted,
)
    requires
        spec.challenge == ChannelChallenge::Sampled,
        squeezes(transcript) + 2 <= coins.len(),
        channel_verdict(
            circuit,
            public,
            spec,
            proof,
            grinding,
            CoinTape::answers(coins),
            transcript,
        ) == Ok::<Accepted, ChannelError>(accepted),
    ensures
        accepted.output.alpha == coins[squeezes(transcript) as int],
        accepted.output.beta == coins[squeezes(transcript) as int + 1],
{
    let oracle = CoinTape::answers(coins);
    let bits = fingerprint_bits(spec, circuit, grinding);
    let nonce = proof.alpha_nonce;
    lemma_sampled_challenge_is_two_squeezes(oracle, transcript, public, bits, nonce);
    let labelled = transcript.push(Event::Label(label()));
    let before = (labelled + draw_events(bits, nonce)).drop_last();
    lemma_coins_are_dealt_in_order(coins, transcript, 0, bits);
    lemma_coins_are_dealt_in_order(coins, labelled, 0, bits);
    if bits == 0 {
        assert(before =~= labelled);
    } else {
        assert(before =~= labelled.push(Event::Work { nonce: nonce->0, bits }));
    }
    lemma_coins_are_dealt_in_order(coins, before, 0, bits);
    assert(labelled + draw_events(bits, nonce) =~= before.push(Event::Sample));
    lemma_coins_are_dealt_in_order(coins, before.push(Event::Sample), 0, bits);
}

/// Every pair of field elements can be drawn: after any transcript there is a
/// challenger whose sampled challenge is that pair.
pub proof fn lemma_every_pair_can_be_drawn(
    transcript: Seq<Event>,
    public: Seq<F128>,
    alpha: F128,
    beta: F128,
) -> (oracle: Oracle)
    ensures
        channel_challenge(
            oracle,
            transcript,
            ChannelChallenge::Sampled,
            public,
            0,
            None,
        ) matches Some((a, b, _)) && a == alpha && b == beta,
{
    let first = transcript.push(Event::Label(label()));
    let oracle = Oracle {
        squeeze: |t: Seq<Event>|
            if t == first {
                alpha
            } else {
                beta
            },
        solves: |t: Seq<Event>, nonce: u64, bits: u32| false,
    };
    lemma_sampled_challenge_is_two_squeezes(oracle, transcript, public, 0, None);
    let second = first + draw_events(0, None);
    assert(second.drop_last() =~= first);
    assert(second.len() != first.len());
    oracle
}

/// A side has at most a tuple for each row of each source.
proof fn lemma_live_bound(side: Seq<ChannelSource>, circuit: Circuit)
    ensures
        side_live(side, circuit) <= side.len() * pow2(circuit.cells.nu as nat),
    decreases side.len(),
{
    let rows = pow2(circuit.cells.nu as nat);
    lemma_pow2_pos(circuit.cells.nu as nat);
    let n = side.len();
    if n == 0 {
        assert(0 * rows == 0) by (nonlinear_arith);
    } else {
        lemma_live_bound(side.drop_last(), circuit);
        assert(n * rows == (n - 1) * rows + rows) by (nonlinear_arith)
            requires
                n >= 1,
        ;
    }
}

/// The work behind a sampled challenge makes up, and no more than makes up, for
/// the tuples of both sides together: with `b` bits of it, the `2^(128 + b)`
/// challenges and nonces are at least `2^security` for each tuple, and where
/// there is any work they would not be with one bit less.
pub proof fn lemma_work_makes_up_for_the_tuples(
    spec: ChannelSpec,
    circuit: Circuit,
    packed: Seq<F128>,
    public: Seq<F128>,
    grinding: BatchedGrinding,
)
    requires
        circuit.wf(),
        spec.fits(circuit),
    ensures
        ({
            let tuples = side_tuples(spec.lhs@, circuit, packed, public).len() + side_tuples(
                spec.rhs@,
                circuit,
                packed,
                public,
            ).len();
            let n = if tuples == 0 {
                1
            } else {
                tuples
            };
            let security = pow2(grinding.fingerprint_security as nat);
            let bits = fingerprint_bits(spec, circuit, grinding) as nat;
            &&& security * n <= pow2(128 + bits)
            &&& bits > 0 ==> pow2((127 + bits) as nat) < security * n
        }),
{
    lemma_side_tuples_count(spec.lhs@, circuit, packed, public);
    lemma_side_tuples_count(spec.rhs@, circuit, packed, public);
    let tuples = spec.live_entries(circuit);
    let n = if tuples == 0 {
        1
    } else {
        tuples
    };
    let rows = pow2(circuit.cells.nu as nat);
    let groups = spec.spec_groups();
    lemma_live_bound(spec.lhs@, circuit);
    lemma_live_bound(spec.rhs@, circuit);
    lemma_larger_side_fits(spec);
    lemma_domain(spec, circuit);
    assert(tuples <= 2 * usize::MAX) by {
        let (l, r) = (spec.lhs@.len(), spec.rhs@.len());
        assert(l * rows <= groups * rows && r * rows <= groups * rows) by (nonlinear_arith)
            requires
                l <= groups,
                r <= groups,
        ;
    }
    lemma_work_makes_up(grinding, tuples);
    lemma2_to64();
    lemma_pow2_adds(64, 64);
    lemma_ceil_log2(tuples);
    let k = ceil_log2(tuples);
    if k > 129 {
        lemma_pow2_strictly_increases(128, (k - 1) as nat);
    }
    assert(fingerprint_bits(spec, circuit, grinding) == grinding.spec_fingerprint_bits_for(tuples));
}

/// The work of a policy for `tuples` tuples is the least with which `2^128`
/// challenges reach its security for each of them.
pub proof fn lemma_work_makes_up(grinding: BatchedGrinding, tuples: nat)
    ensures
        ({
            let n = if tuples == 0 {
                1
            } else {
                tuples
            };
            let security = pow2(grinding.fingerprint_security as nat);
            let bits = grinding.spec_fingerprint_bits_for(tuples);
            &&& security * n <= pow2(128 + bits)
            &&& bits > 0 ==> pow2((127 + bits) as nat) < security * n
        }),
{
    let n = if tuples == 0 {
        1
    } else {
        tuples
    };
    let k = ceil_log2(tuples);
    let s = grinding.fingerprint_security as nat;
    let bits = grinding.spec_fingerprint_bits_for(tuples);
    lemma_ceil_log2(tuples);
    lemma2_to64();
    lemma_pow2_pos(s);
    lemma_pow2_adds(s, k);
    let (p, q) = (pow2(s), pow2(k));
    lemma_pow2_pos(k);
    assert(p * n <= p * q) by (nonlinear_arith)
        requires
            n <= q,
    ;
    if s + k < 128 + bits {
        lemma_pow2_strictly_increases(s + k, 128 + bits);
    }
    if bits > 0 {
        assert(127 + bits == s + k - 1);
        if k > 0 {
            let half = pow2((k - 1) as nat);
            lemma_pow2_adds(s, (k - 1) as nat);
            assert(p * half < p * n) by (nonlinear_arith)
                requires
                    half < n,
                    p > 0,
            ;
        } else {
            lemma_pow2_strictly_increases((s - 1) as nat, s);
            assert(p * n >= p) by (nonlinear_arith)
                requires
                    n >= 1,
                    p > 0,
            ;
        }
    }
}

/// An accepted proof under a sampled challenge carries a nonce exactly when the
/// field alone does not reach the security for the tuples of both sides, and the
/// nonce solves the work after the label.
pub proof fn lemma_accepted_proof_has_done_its_work(
    circuit: Circuit,
    packed: Seq<F128>,
    public: Seq<F128>,
    spec: ChannelSpec,
    proof: ChannelProof,
    grinding: BatchedGrinding,
    oracle: Oracle,
    transcript: Seq<Event>,
)
    requires
        circuit.wf(),
        spec.challenge == ChannelChallenge::Sampled,
        channel_verdict(circuit, public, spec, proof, grinding, oracle, transcript) is Ok,
        side_tuples(spec.lhs@, circuit, packed, public).len() + side_tuples(
            spec.rhs@,
            circuit,
            packed,
            public,
        ).len() > 0,
    ensures
        ({
            let tuples = side_tuples(spec.lhs@, circuit, packed, public).len() + side_tuples(
                spec.rhs@,
                circuit,
                packed,
                public,
            ).len();
            let needed = pow2(grinding.fingerprint_security as nat) * tuples;
            &&& proof.alpha_nonce is Some <==> needed > pow2(128)
            &&& proof.alpha_nonce matches Some(nonce) ==> exists|bits: u32|
                #[trigger] (oracle.solves)(transcript.push(Event::Label(label())), nonce, bits)
                    && needed <= pow2(128 + bits as nat)
        }),
{
    let bits = fingerprint_bits(spec, circuit, grinding);
    lemma_work_makes_up_for_the_tuples(spec, circuit, packed, public, grinding);
    lemma_sampled_challenge_is_two_squeezes(oracle, transcript, public, bits, proof.alpha_nonce);
    if bits > 0 && bits > 1 {
        lemma_pow2_strictly_increases(128, (127 + bits) as nat);
    }
    if let Some(nonce) = proof.alpha_nonce {
        assert((oracle.solves)(transcript.push(Event::Label(label())), nonce, bits));
    }
}

} // verus!
