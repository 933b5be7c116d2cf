//! The fingerprint challenge of a channel.

use crate::challenger::{
    draw, drawn, redraw, transcript_after_draw, BatchedGrinding, Challenger, Event, Oracle,
};
use crate::channel::{ChannelChallenge, ChannelSpec};
use crate::circuit::Circuit;
use crate::field::F128;
use vstd::prelude::*;

verus! {

/// The label that opens a channel's transcript: the characters of
/// `flock-channel-v0`.
pub open spec fn domain_channel() -> Seq<u8> {
    seq![
        102, 108, 111, 99, 107, 45, 99, 104, 97, 110, 110, 101, 108, 45, 118,
        48,
    ]
}

/// Absorbs the label that opens a channel's transcript.
fn observe_domain<C: Challenger>(ch: &mut C)
    ensures
        final(ch).oracle() == old(ch).oracle(),
        final(ch).transcript() == old(ch).transcript().push(Event::Label(domain_channel())),
{
    let label: [u8; 16] = [
        102, 108, 111, 99, 107, 45, 99, 104, 97, 110, 110, 101, 108, 45, 118,
        48,
    ];
    assert(label@ =~= domain_channel());
    ch.observe_label(label.as_slice());
}

/// The work behind a channel's fingerprint challenge.
pub open spec fn fingerprint_bits(
    spec: ChannelSpec,
    circuit: Circuit,
    grinding: BatchedGrinding,
) -> u32 {
    grinding.spec_fingerprint_bits_for(spec.live_entries(circuit)) as u32
}

/// The challenge `(alpha, beta)` of a channel that starts after `transcript`,
/// with the transcript that results; `None` if the nonce is missing,
/// superfluous or wrong.
pub open spec fn channel_challenge(
    oracle: Oracle,
    transcript: Seq<Event>,
    challenge: ChannelChallenge,
    public: Seq<F128>,
    bits: u32,
    nonce: Option<u64>,
) -> Option<(F128, F128, Seq<Event>)> {
    let labelled = transcript.push(Event::Label(domain_channel()));
    match challenge {
        ChannelChallenge::Sampled => match drawn(oracle, labelled, bits, nonce) {
            Some((alpha, sampled)) => Some(
                (alpha, (oracle.squeeze)(sampled), sampled.push(Event::Sample)),
            ),
            None => None,
        },
        ChannelChallenge::Public { alpha, beta } => match nonce {
            None => Some(
                (
                    public[alpha as int],
                    public[beta as int],
                    labelled.push(Event::Value(public[alpha as int])).push(
                        Event::Value(public[beta as int]),
                    ),
                ),
            ),
            Some(_) => None,
        },
    }
}

/// The transcript after a channel's challenge, up to where the nonce fails;
/// `None` if a failed proof of work leaves it open.
pub open spec fn transcript_after_challenge(
    oracle: Oracle,
    transcript: Seq<Event>,
    challenge: ChannelChallenge,
    public: Seq<F128>,
    bits: u32,
    nonce: Option<u64>,
) -> Option<Seq<Event>> {
    let labelled = transcript.push(Event::Label(domain_channel()));
    match channel_challenge(oracle, transcript, challenge, public, bits, nonce) {
        Some((_, _, after)) => Some(after),
        None => match challenge {
            ChannelChallenge::Sampled => transcript_after_draw(oracle, labelled, bits, nonce),
            ChannelChallenge::Public { .. } => Some(labelled),
        },
    }
}

/// Draws a channel's challenge as its prover.
pub fn draw_challenge<C: Challenger>(
    challenge: ChannelChallenge,
    public: &[F128],
    bits: u32,
    ch: &mut C,
) -> (draw: (Option<u64>, F128, F128))
    requires
        challenge matches ChannelChallenge::Public { alpha, beta } ==> alpha < public@.len() && beta
            < public@.len(),
    ensures
        final(ch).oracle() == old(ch).oracle(),
        channel_challenge(
            old(ch).oracle(),
            old(ch).transcript(),
            challenge,
            public@,
            bits,
            draw.0,
        ) == Some((draw.1, draw.2, final(ch).transcript())),
{
    observe_domain(ch);
    match challenge {
        ChannelChallenge::Sampled => {
            let (nonce, alpha) = draw(ch, bits);
            let beta = ch.sample_f128();
            (nonce, alpha, beta)
        },
        ChannelChallenge::Public { alpha, beta } => {
            let (a, b) = (public[alpha], public[beta]);
            ch.observe_f128(a);
            ch.observe_f128(b);
            (None, a, b)
        },
    }
}

/// Draws a channel's challenge as its verifier.
pub fn redraw_challenge<C: Challenger>(
    challenge: ChannelChallenge,
    public: &[F128],
    bits: u32,
    nonce: Option<u64>,
    ch: &mut C,
) -> (draw: Option<(F128, F128)>)
    requires
        challenge matches ChannelChallenge::Public { alpha, beta } ==> alpha < public@.len() && beta
            < public@.len(),
    ensures
        final(ch).oracle() == old(ch).oracle(),
        match channel_challenge(
            old(ch).oracle(),
            old(ch).transcript(),
            challenge,
            public@,
            bits,
            nonce,
        ) {
            Some((alpha, beta, transcript)) => draw == Some((alpha, beta))
                && final(ch).transcript() == transcript,
            None => draw is None,
        },
        transcript_after_challenge(
            old(ch).oracle(),
            old(ch).transcript(),
            challenge,
            public@,
            bits,
            nonce,
        ) matches Some(after) ==> final(ch).transcript() == after,
{
    observe_domain(ch);
    match challenge {
        ChannelChallenge::Sampled => {
            match redraw(ch, bits, nonce) {
                Some(alpha) => {
                    let beta = ch.sample_f128();
                    Some((alpha, beta))
                },
                None => None,
            }
        },
        ChannelChallenge::Public { alpha, beta } => {
            if nonce.is_some() {
                return None;
            }
            let (a, b) = (public[alpha], public[beta]);
            ch.observe_f128(a);
            ch.observe_f128(b);
            Some((a, b))
        },
    }
}

} // verus!
