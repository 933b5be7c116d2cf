//! The transcript from which a proof's challenges are drawn.
//!
//! A challenger absorbs labels and field elements and squeezes challenges. It
//! is a deterministic machine: what it squeezes depends on what it absorbed so
//! far, and on nothing else, so a verifier that replays the absorptions of a
//! prover draws the prover's challenges.

use crate::field::F128;
use vstd::arithmetic::power2::{
    lemma2_to64, lemma_pow2_adds, lemma_pow2_strictly_increases, lemma_pow2_unfold, pow2,
};
use vstd::prelude::*;

verus! {

/// One step of a transcript.
pub enum Event {
    /// A domain label was absorbed.
    Label(Seq<u8>),
    /// A field element was absorbed.
    Value(F128),
    /// A proof-of-work nonce of the given difficulty was absorbed.
    Work { nonce: u64, bits: u32 },
    /// A challenge was squeezed.
    Sample,
}

/// What a challenger absorbed and squeezed, in order.
pub type Transcript = Seq<Event>;

/// The two functions of the transcript that make up a challenger.
pub struct Oracle {
    /// The challenge squeezed after a transcript.
    pub squeeze: spec_fn(Seq<Event>) -> F128,
    /// Whether a nonce solves the proof of work of the given difficulty after
    /// a transcript.
    pub solves: spec_fn(Seq<Event>, u64, u32) -> bool,
}

/// A source of challenges.
pub trait Challenger {
    /// How this challenger answers. No operation changes it.
    spec fn oracle(&self) -> Oracle;

    /// What happened so far.
    spec fn transcript(&self) -> Transcript;

    /// Absorbs a domain label.
    fn observe_label(&mut self, label: &[u8])
        ensures
            final(self).oracle() == old(self).oracle(),
            final(self).transcript() == old(self).transcript().push(Event::Label(label@)),
    ;

    /// Absorbs a field element.
    fn observe_f128(&mut self, value: F128)
        ensures
            final(self).oracle() == old(self).oracle(),
            final(self).transcript() == old(self).transcript().push(Event::Value(value)),
    ;

    /// Squeezes a challenge.
    fn sample_f128(&mut self) -> (challenge: F128)
        ensures
            final(self).oracle() == old(self).oracle(),
            challenge == (old(self).oracle().squeeze)(old(self).transcript()),
            final(self).transcript() == old(self).transcript().push(Event::Sample),
    ;

    /// Finds a nonce that solves the proof of work, absorbs it and squeezes a
    /// challenge.
    fn grind_pow_and_sample_f128(&mut self, bits: u32) -> (ground: (u64, F128))
        ensures
            final(self).oracle() == old(self).oracle(),
            (old(self).oracle().solves)(old(self).transcript(), ground.0, bits),
            ground.1 == (old(self).oracle().squeeze)(
                old(self).transcript().push(Event::Work { nonce: ground.0, bits }),
            ),
            final(self).transcript() == old(self).transcript().push(
                Event::Work { nonce: ground.0, bits },
            ).push(Event::Sample),
    ;

    /// Checks a nonce; if it solves the proof of work, absorbs it and squeezes
    /// a challenge. What a failed check leaves in the transcript is open.
    fn verify_pow_and_sample_f128(&mut self, nonce: u64, bits: u32) -> (challenge: Option<F128>)
        ensures
            final(self).oracle() == old(self).oracle(),
            challenge is Some <==> (old(self).oracle().solves)(
                old(self).transcript(),
                nonce,
                bits,
            ),
            challenge matches Some(value) ==> {
                &&& value == (old(self).oracle().squeeze)(
                    old(self).transcript().push(Event::Work { nonce, bits }),
                )
                &&& final(self).transcript() == old(self).transcript().push(
                    Event::Work { nonce, bits },
                ).push(Event::Sample)
            },
    ;
}

/// The challenge drawn after `transcript` when the policy asks for `bits` of
/// work and the proof carries `nonce`, with the transcript that results;
/// `None` if the nonce is missing, superfluous or wrong.
pub open spec fn drawn(
    oracle: Oracle,
    transcript: Seq<Event>,
    bits: u32,
    nonce: Option<u64>,
) -> Option<(F128, Seq<Event>)> {
    match nonce {
        None => if bits == 0 {
            Some(((oracle.squeeze)(transcript), transcript.push(Event::Sample)))
        } else {
            None
        },
        Some(nonce) => if bits != 0 && (oracle.solves)(transcript, nonce, bits) {
            let worked = transcript.push(Event::Work { nonce, bits });
            Some(((oracle.squeeze)(worked), worked.push(Event::Sample)))
        } else {
            None
        },
    }
}

/// The transcript after a draw; `None` if a failed proof of work leaves it open.
pub open spec fn transcript_after_draw(
    oracle: Oracle,
    transcript: Seq<Event>,
    bits: u32,
    nonce: Option<u64>,
) -> Option<Seq<Event>> {
    match drawn(oracle, transcript, bits, nonce) {
        Some((_, after)) => Some(after),
        None => if bits != 0 && nonce is Some {
            None
        } else {
            Some(transcript)
        },
    }
}

/// Draws a challenge as a prover, grinding where the policy asks for work.
pub fn draw<C: Challenger>(ch: &mut C, bits: u32) -> (draw: (Option<u64>, F128))
    ensures
        final(ch).oracle() == old(ch).oracle(),
        drawn(old(ch).oracle(), old(ch).transcript(), bits, draw.0) == Some(
            (draw.1, final(ch).transcript()),
        ),
{
    if bits != 0 {
        let (nonce, challenge) = ch.grind_pow_and_sample_f128(bits);
        (Some(nonce), challenge)
    } else {
        (None, ch.sample_f128())
    }
}

/// Draws a challenge as a verifier, checking the proof's nonce.
pub fn redraw<C: Challenger>(ch: &mut C, bits: u32, nonce: Option<u64>) -> (challenge: Option<F128>)
    ensures
        final(ch).oracle() == old(ch).oracle(),
        match drawn(old(ch).oracle(), old(ch).transcript(), bits, nonce) {
            Some((value, transcript)) => challenge == Some(value) && final(ch).transcript()
                == transcript,
            None => challenge is None,
        },
        transcript_after_draw(old(ch).oracle(), old(ch).transcript(), bits, nonce) matches Some(
            after,
        ) ==> final(ch).transcript() == after,
{
    match nonce {
        Some(nonce) => if bits != 0 {
            ch.verify_pow_and_sample_f128(nonce, bits)
        } else {
            None
        },
        None => if bits != 0 {
            None
        } else {
            Some(ch.sample_f128())
        },
    }
}

/// The least `k` with `n <= 2^k`.
pub open spec fn ceil_log2(n: nat) -> nat
    decreases n,
{
    if n <= 1 {
        0
    } else {
        1 + ceil_log2((n + 1) / 2)
    }
}

/// `2^(k - 1) < n <= 2^k` for `k = ceil_log2(n)`.
pub proof fn lemma_ceil_log2(n: nat)
    ensures
        n <= pow2(ceil_log2(n)),
        ceil_log2(n) > 0 ==> pow2((ceil_log2(n) - 1) as nat) < n,
    decreases n,
{
    lemma2_to64();
    if n > 1 {
        let half = (n + 1) / 2;
        let k = ceil_log2(half);
        lemma_ceil_log2(half);
        lemma_pow2_unfold(k + 1);
        if k > 0 {
            lemma_pow2_unfold(k);
        }
    }
}

/// How much proof of work stands behind each challenge.
#[derive(Clone, Copy, Debug, PartialEq, Eq, Structural)]
pub struct BatchedGrinding {
    /// The security, in bits, that a fingerprint challenge must reach.
    pub fingerprint_security: u16,
    /// The work, in bits, behind each challenge of the product argument.
    pub round_bits: u32,
}

impl BatchedGrinding {
    /// The work behind the fingerprint challenge of a channel with
    /// `live_entries` tuples: what the field's 128 bits, less the logarithm of
    /// the number of tuples, leave open of the required security.
    pub open spec fn spec_fingerprint_bits_for(self, live_entries: nat) -> nat {
        let needed = self.fingerprint_security as nat + ceil_log2(live_entries);
        if needed > 128 {
            (needed - 128) as nat
        } else {
            0
        }
    }

    pub fn fingerprint_bits_for(&self, live_entries: u128) -> (bits: u32)
        ensures
            bits == self.spec_fingerprint_bits_for(live_entries as nat),
    {
        let mut rest: u128 = live_entries;
        let mut log: u32 = 0;
        proof {
            let k = ceil_log2(live_entries as nat);
            lemma_ceil_log2(live_entries as nat);
            lemma2_to64();
            lemma_pow2_adds(64, 64);
            if k > 129 {
                lemma_pow2_strictly_increases(128, (k - 1) as nat);
            }
        }
        while rest > 1
            invariant
                log + ceil_log2(rest as nat) == ceil_log2(live_entries as nat),
                log + ceil_log2(rest as nat) <= 128,
            decreases rest,
        {
            rest = rest / 2 + rest % 2;
            log = log + 1;
        }
        let needed: u32 = self.fingerprint_security as u32 + log;
        if needed > 128 {
            needed - 128
        } else {
            0
        }
    }
}

/// The number of challenges squeezed in a transcript.
pub open spec fn samples(transcript: Seq<Event>) -> nat
    decreases transcript.len(),
{
    if transcript.len() == 0 {
        0
    } else {
        samples(transcript.drop_last()) + (if transcript.last() is Sample {
            1nat
        } else {
            0
        })
    }
}

/// The challenges of an interactive run: coins that the verifier tossed, dealt
/// in order, and zero after the last. Nothing is at stake in grinding against
/// coins already tossed, so the proof of work is solved by the nonce zero
/// alone.
pub struct CoinTape {
    coins: Vec<F128>,
    /// The number of coins dealt, and the transcript.
    run: (usize, Ghost<Seq<Event>>),
}

impl CoinTape {
    /// The coins.
    pub closed spec fn view(&self) -> Seq<F128> {
        self.coins@
    }

    /// How a tape of coins answers.
    pub open spec fn answers(coins: Seq<F128>) -> Oracle {
        Oracle {
            squeeze: |transcript: Seq<Event>|
                if samples(transcript) < coins.len() {
                    coins[samples(transcript) as int]
                } else {
                    F128::zero()
                },
            solves: |transcript: Seq<Event>, nonce: u64, bits: u32| nonce == 0,
        }
    }

    #[verifier::type_invariant]
    spec fn dealt_in_order(self) -> bool {
        if samples(self.run.1@) < self.coins@.len() {
            self.run.0 == samples(self.run.1@)
        } else {
            self.run.0 == self.coins@.len()
        }
    }

    /// The tape with the given coins.
    pub fn new(coins: Vec<F128>) -> (tape: CoinTape)
        ensures
            tape@ == coins@,
            tape.oracle() == Self::answers(coins@),
            tape.transcript() == Seq::<Event>::empty(),
    {
        CoinTape { coins, run: (0, Ghost(Seq::empty())) }
    }

    /// Notes an event that deals no coin.
    fn note(&mut self, Ghost(event): Ghost<Event>)
        requires
            !(event is Sample),
        ensures
            final(self).oracle() == old(self).oracle(),
            final(self).transcript() == old(self).transcript().push(event),
    {
        proof {
            use_type_invariant(&*self);
            assert(self.run.1@.push(event).drop_last() =~= self.run.1@);
        }
        self.run = (self.run.0, Ghost(self.run.1@.push(event)));
    }
}

impl Challenger for CoinTape {
    closed spec fn oracle(&self) -> Oracle {
        Self::answers(self.coins@)
    }

    closed spec fn transcript(&self) -> Transcript {
        self.run.1@
    }

    fn observe_label(&mut self, label: &[u8]) {
        self.note(Ghost(Event::Label(label@)));
    }

    fn observe_f128(&mut self, value: F128) {
        self.note(Ghost(Event::Value(value)));
    }

    fn sample_f128(&mut self) -> (challenge: F128) {
        proof {
            use_type_invariant(&*self);
            assert(self.run.1@.push(Event::Sample).drop_last() =~= self.run.1@);
        }
        let mut coin = F128::zero();
        let mut dealt: usize = self.run.0;
        if dealt < self.coins.len() {
            coin = self.coins[dealt];
            dealt = dealt + 1;
        }
        self.run = (dealt, Ghost(self.run.1@.push(Event::Sample)));
        coin
    }

    fn grind_pow_and_sample_f128(&mut self, bits: u32) -> (ground: (u64, F128)) {
        self.note(Ghost(Event::Work { nonce: 0, bits }));
        (0, self.sample_f128())
    }

    fn verify_pow_and_sample_f128(&mut self, nonce: u64, bits: u32) -> (challenge: Option<F128>) {
        if nonce != 0 {
            return None;
        }
        self.note(Ghost(Event::Work { nonce, bits }));
        Some(self.sample_f128())
    }
}

} // verus!
