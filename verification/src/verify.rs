//! The channel's verifier.

use crate::challenger::{BatchedGrinding, Challenger, Event, Oracle};
use crate::channel::{
    count_live, lemma_domain, lemma_larger_side_fits, lemma_side_columns_take, side_columns,
    side_fits, side_lens, ChannelBalance, ChannelError, ChannelOutput, ChannelProof, ChannelSource,
    ChannelSpec,
};
use crate::circuit::Circuit;
use crate::field::{lemma_add_associates, lemma_add_zero, F128};
use crate::fingerprint_challenge::{
    channel_challenge, fingerprint_bits, redraw_challenge, transcript_after_challenge,
};
use crate::multilinear::{build_eq, eq, eq_table, LiveMask};
use crate::pcs::{pair_side, pairs_up};
use crate::product_gkr::{plain_verdict, transcript_after_product, verify_plain, GkrState};
use crate::sums::{power, sum};
use crate::tuples::{
    lemma_claim_points_count, public_tuple, recombined, side_claim_points, source_values, weighted,
};
use vstd::arithmetic::power2::{lemma_pow2_pos, pow2};
use vstd::prelude::*;

verus! {

/// What an accepted proof leaves.
pub struct Accepted {
    /// The challenge and the two products.
    pub output: ChannelOutput,
    /// The point of the leaf evaluations: the row coordinates, then those of
    /// the group.
    pub rho: Seq<F128>,
    pub transcript: Seq<Event>,
}

/// What the verifier makes of a proof.
pub open spec fn channel_verdict(
    circuit: Circuit,
    public: Seq<F128>,
    spec: ChannelSpec,
    proof: ChannelProof,
    grinding: BatchedGrinding,
    oracle: Oracle,
    transcript: Seq<Event>,
) -> Result<Accepted, ChannelError> {
    let nu = circuit.cells.nu as nat;
    let split = side_columns(spec.lhs@) as int;
    if !spec.fits(circuit) {
        Err(ChannelError::MalformedSpec)
    } else if public.len() != circuit.num_public || proof.gather@.len() != side_columns(spec.lhs@)
        + side_columns(spec.rhs@) {
        Err(ChannelError::MalformedProof)
    } else {
        match channel_challenge(
            oracle,
            transcript,
            spec.challenge,
            public,
            fingerprint_bits(spec, circuit, grinding),
            proof.alpha_nonce,
        ) {
            None => Err(ChannelError::InvalidGrinding),
            Some((alpha, beta, challenged)) => match plain_verdict(
                oracle,
                grinding.round_bits,
                spec.spec_mu(nu),
                proof.gkr,
                challenged,
            ) {
                Err(error) => Err(ChannelError::Gkr(error)),
                Ok(state) => {
                    let row = state.point.take(nu as int);
                    let group = state.point.skip(nu as int);
                    if spec.balance == ChannelBalance::Equal && proof.gkr.top_lhs
                        != proof.gkr.top_rhs {
                        Err(ChannelError::Unbalanced)
                    } else if recombined(
                        spec.lhs@,
                        side_lens(spec.lhs@, circuit, spec.spec_groups()),
                        public,
                        proof.gather@.take(split),
                        alpha,
                        beta,
                        row,
                        group,
                    ) != state.lhs || recombined(
                        spec.rhs@,
                        side_lens(spec.rhs@, circuit, spec.spec_groups()),
                        public,
                        proof.gather@.skip(split),
                        alpha,
                        beta,
                        row,
                        group,
                    ) != state.rhs {
                        Err(ChannelError::Recombination)
                    } else {
                        Ok(
                            Accepted {
                                output: ChannelOutput {
                                    alpha,
                                    beta,
                                    top_lhs: proof.gkr.top_lhs,
                                    top_rhs: proof.gkr.top_rhs,
                                },
                                rho: state.point,
                                transcript: state.transcript,
                            },
                        )
                    }
                },
            },
        }
    }
}

/// The transcript after a proof was replayed, up to where it was rejected;
/// `None` if a failed proof of work leaves it open. A malformed channel leaves
/// the challenger alone.
pub open spec fn transcript_after_channel(
    circuit: Circuit,
    public: Seq<F128>,
    spec: ChannelSpec,
    proof: ChannelProof,
    grinding: BatchedGrinding,
    oracle: Oracle,
    transcript: Seq<Event>,
) -> Option<Seq<Event>> {
    if !spec.fits(circuit) || public.len() != circuit.num_public || proof.gather@.len()
        != side_columns(spec.lhs@) + side_columns(spec.rhs@) {
        Some(transcript)
    } else {
        let bits = fingerprint_bits(spec, circuit, grinding);
        match channel_challenge(
            oracle,
            transcript,
            spec.challenge,
            public,
            bits,
            proof.alpha_nonce,
        ) {
            None => transcript_after_challenge(
                oracle,
                transcript,
                spec.challenge,
                public,
                bits,
                proof.alpha_nonce,
            ),
            Some((_, _, challenged)) => transcript_after_product(
                oracle,
                grinding.round_bits,
                spec.spec_mu(circuit.cells.nu as nat),
                proof.gkr,
                challenged,
            ),
        }
    }
}

/// What the product argument of a proof leaves: the leaf evaluations and the
/// transcript after it.
pub open spec fn product_state(
    circuit: Circuit,
    public: Seq<F128>,
    spec: ChannelSpec,
    proof: ChannelProof,
    grinding: BatchedGrinding,
    oracle: Oracle,
    transcript: Seq<Event>,
) -> GkrState {
    plain_verdict(
        oracle,
        grinding.round_bits,
        spec.spec_mu(circuit.cells.nu as nat),
        proof.gkr,
        (channel_challenge(
            oracle,
            transcript,
            spec.challenge,
            public,
            fingerprint_bits(spec, circuit, grinding),
            proof.alpha_nonce,
        )->0).2,
    )->Ok_0
}

/// The claim points of both sides at a row point, left then right.
pub open spec fn channel_claim_points(
    spec: ChannelSpec,
    circuit: Circuit,
    row: Seq<F128>,
) -> Seq<Seq<F128>> {
    side_claim_points(spec.lhs@, circuit, row) + side_claim_points(spec.rhs@, circuit, row)
}

/// `sum_k alpha^k values[start + k]` over `len` values.
fn weigh_values(values: &[F128], start: usize, len: usize, alpha: F128) -> (value: F128)
    requires
        start + len <= values@.len(),
    ensures
        value == weighted(values@.subrange(start as int, start + len), alpha),
{
    let ghost own = values@.subrange(start as int, start + len);
    let ghost terms = |k: int| power(alpha, k as nat) * own[k];
    let mut value = F128::zero();
    let mut pow = F128::one();
    assert(values.len() <= usize::MAX);
    let mut k: usize = 0;
    while k < len
        invariant
            k <= len,
            start + len <= values@.len() <= usize::MAX,
            own == values@.subrange(start as int, start + len),
            terms == (|k: int| power(alpha, k as nat) * own[k]),
            value == sum(terms, k as nat),
            pow == power(alpha, k as nat),
        decreases len - k,
    {
        assert(own[k as int] == values@[start + k]);
        value = value + pow * values[start + k];
        pow = pow * alpha;
        k = k + 1;
    }
    value
}

/// `sum_k alpha^k public[words[k]]`.
pub(crate) fn weigh_public(public: &[F128], words: &Vec<usize>, alpha: F128) -> (value: F128)
    requires
        forall|k: int| 0 <= k < words@.len() ==> (#[trigger] words@[k]) < public@.len(),
    ensures
        value == weighted(public_tuple(public@, words@), alpha),
{
    let ghost own = public_tuple(public@, words@);
    let ghost terms = |k: int| power(alpha, k as nat) * own[k];
    let mut value = F128::zero();
    let mut pow = F128::one();
    let mut k: usize = 0;
    while k < words.len()
        invariant
            k <= words@.len(),
            forall|k: int| 0 <= k < words@.len() ==> (#[trigger] words@[k]) < public@.len(),
            own == public_tuple(public@, words@),
            terms == (|k: int| power(alpha, k as nat) * own[k]),
            value == sum(terms, k as nat),
            pow == power(alpha, k as nat),
        decreases words@.len() - k,
    {
        value = value + pow * public[words[k]];
        pow = pow * alpha;
        k = k + 1;
    }
    value
}

/// The leaf evaluation that the values of a side's gate columns, from `start`
/// on, stand for.
pub fn recombine(
    side: &Vec<ChannelSource>,
    lens: Vec<usize>,
    circuit: &Circuit,
    public: &[F128],
    gather: &[F128],
    start: usize,
    alpha: F128,
    beta: F128,
    rho: &[F128],
) -> (value: F128)
    requires
        circuit.wf(),
        side_fits(side@, *circuit),
        public@.len() == circuit.num_public,
        circuit.cells.nu <= rho@.len() < usize::BITS,
        side@.len() <= pow2((rho@.len() - circuit.cells.nu) as nat),
        lens@ == side_lens(side@, *circuit, pow2((rho@.len() - circuit.cells.nu) as nat)),
        start + side_columns(side@) <= gather@.len(),
    ensures
        value == recombined(
            side@,
            lens@,
            public@,
            gather@.subrange(start as int, start + side_columns(side@)),
            alpha,
            beta,
            rho@.take(circuit.cells.nu as int),
            rho@.skip(circuit.cells.nu as int),
        ),
{
    let nu: usize = circuit.cells().nu();
    let ghost row = rho@.take(nu as int);
    let ghost group = rho@.skip(nu as int);
    let ghost values = gather@.subrange(start as int, start + side_columns(side@));
    let ghost lengths = lens@;
    proof {
        vstd::bits::lemma_usize_pow2_no_overflow(rho@.len());
        vstd::bits::lemma_usize_pow2_no_overflow(nu as nat);
        vstd::bits::lemma_usize_pow2_no_overflow((rho@.len() - nu) as nat);
        lemma_pow2_pos(nu as nat);
        assert(rho@.subrange(0, nu as int) =~= row);
        assert(rho@.subrange(nu as int, rho@.len() as int) =~= group);
    }
    let eq_row = build_eq(vstd::slice::slice_subrange(rho, 0, nu));
    let eq_group = build_eq(vstd::slice::slice_subrange(rho, nu, rho.len()));
    let mask = LiveMask { nu, counts: lens };
    let base = (beta + F128::one()) * mask.live_eval(rho) + F128::one();
    let ghost terms = |g: int|
        eq(group, g) * side@[g].folded(public@, source_values(side@, values, g), alpha, row);
    assert(gather.len() <= usize::MAX);
    let mut acc = base;
    let mut at: usize = start;
    let mut g: usize = 0;
    proof {
        assert(side@.take(0) =~= Seq::empty());
        lemma_add_zero(base);
    }
    while g < side.len()
        invariant
            g <= side@.len(),
            circuit.wf(),
            side_fits(side@, *circuit),
            public@.len() == circuit.num_public,
            nu == circuit.cells.nu,
            row.len() == nu,
            eq_row@ == eq_table(row),
            eq_group@ == eq_table(group),
            side@.len() <= pow2(group.len()),
            start + side_columns(side@) <= gather@.len() <= usize::MAX,
            values == gather@.subrange(start as int, start + side_columns(side@)),
            at == start + side_columns(side@.take(g as int)),
            terms == (|g: int|
                eq(group, g) * side@[g].folded(public@, source_values(side@, values, g), alpha, row)),
            acc == base + sum(terms, g as nat),
        decreases side@.len() - g,
    {
        proof {
            lemma_side_columns_take(side@, g as int);
            lemma_side_columns_take(side@, g + 1);
            lemma_pow2_pos(nu as nat);
            assert(side@[g as int].fits(*circuit));
            lemma_add_associates(base, sum(terms, g as nat), terms(g as int));
        }
        let fp = match &side[g] {
            ChannelSource::Gate { ty, words } => {
                let len: usize = words.len();
                let fp = weigh_values(gather, at, len, alpha);
                assert(gather@.subrange(at as int, at + len) =~= source_values(
                    side@,
                    values,
                    g as int,
                ));
                at = at + len;
                fp
            },
            ChannelSource::Public { words } => weigh_public(public, words, alpha) * eq_row[0],
        };
        acc = acc + eq_group[g] * fp;
        g = g + 1;
    }
    acc
}

/// Replays one channel. Returns the points of the committed buffer with their
/// values, in the prover's order, and the challenge with the two products.
pub fn verify_channel<C: Challenger>(
    circuit: &Circuit,
    public: &[F128],
    spec: &ChannelSpec,
    proof: &ChannelProof,
    grinding: BatchedGrinding,
    ch: &mut C,
) -> (result: Result<(Vec<(Vec<F128>, F128)>, ChannelOutput), ChannelError>)
    requires
        circuit.wf(),
        spec.sized(),
    ensures
        final(ch).oracle() == old(ch).oracle(),
        match channel_verdict(
            *circuit,
            public@,
            *spec,
            *proof,
            grinding,
            old(ch).oracle(),
            old(ch).transcript(),
        ) {
            Ok(accepted) => {
                &&& result matches Ok((pairs, output)) && output == accepted.output && pairs@.len()
                    == proof.gather@.len() && pairs_up(
                    pairs@,
                    channel_claim_points(
                        *spec,
                        *circuit,
                        accepted.rho.take(circuit.cells.nu as int),
                    ),
                    proof.gather@,
                )
                &&& final(ch).transcript() == accepted.transcript
            },
            Err(error) => result == Err::<(Vec<(Vec<F128>, F128)>, ChannelOutput), ChannelError>(
                error,
            ),
        },
        transcript_after_channel(
            *circuit,
            public@,
            *spec,
            *proof,
            grinding,
            old(ch).oracle(),
            old(ch).transcript(),
        ) matches Some(after) ==> final(ch).transcript() == after,
{
    if !spec.check(circuit) {
        return Err(ChannelError::MalformedSpec);
    }
    if public.len() != circuit.num_public() || proof.gather.len() != spec.gather_len() {
        return Err(ChannelError::MalformedProof);
    }
    let nu: usize = circuit.cells().nu();
    proof {
        lemma_domain(*spec, *circuit);
        lemma_larger_side_fits(*spec);
    }
    let groups: usize = spec.groups();
    let mu: usize = spec.mu(nu);
    let lens_l = ChannelSpec::lens(&spec.lhs, circuit, groups);
    let lens_r = ChannelSpec::lens(&spec.rhs, circuit, groups);
    let live_entries: u128 = count_live(spec, circuit, &lens_l, &lens_r);
    let bits: u32 = grinding.fingerprint_bits_for(live_entries);
    let (alpha, beta) = match redraw_challenge(
        spec.challenge,
        public,
        bits,
        proof.alpha_nonce,
        ch,
    ) {
        Some(challenge) => challenge,
        None => return Err(ChannelError::InvalidGrinding),
    };
    let claim = match verify_plain(mu, &proof.gkr, grinding, ch) {
        Ok(claim) => claim,
        Err(error) => return Err(ChannelError::Gkr(error)),
    };
    if spec.balance == ChannelBalance::Equal && proof.gkr.top_lhs != proof.gkr.top_rhs {
        return Err(ChannelError::Unbalanced);
    }
    let split: usize = spec.gather_len_of_lhs();
    let rho = claim.rho.as_slice();
    let l = recombine(
        &spec.lhs,
        lens_l,
        circuit,
        public,
        proof.gather.as_slice(),
        0,
        alpha,
        beta,
        rho,
    );
    let r = recombine(
        &spec.rhs,
        lens_r,
        circuit,
        public,
        proof.gather.as_slice(),
        split,
        alpha,
        beta,
        rho,
    );
    proof {
        assert(proof.gather@.subrange(0, split as int) =~= proof.gather@.take(split as int));
        assert(proof.gather@.subrange(split as int, proof.gather@.len() as int)
            =~= proof.gather@.skip(split as int));
    }
    if l != claim.l_eval || r != claim.r_eval {
        return Err(ChannelError::Recombination);
    }
    let row = vstd::slice::slice_subrange(rho, 0, nu);
    let mut points: Vec<(Vec<F128>, F128)> = Vec::new();
    let ghost none = Seq::<Seq<F128>>::empty();
    pair_side(&spec.lhs, circuit, row, &proof.gather, &mut points, Ghost(none));
    let ghost left = side_claim_points(spec.lhs@, *circuit, row@);
    assert(none + left =~= left);
    proof {
        lemma_claim_points_count(spec.lhs@, *circuit, row@);
        lemma_claim_points_count(spec.rhs@, *circuit, row@);
        assert(row@ =~= claim.rho@.take(nu as int));
    }
    pair_side(&spec.rhs, circuit, row, &proof.gather, &mut points, Ghost(left));
    Ok(
        (
            points,
            ChannelOutput {
                alpha,
                beta,
                top_lhs: proof.gkr.top_lhs,
                top_rhs: proof.gkr.top_rhs,
            },
        ),
    )
}

} // verus!
