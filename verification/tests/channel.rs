//! Multiset channels end to end.
//!
//! Two `mult` tables carry the same `(a, b, a * b)` tuples in different row
//! orders, with no copy constraints between them: only the channel relates the
//! two, so an accept says the channel is doing the work.
//!
//! 1. A balanced channel over a permuted multiset verifies.
//! 2. A changed tuple and a duplicated tuple (multiplicity) are rejected.
//! 3. An exported channel under a public challenge returns the challenge and
//!    both native products, which differ.
//! 4. A public-word tuple joins a side and balances a missing gate row; a wrong
//!    public word is rejected.

use flock_channel::challenger::{BatchedGrinding, Challenger, Oracle, Transcript};
use flock_channel::channel::{
    prove_channel, verify_channel, ChannelBalance, ChannelChallenge, ChannelError, ChannelOutput,
    ChannelProof, ChannelSource, ChannelSpec,
};
use flock_channel::circuit::{CellSlot, CellSpace, Circuit, IoWord};
use flock_channel::field::F128;
use flock_channel::pcs::{DirectEqInd, PackedDirectClaim};

const NU: usize = 12;
const KAPPA: usize = 3;
const N: usize = 20;

/// SplitMix64.
struct Rng(u64);

impl Rng {
    fn new(seed: u64) -> Self {
        Self(seed)
    }
    fn next_u64(&mut self) -> u64 {
        self.0 = self.0.wrapping_add(0x9E37_79B9_7F4A_7C15);
        let mut z = self.0;
        z = (z ^ (z >> 30)).wrapping_mul(0xBF58_476D_1CE4_E5B9);
        z = (z ^ (z >> 27)).wrapping_mul(0x94D0_49BB_1331_11EB);
        z ^ (z >> 31)
    }
    fn f128(&mut self) -> F128 {
        F128::new(self.next_u64(), self.next_u64())
    }
    fn below(&mut self, n: usize) -> usize {
        (self.next_u64() % n as u64) as usize
    }
}

fn no_grinding() -> BatchedGrinding {
    BatchedGrinding { fingerprint_security: 0, round_bits: 0 }
}

/// A challenger that mixes everything it absorbs into its state.
struct Mixer(u128);

impl Mixer {
    fn new() -> Self {
        let mut mixer = Mixer(0x6a09_e667_f3bc_c908_bb67_ae85_84ca_a73b);
        mixer.observe_label(b"flock-channel-test-v0");
        mixer
    }
    fn absorb(&mut self, word: u128) {
        let mut z = (self.0 ^ word).wrapping_mul(0xda94_2042_e4dd_58b5_da94_2042_e4dd_58b5);
        z = (z ^ (z >> 61)).wrapping_mul(0x2360_ed05_1fc6_5da4_4385_df64_9fcc_f645);
        self.0 = z ^ (z >> 67);
    }
    fn solves(&self, nonce: u64, bits: u32) -> bool {
        let mut after = Mixer(self.0);
        after.absorb(nonce as u128);
        after.0.trailing_zeros() >= bits
    }
}

impl Challenger for Mixer {
    fn oracle(&self) -> Oracle {
        unreachable!("not executable")
    }
    fn transcript(&self) -> Transcript {
        unreachable!("not executable")
    }
    fn observe_label(&mut self, label: &[u8]) {
        for &byte in label {
            self.absorb(0x100 + byte as u128);
        }
    }
    fn observe_f128(&mut self, value: F128) {
        self.absorb(value.bits);
    }
    fn sample_f128(&mut self) -> F128 {
        self.absorb(1);
        F128 { bits: self.0 }
    }
    fn grind_pow_and_sample_f128(&mut self, bits: u32) -> (u64, F128) {
        let nonce = (0..).find(|&nonce| self.solves(nonce, bits)).expect("some nonce solves");
        self.absorb(nonce as u128);
        (nonce, self.sample_f128())
    }
    fn verify_pow_and_sample_f128(&mut self, nonce: u64, bits: u32) -> Option<F128> {
        if !self.solves(nonce, bits) {
            return None;
        }
        self.absorb(nonce as u128);
        Some(self.sample_f128())
    }
}

/// The columns of one `mult` table holding `pairs` in row order.
fn table_witness(pairs: &[(F128, F128)]) -> Vec<F128> {
    let at = |c: usize, j: usize| (c << NU) + j;
    let mut z = vec![F128::zero(); (1 << KAPPA) << NU];
    for (j, &(a, b)) in pairs.iter().enumerate() {
        z[at(0, j)] = a;
        z[at(1, j)] = b;
        z[at(2, j)] = a * b;
    }
    z
}

/// The tuple a `mult` row contributes: `(a, b, a * b)`.
fn row_tuple(ty: usize) -> ChannelSource {
    ChannelSource::Gate {
        ty,
        words: vec![IoWord::input(0), IoWord::input(1), IoWord::output(2)],
    }
}

/// The native product of `beta + a + alpha b + alpha^2 a b` over the pairs.
fn native_product(pairs: &[(F128, F128)], alpha: F128, beta: F128) -> F128 {
    pairs.iter().fold(F128::one(), |acc, &(a, b)| {
        acc * (beta + a + alpha * b + alpha * alpha * (a * b))
    })
}

fn random_pairs(rng: &mut Rng, n: usize) -> Vec<(F128, F128)> {
    (0..n).map(|_| (rng.f128(), rng.f128())).collect()
}

fn shuffled(rng: &mut Rng, pairs: &[(F128, F128)]) -> Vec<(F128, F128)> {
    let mut out = pairs.to_vec();
    for i in (1..out.len()).rev() {
        out.swap(i, rng.below(i + 1));
    }
    out
}

/// Two `mult` types, each with its three words in the first columns of its
/// table.
fn circuit(counts: Vec<usize>, num_public: usize) -> Circuit {
    let mut slots = Vec::new();
    let mut columns = Vec::new();
    for ty in 0..2 {
        for (k, word) in [IoWord::input(0), IoWord::input(1), IoWord::output(2)]
            .into_iter()
            .enumerate()
        {
            slots.push(CellSlot::Gate { ty, word });
            columns.push((ty << KAPPA) + k);
        }
    }
    slots.push(CellSlot::Public { block: 0 });
    let cells = CellSpace::new(NU, NU + KAPPA + 1, slots, columns).expect("valid cell space");
    Circuit { cells, counts, num_public }
}

fn prove(
    a: &[(F128, F128)],
    b: &[(F128, F128)],
    public: &[F128],
    spec: &ChannelSpec,
) -> (Circuit, Vec<F128>, ChannelProof, Vec<PackedDirectClaim>, ChannelOutput) {
    let mut packed = table_witness(a);
    packed.extend(table_witness(b));
    let circuit = circuit(vec![a.len(), b.len()], public.len());
    assert!(spec.check(&circuit));
    let (proof, claims, output) =
        prove_channel(&circuit, &packed, public, spec, no_grinding(), &mut Mixer::new());
    (circuit, packed, proof, claims, output)
}

fn verify(
    circuit: &Circuit,
    public: &[F128],
    spec: &ChannelSpec,
    proof: &ChannelProof,
) -> Result<(Vec<(Vec<F128>, F128)>, ChannelOutput), ChannelError> {
    verify_channel(circuit, public, spec, proof, no_grinding(), &mut Mixer::new())
}

/// The extension of the buffer at a point, lowest coordinate first.
fn extension(buffer: &[F128], point: &[F128]) -> F128 {
    let mut table = buffer.to_vec();
    for &x in point {
        table = table
            .chunks(2)
            .map(|pair| pair[0] + x * (pair[0] + pair[1]))
            .collect();
    }
    assert_eq!(table.len(), 1);
    table[0]
}

#[test]
fn balanced_channel_over_a_permutation_verifies() {
    let mut rng = Rng::new(0xC4A1_1001);
    let a = random_pairs(&mut rng, N);
    let b = shuffled(&mut rng, &a);
    let spec = ChannelSpec {
        lhs: vec![row_tuple(0)],
        rhs: vec![row_tuple(1)],
        challenge: ChannelChallenge::Sampled,
        balance: ChannelBalance::Equal,
    };
    let (circuit, packed, proof, claims, output) = prove(&a, &b, &[], &spec);
    let (pairs, out) = verify(&circuit, &[], &spec, &proof).expect("a permuted multiset balances");
    assert_eq!(out, output);
    assert_eq!(out.top_lhs, out.top_rhs);
    assert_eq!(out.top_lhs, native_product(&a, out.alpha, out.beta));

    // The verifier's pairs are the prover's claims, and they hold of the buffer.
    assert_eq!(claims.len(), spec.gather_len());
    assert_eq!(pairs.len(), claims.len());
    for (claim, (point, value)) in claims.iter().zip(&pairs) {
        assert_eq!(&claim.point, point);
        assert_eq!(claim.value, *value);
        assert_eq!(claim.eq_ind, DirectEqInd::EqPoint(point.clone()));
        assert_eq!(extension(&packed, point), *value);
    }
    assert_eq!(proof.alpha_nonce, None);
    assert_eq!(proof.gkr.layers.len(), spec.mu(NU));
}

#[test]
fn changed_and_duplicated_tuples_are_rejected() {
    let mut rng = Rng::new(0xC4A1_1002);
    let a = random_pairs(&mut rng, N);
    let spec = ChannelSpec {
        lhs: vec![row_tuple(0)],
        rhs: vec![row_tuple(1)],
        challenge: ChannelChallenge::Sampled,
        balance: ChannelBalance::Equal,
    };
    // One tuple replaced by a fresh one.
    let mut changed = shuffled(&mut rng, &a);
    changed[7] = (rng.f128(), rng.f128());
    let (circuit, _, proof, _, _) = prove(&a, &changed, &[], &spec);
    assert_eq!(
        verify(&circuit, &[], &spec, &proof),
        Err(ChannelError::Unbalanced),
        "a changed tuple must unbalance the channel"
    );
    // One tuple duplicated in place of another: the same set, a different
    // multiset.
    let mut duplicated = shuffled(&mut rng, &a);
    duplicated[3] = duplicated[4];
    let (circuit, _, proof, _, _) = prove(&a, &duplicated, &[], &spec);
    assert_eq!(
        verify(&circuit, &[], &spec, &proof),
        Err(ChannelError::Unbalanced),
        "a duplicated tuple must unbalance the channel"
    );
}

#[test]
fn exported_products_under_a_public_challenge() {
    let mut rng = Rng::new(0xC4A1_1003);
    let a = random_pairs(&mut rng, N);
    let b = random_pairs(&mut rng, N - 3);
    let (alpha, beta) = (rng.f128(), rng.f128());
    let public = [alpha, beta];
    let spec = ChannelSpec {
        lhs: vec![row_tuple(0)],
        rhs: vec![row_tuple(1)],
        challenge: ChannelChallenge::Public { alpha: 0, beta: 1 },
        balance: ChannelBalance::Exported,
    };
    let (circuit, _, proof, _, _) = prove(&a, &b, &public, &spec);
    let (_, out) =
        verify(&circuit, &public, &spec, &proof).expect("an exported channel never requires balance");
    assert_eq!((out.alpha, out.beta), (alpha, beta));
    assert_eq!(out.top_lhs, native_product(&a, alpha, beta));
    assert_eq!(out.top_rhs, native_product(&b, alpha, beta));
    assert_ne!(out.top_lhs, out.top_rhs);

    // The same proof under a different public challenge is a different
    // statement.
    let other = [beta, alpha];
    assert!(
        verify(&circuit, &other, &spec, &proof).is_err(),
        "a proof under one public challenge must not verify under another"
    );
}

#[test]
fn a_public_tuple_balances_a_missing_row() {
    let mut rng = Rng::new(0xC4A1_1004);
    let a = random_pairs(&mut rng, N);
    // B holds every tuple of A but the first; the public segment supplies it.
    let b = shuffled(&mut rng, &a[1..]);
    let (x, y) = a[0];
    let public = [x, y, x * y];
    let spec = ChannelSpec {
        lhs: vec![row_tuple(0)],
        rhs: vec![row_tuple(1), ChannelSource::Public { words: vec![0, 1, 2] }],
        challenge: ChannelChallenge::Sampled,
        balance: ChannelBalance::Equal,
    };
    let (circuit, _, proof, _, _) = prove(&a, &b, &public, &spec);
    verify(&circuit, &public, &spec, &proof).expect("the public tuple completes the multiset");

    // A wrong public word changes the public tuple, and the statement.
    let mut wrong = public;
    wrong[2] = wrong[2] + F128::one();
    assert!(
        verify(&circuit, &wrong, &spec, &proof).is_err(),
        "a wrong public tuple must be rejected"
    );
}

#[test]
fn disabled_rows_cancel() {
    // The last rows of both tables hold a tuple that is pushed and pulled.
    let mut rng = Rng::new(0xC4A1_1005);
    let mut a = random_pairs(&mut rng, N);
    let mut b = shuffled(&mut rng, &a);
    let idle = (rng.f128(), rng.f128());
    a.push(idle);
    b.insert(4, idle);
    let spec = ChannelSpec {
        lhs: vec![row_tuple(0)],
        rhs: vec![row_tuple(1)],
        challenge: ChannelChallenge::Sampled,
        balance: ChannelBalance::Equal,
    };
    let (circuit, _, proof, _, out) = prove(&a, &b, &[], &spec);
    assert!(verify(&circuit, &[], &spec, &proof).is_ok());
    assert_eq!(out.top_lhs, native_product(&a, out.alpha, out.beta));
}

#[test]
fn rows_beyond_the_count_do_not_count() {
    let mut rng = Rng::new(0xC4A1_1006);
    let a = random_pairs(&mut rng, N);
    let b = shuffled(&mut rng, &a);
    let spec = ChannelSpec {
        lhs: vec![row_tuple(0)],
        rhs: vec![row_tuple(1)],
        challenge: ChannelChallenge::Sampled,
        balance: ChannelBalance::Equal,
    };
    let (circuit, packed, proof, _, _) = prove(&a, &b, &[], &spec);
    let mut stray = packed.clone();
    stray[N] = rng.f128();
    stray[(1 << NU) + N + 3] = rng.f128();
    let (other, _, _) =
        prove_channel(&circuit, &stray, &[], &spec, no_grinding(), &mut Mixer::new());
    assert_eq!(other, proof);
    // The claims do not hold of such a buffer.
    let (pairs, _) = verify(&circuit, &[], &spec, &other).unwrap();
    assert_ne!(extension(&stray, &pairs[0].0), pairs[0].1);
    assert_eq!(extension(&packed, &pairs[0].0), pairs[0].1);
}

#[test]
fn sides_of_different_source_counts_balance() {
    // Three sources against one: four groups, the smaller side's dead.
    let mut rng = Rng::new(0xC4A1_1007);
    let a = random_pairs(&mut rng, 6);
    let (x, y) = a[0];
    let (u, v) = a[1];
    let public = [x, y, x * y, u, v, u * v];
    let b = shuffled(&mut rng, &a[2..]);
    let spec = ChannelSpec {
        lhs: vec![row_tuple(0)],
        rhs: vec![
            ChannelSource::Public { words: vec![3, 4, 5] },
            row_tuple(1),
            ChannelSource::Public { words: vec![0, 1, 2] },
        ],
        challenge: ChannelChallenge::Sampled,
        balance: ChannelBalance::Equal,
    };
    assert_eq!(spec.groups(), 4);
    let (circuit, _, proof, _, out) = prove(&a, &b, &public, &spec);
    let (_, verified) = verify(&circuit, &public, &spec, &proof).unwrap();
    assert_eq!(verified, out);
    assert_eq!(out.top_rhs, native_product(&a, out.alpha, out.beta));
}

#[test]
fn zeros_at_the_end_of_a_tuple_do_not_count() {
    // (x, y) against (x, y, 0): different tuples with the same fingerprint.
    let mut rng = Rng::new(0xC4A1_1008);
    let public = [rng.f128(), rng.f128(), F128::zero(), rng.f128()];
    let circuit = circuit(vec![0, 0], public.len());
    let mut spec = ChannelSpec {
        lhs: vec![ChannelSource::Public { words: vec![0, 1] }],
        rhs: vec![ChannelSource::Public { words: vec![0, 1, 2] }],
        challenge: ChannelChallenge::Sampled,
        balance: ChannelBalance::Equal,
    };
    let (proof, _, _) = prove_channel(&circuit, &[], &public, &spec, no_grinding(), &mut Mixer::new());
    assert!(verify(&circuit, &public, &spec, &proof).is_ok());
    spec.rhs = vec![ChannelSource::Public { words: vec![0, 1, 3] }];
    let (proof, _, _) = prove_channel(&circuit, &[], &public, &spec, no_grinding(), &mut Mixer::new());
    assert_eq!(verify(&circuit, &public, &spec, &proof), Err(ChannelError::Unbalanced));
}

#[test]
fn ground_challenges_verify_under_the_same_policy() {
    let mut rng = Rng::new(0xC4A1_1009);
    let a = random_pairs(&mut rng, N);
    let b = shuffled(&mut rng, &a);
    let spec = ChannelSpec {
        lhs: vec![row_tuple(0)],
        rhs: vec![row_tuple(1)],
        challenge: ChannelChallenge::Sampled,
        balance: ChannelBalance::Equal,
    };
    // Forty tuples leave six of the field's bits open.
    let policy = BatchedGrinding { fingerprint_security: 126, round_bits: 2 };
    assert_eq!(policy.fingerprint_bits_for(2 * N as u128), 4);
    let mut packed = table_witness(&a);
    packed.extend(table_witness(&b));
    let circuit = circuit(vec![N, N], 0);
    let (proof, _, output) =
        prove_channel(&circuit, &packed, &[], &spec, policy, &mut Mixer::new());
    let nonce = proof.alpha_nonce.expect("the policy grinds the challenge");
    let verify = |proof: &ChannelProof, policy: BatchedGrinding| {
        verify_channel(&circuit, &[], &spec, proof, policy, &mut Mixer::new())
            .map(|(_, output)| output)
    };
    assert_eq!(verify(&proof, policy), Ok(output));
    assert_eq!(verify(&proof, no_grinding()), Err(ChannelError::InvalidGrinding));
    let mut wrong = proof;
    wrong.alpha_nonce = Some(nonce + 1);
    assert!(verify(&wrong, policy).is_err());
}

#[test]
fn products_of_different_multisets_disagree_at_scattered_challenges() {
    // The same set with other multiplicities, and one tuple fewer.
    let mut rng = Rng::new(0xC4A1_100A);
    let (p, q) = ((rng.f128(), rng.f128()), (rng.f128(), rng.f128()));
    let left = [p, p, q];
    for _ in 0..20 {
        let (alpha, beta) = (rng.f128(), rng.f128());
        let product = native_product(&left, alpha, beta);
        assert_ne!(product, native_product(&[p, q, q], alpha, beta));
        assert_ne!(product, native_product(&[p, q], alpha, beta));
        assert_eq!(product, native_product(&[q, p, p], alpha, beta));
        // Nor is the product the same at another challenge.
        assert_ne!(product, native_product(&left, beta, alpha));
    }
    // At a challenge where a common fingerprint is zero, products agree.
    let alpha = rng.f128();
    let beta = p.0 + alpha * p.1 + alpha * alpha * (p.0 * p.1);
    assert_eq!(native_product(&left, alpha, beta), F128::zero());
    assert_eq!(native_product(&[p, q, q], alpha, beta), F128::zero());
}
