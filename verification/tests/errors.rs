//! The policies, shapes and rejections of a channel, on a small circuit.

use flock_channel::challenger::{BatchedGrinding, Challenger, CoinTape};
use flock_channel::channel::{
    cell_slot, prove_channel, verify_channel, ChannelBalance, ChannelChallenge, ChannelError,
    ChannelOutput, ChannelProof, ChannelSource, ChannelSpec,
};
use flock_channel::circuit::{CellSlot, CellSpace, Circuit, IoWord};
use flock_channel::field::F128;
use flock_channel::product_gkr::VerifyError;

fn f(bits: u128) -> F128 {
    F128 { bits }
}

/// Two types of two words each, four rows, eight columns.
fn small_cells(nu: usize) -> CellSpace {
    let slots = vec![
        CellSlot::Gate { ty: 0, word: IoWord::input(0) },
        CellSlot::Gate { ty: 0, word: IoWord::output(1) },
        CellSlot::Gate { ty: 1, word: IoWord::input(0) },
        CellSlot::Gate { ty: 1, word: IoWord::output(1) },
        CellSlot::Public { block: 0 },
    ];
    CellSpace::new(nu, nu + 3, slots, vec![0, 1, 4, 5]).expect("valid cell space")
}

fn small_circuit() -> Circuit {
    Circuit { cells: small_cells(2), counts: vec![3, 3], num_public: 4 }
}

/// Rows `(1, 2), (3, 4), (5, 6)` in the first table; the same, turned, in the
/// second.
fn small_buffer() -> Vec<F128> {
    let mut packed = vec![F128::zero(); 32];
    for (j, (a, b)) in [(1, 2), (3, 4), (5, 6)].into_iter().enumerate() {
        packed[j] = f(a);
        packed[4 + j] = f(b);
        let turned = (j + 1) % 3;
        packed[16 + turned] = f(a);
        packed[20 + turned] = f(b);
    }
    packed
}

fn small_public() -> Vec<F128> {
    vec![f(0x11), f(0x22), f(0x33), f(0x44)]
}

fn words() -> Vec<IoWord> {
    vec![IoWord::input(0), IoWord::output(1)]
}

fn small_spec() -> ChannelSpec {
    ChannelSpec {
        lhs: vec![ChannelSource::Gate { ty: 0, words: words() }],
        rhs: vec![ChannelSource::Gate { ty: 1, words: words() }],
        challenge: ChannelChallenge::Sampled,
        balance: ChannelBalance::Equal,
    }
}

fn free() -> BatchedGrinding {
    BatchedGrinding { fingerprint_security: 0, round_bits: 0 }
}

fn coins() -> CoinTape {
    CoinTape::new((0..40).map(|i| f(0x1234_5678_9abc_def0 * (i + 3) + 7)).collect())
}

fn prove_small(spec: &ChannelSpec, grinding: BatchedGrinding) -> (ChannelProof, ChannelOutput) {
    let (proof, _, output) = prove_channel(
        &small_circuit(),
        &small_buffer(),
        &small_public(),
        spec,
        grinding,
        &mut coins(),
    );
    (proof, output)
}

fn verdict(
    spec: &ChannelSpec,
    proof: &ChannelProof,
    grinding: BatchedGrinding,
) -> Result<ChannelOutput, ChannelError> {
    verify_channel(&small_circuit(), &small_public(), spec, proof, grinding, &mut coins())
        .map(|(_, output)| output)
}

#[test]
fn a_small_channel_has_the_expected_products() {
    let spec = ChannelSpec {
        challenge: ChannelChallenge::Public { alpha: 0, beta: 1 },
        ..small_spec()
    };
    let (proof, output) = prove_small(&spec, free());
    // beta + a + alpha b over the rows, with alpha = 0x11 and beta = 0x22.
    let rows = [(1, 2), (3, 4), (5, 6)];
    let expected = rows
        .iter()
        .fold(f(1), |acc, &(a, b)| acc * (f(0x22) + f(a) + f(0x11) * f(b)));
    assert_eq!(output.top_lhs, expected);
    assert_eq!(output.top_rhs, expected);
    assert_eq!((output.alpha, output.beta), (f(0x11), f(0x22)));
    // 0x01 * 0x65 * 0x41 as polynomials over two elements.
    assert_eq!(expected, f(0x01) * f(0x65) * f(0x41));
    assert_eq!(expected, f(0x1925));
    assert_eq!(verdict(&spec, &proof, free()), Ok(output));
}

#[test]
fn groups_are_the_larger_side_rounded_up() {
    let gate = || ChannelSource::Gate { ty: 0, words: words() };
    let mut spec = small_spec();
    for (left, right, groups) in [
        (0, 0, 1),
        (1, 0, 1),
        (0, 1, 1),
        (2, 1, 2),
        (1, 3, 4),
        (4, 4, 4),
        (5, 4, 8),
        (0, 9, 16),
    ] {
        spec.lhs = (0..left).map(|_| gate()).collect();
        spec.rhs = (0..right).map(|_| gate()).collect();
        assert_eq!(spec.groups(), groups);
        assert_eq!(1 << spec.mu(0), groups);
        assert_eq!(spec.mu(7), 7 + spec.mu(0));
        assert_eq!(spec.gather_len(), 2 * (left + right));
    }
}

#[test]
fn width_and_gather_len_count_words() {
    assert_eq!(ChannelSource::Gate { ty: 9, words: words() }.width(), 2);
    assert_eq!(ChannelSource::Public { words: vec![3, 1, 2] }.width(), 3);
    assert_eq!(ChannelSource::Public { words: vec![] }.width(), 0);
    let mut spec = small_spec();
    spec.lhs.push(ChannelSource::Public { words: vec![0, 1] });
    spec.rhs.push(ChannelSource::Gate { ty: 0, words: vec![IoWord::input(0)] });
    // Public words need no gather value.
    assert_eq!(spec.gather_len(), 2 + 2 + 1);
}

#[test]
fn cell_slot_finds_the_first_gate_slot() {
    let cells = small_cells(2);
    assert_eq!(cell_slot(&cells, 0, IoWord::input(0)), Some(0));
    assert_eq!(cell_slot(&cells, 1, IoWord::output(1)), Some(3));
    assert_eq!(cell_slot(&cells, 1, IoWord::input(1)), None);
    assert_eq!(cell_slot(&cells, 2, IoWord::input(0)), None);
    // A slot without a column is no gate slot.
    let word = IoWord::input(0);
    let slots = vec![CellSlot::Gate { ty: 0, word }, CellSlot::Gate { ty: 1, word }];
    let cells = CellSpace::new(1, 2, slots, vec![1]).unwrap();
    assert_eq!(cell_slot(&cells, 0, word), Some(0));
    assert_eq!(cell_slot(&cells, 1, word), None);
    // The first of two equal slots.
    let slots = vec![CellSlot::Gate { ty: 0, word }, CellSlot::Gate { ty: 0, word }];
    let cells = CellSpace::new(1, 2, slots, vec![1, 0]).unwrap();
    assert_eq!(cell_slot(&cells, 0, word), Some(0));
    assert_eq!(cells.gate_word_addr(0, 1), 3);
    assert_eq!(cells.gate_claim_point(0, &[f(9)]), vec![f(9), f(1)]);
}

#[test]
fn cell_spaces_must_be_addressable() {
    let slot = || CellSlot::Gate { ty: 0, word: IoWord::input(0) };
    assert!(CellSpace::new(1, 2, vec![slot()], vec![1]).is_some());
    assert!(CellSpace::new(1, 2, vec![slot()], vec![2]).is_none());
    assert!(CellSpace::new(3, 2, vec![slot()], vec![0]).is_none());
    assert!(CellSpace::new(1, 64, vec![slot()], vec![0]).is_none());
    assert!(CellSpace::new(1, 2, vec![slot()], vec![0, 1]).is_none());
}

#[test]
fn malformed_specs_are_rejected() {
    let circuit = small_circuit();
    let (proof, _) = prove_small(&small_spec(), free());
    assert!(small_spec().check(&circuit));
    let gate = |ty: usize, words: Vec<IoWord>| ChannelSource::Gate { ty, words };
    let bad = vec![
        // A word that the type lacks, an unknown type, an empty tuple.
        ChannelSpec { lhs: vec![gate(0, vec![IoWord::input(5)])], ..small_spec() },
        ChannelSpec { rhs: vec![gate(2, words())], ..small_spec() },
        ChannelSpec { rhs: vec![gate(1, vec![])], ..small_spec() },
        ChannelSpec { lhs: vec![ChannelSource::Public { words: vec![] }], ..small_spec() },
        // A public word beyond the segment, in a tuple or as the challenge.
        ChannelSpec { lhs: vec![ChannelSource::Public { words: vec![0, 4] }], ..small_spec() },
        ChannelSpec {
            challenge: ChannelChallenge::Public { alpha: 4, beta: 0 },
            ..small_spec()
        },
        ChannelSpec {
            challenge: ChannelChallenge::Public { alpha: 0, beta: 4 },
            ..small_spec()
        },
    ];
    for spec in bad {
        assert!(!spec.check(&circuit));
        assert_eq!(verdict(&spec, &proof, free()), Err(ChannelError::MalformedSpec));
    }
}

#[test]
fn a_domain_of_one_entry_is_malformed() {
    // One row and one group on each side.
    let circuit = Circuit { cells: small_cells(0), counts: vec![1, 1], num_public: 0 };
    let mut spec = small_spec();
    assert_eq!(spec.mu(0), 0);
    assert!(!spec.check(&circuit));
    // A second source makes two groups.
    spec.rhs.push(ChannelSource::Gate { ty: 1, words: words() });
    assert!(spec.check(&circuit));
    // Sides without sources over two rows are empty products.
    let circuit = Circuit { cells: small_cells(1), counts: vec![1, 1], num_public: 0 };
    let empty = ChannelSpec { lhs: vec![], rhs: vec![], ..small_spec() };
    assert!(empty.check(&circuit));
    let (proof, claims, output) =
        prove_channel(&circuit, &[], &[], &empty, free(), &mut coins());
    assert_eq!((output.top_lhs, output.top_rhs), (f(1), f(1)));
    assert!(claims.is_empty() && proof.gather.is_empty());
    assert!(verify_channel(&circuit, &[], &empty, &proof, free(), &mut coins()).is_ok());
}

#[test]
fn counts_beyond_the_rows_are_cut_off() {
    let mut circuit = small_circuit();
    circuit.counts = vec![100, 4];
    let mut packed = small_buffer();
    for j in [3, 7, 19, 23] {
        packed[j] = f(77);
    }
    let (proof, _, output) =
        prove_channel(&circuit, &packed, &small_public(), &small_spec(), free(), &mut coins());
    assert_eq!(output.top_lhs, output.top_rhs);
    assert!(
        verify_channel(&circuit, &small_public(), &small_spec(), &proof, free(), &mut coins())
            .is_ok()
    );
}

#[test]
fn malformed_proofs_are_rejected() {
    let spec = small_spec();
    let (proof, _) = prove_small(&spec, free());
    let mut long = proof.clone();
    long.gather.push(f(0));
    assert_eq!(verdict(&spec, &long, free()), Err(ChannelError::MalformedProof));
    let mut short = proof.clone();
    short.gather.pop();
    assert_eq!(verdict(&spec, &short, free()), Err(ChannelError::MalformedProof));
    assert_eq!(
        verify_channel(&small_circuit(), &[f(1)], &spec, &proof, free(), &mut coins()),
        Err(ChannelError::MalformedProof)
    );
}

#[test]
fn gather_values_must_recombine() {
    let spec = small_spec();
    let (proof, _) = prove_small(&spec, free());
    for k in 0..proof.gather.len() {
        let mut wrong = proof.clone();
        wrong.gather[k] = wrong.gather[k] + f(1);
        assert_eq!(verdict(&spec, &wrong, free()), Err(ChannelError::Recombination));
    }
}

#[test]
fn the_product_argument_must_hold() {
    let spec = ChannelSpec { balance: ChannelBalance::Exported, ..small_spec() };
    let (proof, _) = prove_small(&spec, free());
    let mismatch = Err(ChannelError::Gkr(VerifyError::LayerMismatch));
    let mut wrong = proof.clone();
    wrong.gkr.top_lhs = wrong.gkr.top_lhs + f(1);
    assert_eq!(verdict(&spec, &wrong, free()), mismatch);
    let mut wrong = proof.clone();
    wrong.gkr.layers[1].rounds[0].c2 = f(5);
    assert_eq!(verdict(&spec, &wrong, free()), mismatch);
    let mut wrong = proof.clone();
    wrong.gkr.layers[1].rhs_high = f(5);
    assert_eq!(verdict(&spec, &wrong, free()), mismatch);
    let malformed = Err(ChannelError::Gkr(VerifyError::Malformed));
    let mut wrong = proof.clone();
    wrong.gkr.layers.pop();
    assert_eq!(verdict(&spec, &wrong, free()), malformed);
    let mut wrong = proof.clone();
    wrong.gkr.layers[1].rounds.pop();
    assert_eq!(verdict(&spec, &wrong, free()), malformed);
    let grinding = Err(ChannelError::Gkr(VerifyError::InvalidGrinding));
    let mut wrong = proof.clone();
    wrong.gkr.layers[0].tau_nonce = Some(0);
    assert_eq!(verdict(&spec, &wrong, free()), grinding);
    let mut wrong = proof;
    wrong.gkr.layers[1].rounds[0].nonce = Some(0);
    assert_eq!(verdict(&spec, &wrong, free()), grinding);
}

#[test]
fn unequal_products_are_unbalanced_only_where_they_must_agree() {
    let mut circuit = small_circuit();
    circuit.counts = vec![3, 2];
    let mut spec = small_spec();
    let (proof, _, output) = prove_channel(
        &circuit,
        &small_buffer(),
        &small_public(),
        &spec,
        free(),
        &mut coins(),
    );
    assert_ne!(output.top_lhs, output.top_rhs);
    let verify = |spec: &ChannelSpec| {
        verify_channel(&circuit, &small_public(), spec, &proof, free(), &mut coins())
            .map(|(_, output)| output)
    };
    assert_eq!(verify(&spec), Err(ChannelError::Unbalanced));
    spec.balance = ChannelBalance::Exported;
    assert_eq!(verify(&spec), Ok(output));
}

#[test]
fn fingerprint_bits_make_up_for_the_tuples() {
    let policy = |fingerprint_security: u16| BatchedGrinding { fingerprint_security, round_bits: 0 };
    assert_eq!(policy(0).fingerprint_bits_for(1 << 20), 0);
    assert_eq!(policy(128).fingerprint_bits_for(0), 0);
    assert_eq!(policy(128).fingerprint_bits_for(1), 0);
    assert_eq!(policy(128).fingerprint_bits_for(2), 1);
    assert_eq!(policy(128).fingerprint_bits_for(3), 2);
    assert_eq!(policy(128).fingerprint_bits_for(4), 2);
    assert_eq!(policy(100).fingerprint_bits_for(1 << 30), 2);
    assert_eq!(policy(100).fingerprint_bits_for((1 << 30) + 1), 3);
    assert_eq!(policy(128).fingerprint_bits_for(u128::MAX), 128);
}

#[test]
fn grinding_witnesses_are_checked() {
    // Six tuples: three bits of work behind the fingerprint challenge, and five
    // behind each challenge of the product argument.
    let hard = BatchedGrinding { fingerprint_security: 128, round_bits: 5 };
    let spec = small_spec();
    let (proof, output) = prove_small(&spec, hard);
    assert_eq!(proof.alpha_nonce, Some(0));
    assert_eq!(verdict(&spec, &proof, hard), Ok(output));
    // Wrong, missing and superfluous.
    let invalid = Err(ChannelError::InvalidGrinding);
    let mut wrong = proof.clone();
    wrong.alpha_nonce = Some(1);
    assert_eq!(verdict(&spec, &wrong, hard), invalid);
    wrong.alpha_nonce = None;
    assert_eq!(verdict(&spec, &wrong, hard), invalid);
    assert_eq!(verdict(&spec, &proof, free()), invalid);
    let mut wrong = proof.clone();
    wrong.gkr.layers[1].lambda_nonce = Some(3);
    assert_eq!(
        verdict(&spec, &wrong, hard),
        Err(ChannelError::Gkr(VerifyError::InvalidGrinding))
    );
    // A public challenge has no nonce, whatever the policy.
    let public = ChannelSpec {
        challenge: ChannelChallenge::Public { alpha: 2, beta: 3 },
        ..small_spec()
    };
    let (mut proof, output) = prove_small(&public, hard);
    assert_eq!(proof.alpha_nonce, None);
    assert_eq!(verdict(&public, &proof, hard), Ok(output));
    proof.alpha_nonce = Some(0);
    assert_eq!(verdict(&public, &proof, hard), invalid);
}

#[test]
fn coins_are_dealt_in_order() {
    let mut tape = CoinTape::new(vec![f(5), f(6)]);
    tape.observe_label(b"label");
    assert_eq!(tape.sample_f128(), f(5));
    tape.observe_f128(f(9));
    assert_eq!(tape.verify_pow_and_sample_f128(1, 4), None);
    assert_eq!(tape.verify_pow_and_sample_f128(0, 4), Some(f(6)));
    assert_eq!(tape.grind_pow_and_sample_f128(4), (0, f(0)));
    assert_eq!(tape.sample_f128(), f(0));
}

#[test]
fn a_buffer_must_hold_the_live_rows_only() {
    let circuit = small_circuit();
    let spec = small_spec();
    let packed = small_buffer();
    // The last row read is row 2 of column 5.
    assert!(spec.covers(&circuit, &packed));
    assert!(spec.covers(&circuit, &packed[..23]));
    assert!(!spec.covers(&circuit, &packed[..22]));
    assert!(!spec.covers(&circuit, &[]));
    let (whole, output) = prove_small(&spec, free());
    let (proof, _, short_output) =
        prove_channel(&circuit, &packed[..23], &small_public(), &spec, free(), &mut coins());
    assert_eq!((proof, short_output), (whole, output));
    // Without live rows nothing is read, nor by a public-only channel.
    let idle = Circuit { counts: vec![0, 0], ..small_circuit() };
    assert!(spec.covers(&idle, &[]));
    let (proof, _, output) =
        prove_channel(&idle, &[], &small_public(), &spec, free(), &mut coins());
    assert_eq!((output.top_lhs, output.top_rhs), (f(1), f(1)));
    assert_eq!(proof.gather, vec![f(0); 4]);
    assert!(
        verify_channel(&idle, &small_public(), &spec, &proof, free(), &mut coins()).is_ok()
    );
    let public = ChannelSpec {
        lhs: vec![ChannelSource::Public { words: vec![0, 1] }],
        rhs: vec![ChannelSource::Public { words: vec![0, 1] }],
        ..small_spec()
    };
    assert!(public.covers(&circuit, &[]));
}

#[test]
fn only_named_words_determine_a_proof() {
    let circuit = small_circuit();
    let mut spec = small_spec();
    spec.lhs.push(ChannelSource::Public { words: vec![0, 2] });
    spec.rhs.push(ChannelSource::Public { words: vec![0, 2] });
    let prove = |packed: &[F128], public: &[F128]| {
        prove_channel(&circuit, packed, public, &spec, free(), &mut coins())
    };
    let first = prove(&small_buffer(), &small_public());
    // Dead rows, columns and public words that the channel does not name.
    let mut packed = small_buffer();
    for at in [3, 7, 8, 13, 19, 23, 31] {
        packed[at] = f(0xabcd + at as u128);
    }
    let mut public = small_public();
    public[1] = f(0x99);
    public[3] = f(0x98);
    assert_eq!(prove(&packed, &public), first);
    // A live row and a named public word count.
    let mut changed = small_buffer();
    changed[2] = f(8);
    assert_ne!(prove(&changed, &small_public()).0, first.0);
    let mut changed = small_public();
    changed[2] = f(8);
    assert_ne!(prove(&small_buffer(), &changed).0, first.0);
}
