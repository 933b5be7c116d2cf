//! The channel's prover.

use crate::balance::lemma_equal_multisets_balance;
use crate::challenger::{BatchedGrinding, Challenger, Event, Oracle};
use crate::channel::{
    cell_slot, count_live, lemma_domain, lemma_larger_side_fits, side_columns, side_fits, side_lens,
    ChannelBalance, ChannelError, ChannelOutput, ChannelProof, ChannelSource, ChannelSpec,
};
use crate::circuit::{two_to, Circuit, IoWord};
use crate::field::{lemma_add_associates, lemma_add_zero, F128};
use crate::fingerprint_challenge::{channel_challenge, draw_challenge, fingerprint_bits};
use crate::multilinear::{build_eq, eq, eq_table};
use crate::pcs::{claims_up, direct_claims, pair_side, PackedDirectClaim};
use crate::product_gkr::{grouped, honest_layers, plain_verdict, prove_plain_grouped, top_state};
use crate::recombination::{lemma_gathered_count, lemma_leaves_extend, lemma_leaves_multiply};
use crate::sums::{power, sum};
use crate::tuples::{
    column_fold, fingerprint, grand_product, leaf, leaves, lemma_claim_points_count,
    side_claim_points, side_covered, side_gathered, side_tuples, word_base,
};
use crate::verify::{channel_claim_points, channel_verdict, product_state, weigh_public, Accepted};
use rayon::prelude::{IndexedParallelIterator, IntoParallelRefMutIterator, ParallelIterator};
use vstd::arithmetic::power2::{lemma_pow2_pos, pow2};
use vstd::prelude::*;

verus! {

/// The tuple in row `row` of the columns that start at `columns`.
pub open spec fn column_tuple(packed: Seq<F128>, columns: Seq<usize>, row: int) -> Seq<F128> {
    Seq::new(columns.len(), |k: int| packed[columns[k] + row])
}

/// Writes the fingerprint of a row.
fn write_gate_leaf(
    leaf: &mut F128,
    packed: &[F128],
    columns: &[usize],
    alpha: F128,
    beta: F128,
    row: usize,
)
    requires
        forall|k: int| 0 <= k < columns@.len() ==> (#[trigger] columns@[k]) + row < packed@.len(),
    ensures
        *final(leaf) == fingerprint(column_tuple(packed@, columns@, row as int), alpha, beta),
{
    let ghost tuple = column_tuple(packed@, columns@, row as int);
    let ghost terms = |k: int| power(alpha, k as nat) * tuple[k];
    let mut fp = beta;
    let mut pow = F128::one();
    let mut k: usize = 0;
    assert(packed.len() <= usize::MAX);
    proof {
        lemma_add_zero(beta);
    }
    while k < columns.len()
        invariant
            k <= columns@.len(),
            packed@.len() <= usize::MAX,
            forall|k: int|
                0 <= k < columns@.len() ==> (#[trigger] columns@[k]) + row < packed@.len(),
            tuple == column_tuple(packed@, columns@, row as int),
            terms == (|k: int| power(alpha, k as nat) * tuple[k]),
            fp == beta + sum(terms, k as nat),
            pow == power(alpha, k as nat),
        decreases columns@.len() - k,
    {
        proof {
            lemma_add_associates(beta, sum(terms, k as nat), terms(k as int));
        }
        fp = fp + pow * packed[columns[k] + row];
        pow = pow * alpha;
        k = k + 1;
    }
    *leaf = fp;
}

/// Writes the fingerprints of the rows of a gate source into the entries from
/// `first` up to `last`, in parallel.
///
/// The parallel loop is rayon's: `par_iter_mut` on the slice, `enumerate`, and
/// `for_each` with [`write_gate_leaf`]. The contract claims of it that it calls
/// the function once on each entry of the slice, with the entry's position in
/// the slice, and touches nothing else.
#[verifier::external_body]
fn fill_gate_leaves(
    buffer: &mut Vec<F128>,
    first: usize,
    last: usize,
    packed: &[F128],
    columns: &[usize],
    alpha: F128,
    beta: F128,
)
    requires
        first <= last <= old(buffer)@.len(),
        forall|k: int|
            0 <= k < columns@.len() ==> (#[trigger] columns@[k]) + (last - first) <= packed@.len(),
    ensures
        final(buffer)@.len() == old(buffer)@.len(),
        forall|x: int|
            first <= x < last ==> #[trigger] final(buffer)@[x] == fingerprint(
                column_tuple(packed@, columns@, x - first),
                alpha,
                beta,
            ),
        forall|x: int|
            0 <= x < old(buffer)@.len() && !(first <= x < last) ==> #[trigger] final(buffer)@[x]
                == old(buffer)@[x],
{
    buffer[first..last]
        .par_iter_mut()
        .enumerate()
        .for_each(|(row, leaf)| write_gate_leaf(leaf, packed, columns, alpha, beta, row));
}

/// The addresses of the first rows of a gate source's words.
fn word_bases(circuit: &Circuit, ty: usize, words: &Vec<IoWord>) -> (bases: Vec<usize>)
    requires
        circuit.wf(),
        forall|k: int|
            0 <= k < words@.len() ==> circuit.cells.slot_of(ty, #[trigger] words@[k]) is Some,
    ensures
        bases@.len() == words@.len(),
        forall|k: int|
            0 <= k < words@.len() ==> #[trigger] bases@[k] == word_base(
                circuit.cells,
                ty,
                words@[k],
            ),
{
    let mut bases: Vec<usize> = Vec::new();
    let mut k: usize = 0;
    while k < words.len()
        invariant
            k <= words@.len(),
            circuit.wf(),
            forall|k: int|
                0 <= k < words@.len() ==> circuit.cells.slot_of(ty, #[trigger] words@[k]) is Some,
            bases@.len() == k,
            forall|i: int|
                0 <= i < k ==> #[trigger] bases@[i] == word_base(circuit.cells, ty, words@[i]),
        decreases words@.len() - k,
    {
        proof {
            assert(circuit.cells.slot_of(ty, words@[k as int]) is Some);
            lemma_pow2_pos(circuit.cells.nu as nat);
        }
        if let Some(iota) = cell_slot(circuit.cells(), ty, words[k]) {
            bases.push(circuit.cells().gate_word_addr(iota, 0));
        }
        k = k + 1;
    }
    bases
}

/// Whether the buffer holds the live rows of every word of a side.
fn covers_side(side: &Vec<ChannelSource>, circuit: &Circuit, packed: &[F128]) -> (ok: bool)
    requires
        circuit.wf(),
        side_fits(side@, *circuit),
    ensures
        ok == side_covered(side@, *circuit, packed@),
{
    let lens = ChannelSpec::lens(side, circuit, side.len());
    let mut g: usize = 0;
    while g < side.len()
        invariant
            g <= side@.len(),
            circuit.wf(),
            side_fits(side@, *circuit),
            lens@ == side_lens(side@, *circuit, side@.len()),
            forall|i: int| 0 <= i < g ==> (#[trigger] side@[i]).covered(*circuit, packed@),
        decreases side@.len() - g,
    {
        let ghost source = side@[g as int];
        let len: usize = lens[g];
        proof {
            assert(source.fits(*circuit));
            lemma_pow2_pos(circuit.cells.nu as nat);
            vstd::bits::lemma_usize_pow2_no_overflow(circuit.cells.nu as nat);
            assert(len == source.live_rows(*circuit));
        }
        if let ChannelSource::Gate { ty, words } = &side[g] {
            let bases = word_bases(circuit, *ty, words);
            let mut k: usize = 0;
            while len > 0 && k < bases.len()
                invariant
                    k <= bases@.len() == words@.len(),
                    g < side@.len(),
                    source == side@[g as int],
                    source == (ChannelSource::Gate { ty: *ty, words: *words }),
                    len == source.live_rows(*circuit),
                    forall|i: int|
                        0 <= i < words@.len() ==> #[trigger] bases@[i] == word_base(
                            circuit.cells,
                            *ty,
                            words@[i],
                        ),
                    forall|i: int|
                        0 <= i < k ==> word_base(circuit.cells, *ty, #[trigger] words@[i]) + len
                            <= packed@.len(),
                decreases bases@.len() - k,
            {
                if bases[k] > packed.len() || packed.len() - bases[k] < len {
                    proof {
                        assert(bases@[k as int] == word_base(
                            circuit.cells,
                            *ty,
                            words@[k as int],
                        ));
                        assert(source->Gate_words@[k as int] == words@[k as int]);
                        assert(!source.covered(*circuit, packed@));
                    }
                    return false;
                }
                proof {
                    assert(bases@[k as int] == word_base(circuit.cells, *ty, words@[k as int]));
                }
                k = k + 1;
            }
        }
        g = g + 1;
    }
    true
}

impl ChannelSpec {
    /// Whether the buffer holds every row that a prover of this channel reads.
    pub fn covers(&self, circuit: &Circuit, packed: &[F128]) -> (ok: bool)
        requires
            circuit.wf(),
            self.fits(*circuit),
        ensures
            ok == (side_covered(self.lhs@, *circuit, packed@) && side_covered(
                self.rhs@,
                *circuit,
                packed@,
            )),
    {
        covers_side(&self.lhs, circuit, packed) && covers_side(&self.rhs, circuit, packed)
    }
}

/// The leaves of a side: a fingerprint in every live row. Dead rows are left as
/// they come.
pub fn build_leaves(
    side: &Vec<ChannelSource>,
    lens: &Vec<usize>,
    circuit: &Circuit,
    packed: &[F128],
    public: &[F128],
    alpha: F128,
    beta: F128,
) -> (buffer: Vec<F128>)
    requires
        circuit.wf(),
        side_fits(side@, *circuit),
        side_covered(side@, *circuit, packed@),
        public@.len() == circuit.num_public,
        side@.len() <= lens@.len(),
        lens@ == side_lens(side@, *circuit, lens@.len()),
        circuit.cells.rows() * lens@.len() <= usize::MAX,
    ensures
        buffer@.len() == circuit.cells.rows() * lens@.len(),
        grouped(buffer@, lens@, circuit.cells.rows()) == leaves(
            side@,
            *circuit,
            packed@,
            public@,
            alpha,
            beta,
            lens@.len(),
        ),
{
    let rows: usize = two_to(circuit.cells().nu());
    let ghost groups = lens@.len();
    let n: usize = rows * lens.len();
    let mut buffer: Vec<F128> = vec![F128::zero(); n];
    let mut g: usize = 0;
    proof {
        lemma_pow2_pos(circuit.cells.nu as nat);
    }
    while g < side.len()
        invariant
            g <= side@.len() <= groups,
            circuit.wf(),
            rows == circuit.cells.rows(),
            rows > 0,
            groups == lens@.len(),
            side_fits(side@, *circuit),
            side_covered(side@, *circuit, packed@),
            public@.len() == circuit.num_public,
            lens@ == side_lens(side@, *circuit, groups),
            rows * groups <= usize::MAX,
            buffer@.len() == rows * groups,
            forall|x: int|
                0 <= x < rows * g && x % (rows as int) < lens@[x / (rows as int)]
                    ==> #[trigger] buffer@[x] == leaf(
                    side@,
                    *circuit,
                    packed@,
                    public@,
                    alpha,
                    beta,
                    x / (rows as int),
                    x % (rows as int),
                ),
        decreases side@.len() - g,
    {
        let ghost before = buffer@;
        let ghost source = side@[g as int];
        let len: usize = lens[g];
        proof {
            assert(source.fits(*circuit));
            assert(source.covered(*circuit, packed@));
            assert(len == source.live_rows(*circuit) && len <= rows);
            assert(rows * g + rows == rows * (g + 1)) by (nonlinear_arith);
            assert(0 <= rows * g && rows * (g + 1) <= rows * groups) by (nonlinear_arith)
                requires
                    g + 1 <= groups,
                    rows > 0,
            ;
        }
        let base: usize = rows * g;
        match &side[g] {
            ChannelSource::Gate { ty, words } => {
                let columns = word_bases(circuit, *ty, words);
                if len > 0 {
                    proof {
                        assert forall|k: int| 0 <= k < columns@.len() implies (
                        #[trigger] columns@[k]) + len <= packed@.len() by {
                            assert(columns@[k] == word_base(circuit.cells, *ty, words@[k]));
                        }
                    }
                    fill_gate_leaves(
                        &mut buffer,
                        base,
                        base + len,
                        packed,
                        columns.as_slice(),
                        alpha,
                        beta,
                    );
                }
                proof {
                    assert forall|j: int| 0 <= j < len implies #[trigger] column_tuple(
                        packed@,
                        columns@,
                        j,
                    ) == source.tuple(*circuit, packed@, public@, j) by {
                        assert(column_tuple(packed@, columns@, j) =~= source.tuple(
                            *circuit,
                            packed@,
                            public@,
                            j,
                        ));
                    }
                }
            },
            ChannelSource::Public { words } => {
                buffer.set(base, beta + weigh_public(public, words, alpha));
            },
        }
        proof {
            assert forall|x: int|
                0 <= x < rows * (g + 1) && x % (rows as int) < lens@[x / (
                rows as int)] implies #[trigger] buffer@[x] == leaf(
                side@,
                *circuit,
                packed@,
                public@,
                alpha,
                beta,
                x / (rows as int),
                x % (rows as int),
            ) by {
                if x < rows * g {
                    assert(buffer@[x] == before[x]);
                } else {
                    let j = x - rows * g;
                    assert(x / (rows as int) == g && x % (rows as int) == j) by (nonlinear_arith)
                        requires
                            x == rows * g + j,
                            0 <= j < rows,
                    ;
                }
            }
        }
        g = g + 1;
    }
    proof {
        let made = grouped(buffer@, lens@, rows as nat);
        let wanted = leaves(side@, *circuit, packed@, public@, alpha, beta, groups);
        assert forall|x: int| 0 <= x < rows * groups implies #[trigger] made[x] == wanted[x] by {
            let (q, j) = (x / (rows as int), x % (rows as int));
            assert(x == rows * q + j && 0 <= j < rows && 0 <= q < groups) by (nonlinear_arith)
                requires
                    q == x / (rows as int),
                    j == x % (rows as int),
                    rows > 0,
                    0 <= x < rows * groups,
            ;
            if j < lens@[q] {
                assert(q < side@.len());
                assert(x < rows * side@.len()) by (nonlinear_arith)
                    requires
                        x == rows * q + j,
                        0 <= j < rows,
                        q + 1 <= side@.len(),
                ;
            }
        }
        assert(made =~= wanted);
    }
    buffer
}

/// The fold of the first `len` rows of the column at `base`.
fn fold_column(
    packed: &[F128],
    base: usize,
    len: usize,
    eq_row: &Vec<F128>,
    row: Ghost<Seq<F128>>,
) -> (value: F128)
    requires
        eq_row@ == eq_table(row@),
        len > 0 ==> base + len <= packed@.len(),
        len <= pow2(row@.len()),
    ensures
        value == column_fold(packed@, base as int, len as nat, row@),
{
    let ghost terms = |j: int| eq(row@, j) * packed@[base + j];
    let mut value = F128::zero();
    let mut j: usize = 0;
    assert(packed.len() <= usize::MAX);
    while j < len
        invariant
            j <= len,
            eq_row@ == eq_table(row@),
            len > 0 ==> base + len <= packed@.len(),
            packed@.len() <= usize::MAX,
            len <= pow2(row@.len()),
            terms == (|j: int| eq(row@, j) * packed@[base + j]),
            value == sum(terms, j as nat),
        decreases len - j,
    {
        value = value + eq_row[j] * packed[base + j];
        j = j + 1;
    }
    value
}

/// Appends the folded gate columns of a side.
fn gather_side(
    side: &Vec<ChannelSource>,
    lens: &Vec<usize>,
    circuit: &Circuit,
    packed: &[F128],
    eq_row: &Vec<F128>,
    gather: &mut Vec<F128>,
    row: Ghost<Seq<F128>>,
)
    requires
        circuit.wf(),
        side_fits(side@, *circuit),
        side_covered(side@, *circuit, packed@),
        side@.len() <= lens@.len(),
        lens@ == side_lens(side@, *circuit, lens@.len()),
        row@.len() == circuit.cells.nu,
        eq_row@ == eq_table(row@),
    ensures
        final(gather)@ == old(gather)@ + side_gathered(side@, *circuit, packed@, row@),
{
    let mut g: usize = 0;
    proof {
        assert(side@.take(0) =~= Seq::empty());
        assert(gather@ =~= gather@ + side_gathered(side@.take(0), *circuit, packed@, row@));
    }
    while g < side.len()
        invariant
            g <= side@.len(),
            circuit.wf(),
            side_fits(side@, *circuit),
            side_covered(side@, *circuit, packed@),
            side@.len() <= lens@.len(),
            lens@ == side_lens(side@, *circuit, lens@.len()),
            row@.len() == circuit.cells.nu,
            eq_row@ == eq_table(row@),
            gather@ == old(gather)@ + side_gathered(
                side@.take(g as int),
                *circuit,
                packed@,
                row@,
            ),
        decreases side@.len() - g,
    {
        let ghost before = gather@;
        let ghost source = side@[g as int];
        let ghost own = source.gathered(*circuit, packed@, row@);
        let len: usize = lens[g];
        proof {
            assert(source.fits(*circuit));
            assert(source.covered(*circuit, packed@));
            lemma_pow2_pos(circuit.cells.nu as nat);
            vstd::bits::lemma_usize_pow2_no_overflow(circuit.cells.nu as nat);
            assert(len == source.live_rows(*circuit) && len <= circuit.cells.rows());
            assert(side@.take(g + 1).drop_last() =~= side@.take(g as int));
        }
        match &side[g] {
            ChannelSource::Gate { ty, words } => {
                let columns = word_bases(circuit, *ty, words);
                let mut k: usize = 0;
                assert(gather@ =~= before + own.take(0));
                while k < columns.len()
                    invariant
                        k <= columns@.len() == words@.len(),
                        source == (ChannelSource::Gate { ty: *ty, words: *words }),
                        source.covered(*circuit, packed@),
                        forall|k: int|
                            0 <= k < words@.len() ==> #[trigger] columns@[k] == word_base(
                                circuit.cells,
                                *ty,
                                words@[k],
                            ),
                        own == source.gathered(*circuit, packed@, row@),
                        len == source.live_rows(*circuit) <= pow2(row@.len()),
                        eq_row@ == eq_table(row@),
                        gather@ == before + own.take(k as int),
                    decreases columns@.len() - k,
                {
                    proof {
                        assert(columns@[k as int] == word_base(
                            circuit.cells,
                            *ty,
                            words@[k as int],
                        ));
                    }
                    gather.push(fold_column(packed, columns[k], len, eq_row, row));
                    assert(gather@ =~= before + own.take(k + 1));
                    k = k + 1;
                }
                assert(own.take(k as int) =~= own);
            },
            ChannelSource::Public { words } => {
                assert(gather@ =~= before + own);
            },
        }
        proof {
            let prefix = side_gathered(side@.take(g as int), *circuit, packed@, row@);
            assert(old(gather)@ + (prefix + own) =~= (old(gather)@ + prefix) + own);
        }
        g = g + 1;
    }
    assert(side@.take(g as int) =~= side@);
}

/// What an honest prover of a channel returns, and the transcript `after` it.
pub open spec fn honest_run(
    circuit: Circuit,
    packed: Seq<F128>,
    public: Seq<F128>,
    spec: ChannelSpec,
    grinding: BatchedGrinding,
    oracle: Oracle,
    transcript: Seq<Event>,
    proof: ChannelProof,
    claims: Seq<PackedDirectClaim>,
    output: ChannelOutput,
    after: Seq<Event>,
) -> bool {
    let mu = spec.spec_mu(circuit.cells.nu as nat);
    let groups = spec.spec_groups();
    let pushed = side_tuples(spec.lhs@, circuit, packed, public);
    let pulled = side_tuples(spec.rhs@, circuit, packed, public);
    match channel_challenge(
        oracle,
        transcript,
        spec.challenge,
        public,
        fingerprint_bits(spec, circuit, grinding),
        proof.alpha_nonce,
    ) {
        None => false,
        Some((alpha, beta, challenged)) => {
            // The challenge is the one that the transcript, or the public
            // segment, gives.
            &&& output.alpha == alpha
            &&& output.beta == beta
            // The products are those over the tuples.
            &&& output.top_lhs == grand_product(pushed, alpha, beta)
            &&& output.top_rhs == grand_product(pulled, alpha, beta)
            &&& proof.gkr.top_lhs == output.top_lhs
            &&& proof.gkr.top_rhs == output.top_rhs
            // The product argument is sent over the leaves, and succeeds.
            &&& honest_layers(
                oracle,
                grinding.round_bits,
                top_state(proof.gkr, challenged),
                proof.gkr.layers@,
                leaves(spec.lhs@, circuit, packed, public, alpha, beta, groups),
                leaves(spec.rhs@, circuit, packed, public, alpha, beta, groups),
                mu,
            )
            &&& match plain_verdict(oracle, grinding.round_bits, mu, proof.gkr, challenged) {
                Err(_) => false,
                Ok(state) => {
                    let row = state.point.take(circuit.cells.nu as int);
                    // Every gate column is folded at the point of the product
                    // argument and claimed of the buffer.
                    &&& state.point.len() == mu
                    &&& proof.gather@ == side_gathered(spec.lhs@, circuit, packed, row)
                        + side_gathered(spec.rhs@, circuit, packed, row)
                    &&& proof.gather@.len() == side_columns(spec.lhs@) + side_columns(spec.rhs@)
                    &&& claims.len() == proof.gather@.len()
                    &&& claims_up(claims, channel_claim_points(spec, circuit, row), proof.gather@)
                    &&& after == state.transcript
                },
            }
        },
    }
}

/// Proves one channel over the committed buffer `packed` and the circuit's
/// public words. Returns the transcript, the evaluation claims on the buffer
/// (gate columns, left then right, in spec order) and the challenge with the
/// two products.
pub fn prove_channel<C: Challenger>(
    circuit: &Circuit,
    packed: &[F128],
    public: &[F128],
    spec: &ChannelSpec,
    grinding: BatchedGrinding,
    ch: &mut C,
) -> (proved: (ChannelProof, Vec<PackedDirectClaim>, ChannelOutput))
    requires
        circuit.wf(),
        spec.sized(),
        spec.fits(*circuit),
        public@.len() == circuit.num_public,
        side_covered(spec.lhs@, *circuit, packed@),
        side_covered(spec.rhs@, *circuit, packed@),
    ensures
        final(ch).oracle() == old(ch).oracle(),
        ({
            let (proof, claims, output) = proved;
            let state = product_state(
                *circuit,
                public@,
                *spec,
                proof,
                grinding,
                old(ch).oracle(),
                old(ch).transcript(),
            );
            // Challenge, products, messages, folds and claims are an honest
            // prover's.
            &&& honest_run(
                *circuit,
                packed@,
                public@,
                *spec,
                grinding,
                old(ch).oracle(),
                old(ch).transcript(),
                proof,
                claims@,
                output,
                final(ch).transcript(),
            )
            // Equal multisets have equal products.
            &&& side_tuples(spec.lhs@, *circuit, packed@, public@).to_multiset() == side_tuples(
                spec.rhs@,
                *circuit,
                packed@,
                public@,
            ).to_multiset() ==> output.top_lhs == output.top_rhs
            // The verifier accepts, unless the products must agree and do not.
            &&& channel_verdict(
                *circuit,
                public@,
                *spec,
                proof,
                grinding,
                old(ch).oracle(),
                old(ch).transcript(),
            ) == if spec.balance == ChannelBalance::Equal && output.top_lhs != output.top_rhs {
                Err::<Accepted, ChannelError>(ChannelError::Unbalanced)
            } else {
                Ok(
                    Accepted {
                        output,
                        rho: state.point,
                        transcript: final(ch).transcript(),
                    },
                )
            }
        }),
{
    let nu: usize = circuit.cells().nu();
    proof {
        lemma_domain(*spec, *circuit);
        lemma_larger_side_fits(*spec);
        lemma_pow2_pos(nu as nat);
    }
    let rows: usize = two_to(nu);
    let groups: usize = spec.groups();
    let mu: usize = spec.mu(nu);
    let lens_l = ChannelSpec::lens(&spec.lhs, circuit, groups);
    let lens_r = ChannelSpec::lens(&spec.rhs, circuit, groups);
    let live_entries: u128 = count_live(spec, circuit, &lens_l, &lens_r);
    let bits: u32 = grinding.fingerprint_bits_for(live_entries);
    let (alpha_nonce, alpha, beta) = draw_challenge(spec.challenge, public, bits, ch);
    let lhs = build_leaves(&spec.lhs, &lens_l, circuit, packed, public, alpha, beta);
    let rhs = build_leaves(&spec.rhs, &lens_r, circuit, packed, public, alpha, beta);
    let (gkr, claim) = prove_plain_grouped(lhs, &lens_l, rhs, &lens_r, rows, mu, grinding, ch);
    let ghost rho = claim.rho@;
    let ghost row = rho.take(nu as int);
    let ghost group = rho.skip(nu as int);
    let rho_row = vstd::slice::slice_subrange(claim.rho.as_slice(), 0, nu);
    assert(rho_row@ =~= row);
    let eq_row = build_eq(rho_row);
    let mut gather: Vec<F128> = Vec::new();
    gather_side(&spec.lhs, &lens_l, circuit, packed, &eq_row, &mut gather, Ghost(row));
    let ghost left = side_gathered(spec.lhs@, *circuit, packed@, row);
    let ghost right = side_gathered(spec.rhs@, *circuit, packed@, row);
    assert(gather@ =~= left);
    gather_side(&spec.rhs, &lens_r, circuit, packed, &eq_row, &mut gather, Ghost(row));
    proof {
        lemma_gathered_count(spec.lhs@, *circuit, packed@, row);
        lemma_gathered_count(spec.rhs@, *circuit, packed@, row);
        lemma_claim_points_count(spec.lhs@, *circuit, row);
        lemma_claim_points_count(spec.rhs@, *circuit, row);
        assert(gather@.take(left.len() as int) =~= left);
        assert(gather@.skip(left.len() as int) =~= right);
        // The leaves' products and extensions.
        assert(spec.lhs@.take(spec.lhs@.len() as int) =~= spec.lhs@);
        assert(spec.rhs@.take(spec.rhs@.len() as int) =~= spec.rhs@);
        lemma_leaves_multiply(spec.lhs@, *circuit, packed@, public@, alpha, beta, groups as nat);
        lemma_leaves_multiply(spec.rhs@, *circuit, packed@, public@, alpha, beta, groups as nat);
        lemma_leaves_extend(spec.lhs@, *circuit, packed@, public@, alpha, beta, row, group);
        lemma_leaves_extend(spec.rhs@, *circuit, packed@, public@, alpha, beta, row, group);
        assert(row + group =~= rho);
    }
    let mut points: Vec<(Vec<F128>, F128)> = Vec::new();
    let ghost none = Seq::<Seq<F128>>::empty();
    pair_side(&spec.lhs, circuit, rho_row, &gather, &mut points, Ghost(none));
    let ghost left_points = side_claim_points(spec.lhs@, *circuit, row);
    assert(none + left_points =~= left_points);
    pair_side(&spec.rhs, circuit, rho_row, &gather, &mut points, Ghost(left_points));
    let claims = direct_claims(points);
    let output = ChannelOutput { alpha, beta, top_lhs: gkr.top_lhs, top_rhs: gkr.top_rhs };
    proof {
        let pushed = side_tuples(spec.lhs@, *circuit, packed@, public@);
        let pulled = side_tuples(spec.rhs@, *circuit, packed@, public@);
        if pushed.to_multiset() == pulled.to_multiset() {
            lemma_equal_multisets_balance(pushed, pulled, alpha, beta);
        }
    }
    (ChannelProof { alpha_nonce, gkr, gather }, claims, output)
}

} // verus!
