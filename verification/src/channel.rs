//! Multiset channels over a circuit's cell space.
//!
//! A channel is two multisets of tuples, a left side and a right side, each
//! drawn from the rows of gate slots (every live row of a registry type
//! contributes the tuple formed by its listed schema words) and from public
//! words (one tuple each). A tuple `t` is fingerprinted as
//! `beta + sum_k alpha^k t[k]`, and the channel proves the two products of the
//! fingerprints over a grouped domain: one group of `2^nu` rows for each
//! source, its dead rows implicit ones. Both products are reduced to evaluation
//! claims on the committed buffer. No channel column is ever committed.
//!
//! What a channel means is the caller's. Under [`ChannelBalance::Equal`] the
//! verifier requires the two products to agree: pushes equal pulls as
//! multisets, multiplicity included. Under [`ChannelBalance::Exported`] both
//! are returned for an enclosing statement.
//!
//! The challenge `(alpha, beta)` is sampled from the transcript at the
//! channel's position, or read from the public segment. Products of different
//! multisets of at most `N` tuples of width at most `W` agree at a random
//! challenge with probability at most `N W / 2^128`; see
//! [`crate::collisions`]. What an accepted proof says of the buffer is in
//! [`crate::soundness`].
//!
//! A gate source contributes its type's declared rows. The rows beyond the
//! count are dead, and zero in the committed buffer, so that the verifier
//! reconstructs a leaf evaluation from one fold of each column and the
//! evaluation of the live mask. Rows that a gate keeps disabled inside its
//! count must cancel: push and pull the same tuple.

use crate::challenger::{ceil_log2, lemma_ceil_log2};
use crate::circuit::{find_slot, lemma_find_slot, two_to, CellSlot, CellSpace, Circuit, IoWord};
use crate::field::F128;
use crate::product_gkr::{PlainGkrProof, VerifyError};
pub use crate::prove::prove_channel;
pub use crate::verify::verify_channel;
use vstd::arithmetic::power2::{
    lemma2_to64, lemma_pow2_adds, lemma_pow2_pos, lemma_pow2_strictly_increases, lemma_pow2_unfold,
    pow2,
};
use vstd::prelude::*;

verus! {

/// Where one side's tuples come from.
#[derive(Clone, Debug, PartialEq, Eq)]
pub enum ChannelSource {
    /// Every live row of registry slot `ty`: the tuple is that row's listed
    /// schema words, in order (`words.len()` is the tuple width).
    Gate { ty: usize, words: Vec<IoWord> },
    /// One tuple of public words, by public-segment index.
    Public { words: Vec<usize> },
}

/// Where the fingerprint challenge `(alpha, beta)` comes from.
#[derive(Clone, Copy, Debug, PartialEq, Eq, Structural)]
pub enum ChannelChallenge {
    /// Squeezed from the transcript at the channel's position.
    Sampled,
    /// Read from the public segment at these word indices. The enclosing
    /// statement is responsible for how those words were chosen.
    Public { alpha: usize, beta: usize },
}

/// What the verifier does with the two products.
#[derive(Clone, Copy, Debug, PartialEq, Eq, Structural)]
pub enum ChannelBalance {
    /// Require them to be equal.
    Equal,
    /// Return both; the enclosing statement consumes them.
    Exported,
}

/// One channel: verifier policy, held by the verifier like the circuit.
#[derive(Clone, Debug, PartialEq, Eq)]
pub struct ChannelSpec {
    pub lhs: Vec<ChannelSource>,
    pub rhs: Vec<ChannelSource>,
    pub challenge: ChannelChallenge,
    pub balance: ChannelBalance,
}

/// A channel's transcript.
#[derive(Clone, Debug, PartialEq, Eq)]
pub struct ChannelProof {
    /// The sampled challenge's nonce when the policy grinds it; `None` for a
    /// public challenge or a grind-free policy.
    pub alpha_nonce: Option<u64>,
    pub gkr: PlainGkrProof,
    /// One weighted row fold for each gate column, left sources then right, in
    /// spec order.
    pub gather: Vec<F128>,
}

/// What a verified channel leaves for the enclosing statement.
#[derive(Clone, Copy, Debug, PartialEq, Eq, Structural)]
pub struct ChannelOutput {
    pub alpha: F128,
    pub beta: F128,
    pub top_lhs: F128,
    pub top_rhs: F128,
}

/// Why a channel proof was rejected.
#[derive(Clone, Copy, Debug, PartialEq, Eq, Structural)]
pub enum ChannelError {
    /// The spec does not fit the circuit.
    MalformedSpec,
    /// Wrong gather length or public segment.
    MalformedProof,
    /// The product argument rejected.
    Gkr(VerifyError),
    /// The gather values do not recombine to the product argument's leaf
    /// evaluations.
    Recombination,
    /// The products differ under [`ChannelBalance::Equal`].
    Unbalanced,
    /// A challenge grinding witness was missing, superfluous or wrong.
    InvalidGrinding,
}

impl ChannelSource {
    /// Tuple width.
    pub open spec fn spec_width(self) -> nat {
        match self {
            ChannelSource::Gate { ty, words } => words@.len(),
            ChannelSource::Public { words } => words@.len(),
        }
    }

    /// How many gate columns this source has.
    pub open spec fn gate_columns(self) -> nat {
        match self {
            ChannelSource::Gate { ty, words } => words@.len(),
            ChannelSource::Public { words } => 0,
        }
    }

    /// Whether this source names only existing cell slots and public words,
    /// and at least one.
    pub open spec fn fits(self, circuit: Circuit) -> bool {
        match self {
            ChannelSource::Gate { ty, words } => {
                &&& words@.len() > 0
                &&& ty < circuit.counts@.len()
                &&& forall|k: int|
                    0 <= k < words@.len() ==> circuit.cells.slot_of(
                        ty,
                        #[trigger] words@[k],
                    ) is Some
            },
            ChannelSource::Public { words } => {
                &&& words@.len() > 0
                &&& forall|k: int|
                    0 <= k < words@.len() ==> (#[trigger] words@[k]) < circuit.num_public
            },
        }
    }

    /// The rows that carry a tuple: those the circuit declares of a type, at
    /// most all of them, or the one row of a public tuple.
    pub open spec fn live_rows(self, circuit: Circuit) -> nat {
        match self {
            ChannelSource::Gate { ty, words } => if circuit.counts@[ty as int]
                < circuit.cells.rows() {
                circuit.counts@[ty as int] as nat
            } else {
                circuit.cells.rows()
            },
            ChannelSource::Public { words } => 1,
        }
    }

    /// Tuple width.
    pub fn width(&self) -> (width: usize)
        ensures
            width == self.spec_width(),
    {
        match self {
            ChannelSource::Gate { ty, words } => words.len(),
            ChannelSource::Public { words } => words.len(),
        }
    }

    /// Whether this source names only existing cell slots and public words,
    /// and at least one.
    #[verifier::loop_isolation(false)]
    fn check(&self, circuit: &Circuit) -> (ok: bool)
        requires
            circuit.wf(),
        ensures
            ok == self.fits(*circuit),
    {
        match self {
            ChannelSource::Gate { ty, words } => {
                if words.len() == 0 || *ty >= circuit.counts().len() {
                    return false;
                }
                let mut k: usize = 0;
                while k < words.len()
                    invariant
                        k <= words@.len(),
                        forall|i: int|
                            0 <= i < k ==> circuit.cells.slot_of(
                                *ty,
                                #[trigger] words@[i],
                            ) is Some,
                    decreases words@.len() - k,
                {
                    if cell_slot(circuit.cells(), *ty, words[k]).is_none() {
                        return false;
                    }
                    k = k + 1;
                }
                true
            },
            ChannelSource::Public { words } => {
                if words.len() == 0 {
                    return false;
                }
                let mut k: usize = 0;
                while k < words.len()
                    invariant
                        k <= words@.len(),
                        forall|i: int| 0 <= i < k ==> (#[trigger] words@[i]) < circuit.num_public,
                    decreases words@.len() - k,
                {
                    if words[k] >= circuit.num_public() {
                        return false;
                    }
                    k = k + 1;
                }
                true
            },
        }
    }
}

/// The cell-slot index of `(ty, word)`, if the registry type has that word.
pub fn cell_slot(cells: &CellSpace, ty: usize, word: IoWord) -> (slot: Option<usize>)
    requires
        cells.wf(),
    ensures
        match cells.slot_of(ty, word) {
            Some(iota) => slot is Some && slot->0 == iota && iota < cells.columns@.len(),
            None => slot is None,
        },
{
    let slots = cells.slots();
    let mut i: usize = 0;
    while i < cells.num_gate_slots()
        invariant
            i <= cells.columns@.len(),
            cells.wf(),
            slots@ == cells.slots@,
            find_slot(slots@, i as nat, ty, word) is None,
        decreases cells.columns@.len() - i,
    {
        if slots[i] == (CellSlot::Gate { ty, word }) {
            proof {
                lemma_find_slot(slots@, i as nat, ty, word);
                lemma_find_slot(slots@, cells.columns@.len(), ty, word);
            }
            return Some(i);
        }
        i = i + 1;
    }
    None
}

/// How many gate columns a side has.
pub open spec fn side_columns(side: Seq<ChannelSource>) -> nat
    decreases side.len(),
{
    if side.len() == 0 {
        0
    } else {
        side_columns(side.drop_last()) + side.last().gate_columns()
    }
}

/// All sources of a side fit the circuit.
pub open spec fn side_fits(side: Seq<ChannelSource>, circuit: Circuit) -> bool {
    forall|g: int| 0 <= g < side.len() ==> (#[trigger] side[g]).fits(circuit)
}

/// The live rows of each of `groups` groups of a side: of its sources in order,
/// then none.
pub open spec fn side_lens(side: Seq<ChannelSource>, circuit: Circuit, groups: nat) -> Seq<usize> {
    Seq::new(
        groups,
        |g: int|
            if g < side.len() {
                side[g].live_rows(circuit) as usize
            } else {
                0
            },
    )
}

impl ChannelSpec {
    /// The machine can round the number of sources up to a power of two.
    pub open spec fn sources_sized(self) -> bool {
        &&& self.lhs@.len() <= isize::MAX
        &&& self.rhs@.len() <= isize::MAX
    }

    /// The machine can count the columns of all gates.
    pub open spec fn columns_sized(self) -> bool {
        side_columns(self.lhs@) + side_columns(self.rhs@) <= usize::MAX
    }

    /// The machine can count sources and columns.
    pub open spec fn sized(self) -> bool {
        &&& self.sources_sized()
        &&& self.columns_sized()
    }

    /// The larger side's source count, at least one.
    pub open spec fn larger_side(self) -> nat {
        if self.lhs@.len() < self.rhs@.len() {
            self.rhs@.len()
        } else if self.lhs@.len() > 0 {
            self.lhs@.len()
        } else {
            1
        }
    }

    /// The logarithm of the number of groups.
    pub open spec fn log_groups(self) -> nat {
        ceil_log2(self.larger_side())
    }

    /// Groups per side: the larger side's source count rounded up to a power
    /// of two, at least one. The smaller side's missing groups are dead.
    pub open spec fn spec_groups(self) -> nat {
        pow2(self.log_groups())
    }

    /// The logarithm of the channel's product domain for a circuit with `2^nu`
    /// rows.
    pub open spec fn spec_mu(self, nu: nat) -> nat {
        nu + self.log_groups()
    }

    /// Whether the spec names only existing cell slots and public words, with
    /// non-empty tuples and an addressable product domain of at least two
    /// entries.
    pub open spec fn fits(self, circuit: Circuit) -> bool {
        &&& 1 <= self.spec_mu(circuit.cells.nu as nat) < usize::BITS
        &&& side_fits(self.lhs@, circuit)
        &&& side_fits(self.rhs@, circuit)
        &&& match self.challenge {
            ChannelChallenge::Sampled => true,
            ChannelChallenge::Public { alpha, beta } => alpha < circuit.num_public && beta
                < circuit.num_public,
        }
    }

    /// The number of tuples on both sides.
    pub open spec fn live_entries(self, circuit: Circuit) -> nat {
        side_live(self.lhs@, circuit) + side_live(self.rhs@, circuit)
    }

    /// The logarithm of the number of groups.
    fn log2_groups(&self) -> (log: usize)
        requires
            self.sources_sized(),
        ensures
            log == self.log_groups(),
            log < usize::BITS,
            self.spec_groups() <= usize::MAX,
    {
        let left: usize = self.lhs.len();
        let right: usize = self.rhs.len();
        let n: usize = if left < right {
            right
        } else if left > 0 {
            left
        } else {
            1
        };
        let mut size: usize = 1;
        let mut log: usize = 0;
        proof {
            lemma2_to64();
            lemma_ceil_log2(n as nat);
        }
        while size < n
            invariant
                size == pow2(log as nat),
                size <= 2 * n,
                log < usize::BITS,
                log <= ceil_log2(n as nat),
                n <= isize::MAX,
                n <= pow2(ceil_log2(n as nat)),
                ceil_log2(n as nat) > 0 ==> pow2((ceil_log2(n as nat) - 1) as nat) < n,
            decreases 2 * n - size,
        {
            proof {
                lemma_pow2_unfold((log + 1) as nat);
                lemma_pow2_pos(log as nat);
                lemma_top_bit(log as nat);
            }
            size = 2 * size;
            log = log + 1;
        }
        proof {
            let k = ceil_log2(n as nat);
            if log < k && log < k - 1 {
                lemma_pow2_strictly_increases(log as nat, (k - 1) as nat);
            }
        }
        log
    }

    /// Groups per side.
    pub fn groups(&self) -> (groups: usize)
        requires
            self.sources_sized(),
        ensures
            groups == self.spec_groups(),
    {
        two_to(self.log2_groups())
    }

    /// The logarithm of the channel's product domain for a circuit with `2^nu`
    /// rows.
    pub fn mu(&self, nu: usize) -> (mu: usize)
        requires
            self.sources_sized(),
            nu + self.log_groups() <= usize::MAX,
        ensures
            mu == self.spec_mu(nu as nat),
    {
        nu + self.log2_groups()
    }

    /// Whether the spec names only existing cell slots and public words, with
    /// non-empty tuples and a product domain of at least two entries.
    pub fn check(&self, circuit: &Circuit) -> (ok: bool)
        requires
            self.sources_sized(),
            circuit.wf(),
        ensures
            ok == self.fits(*circuit),
    {
        let mu: usize = circuit.cells().nu() + self.log2_groups();
        if mu < 1 || mu >= usize::BITS as usize {
            return false;
        }
        if !check_side(&self.lhs, circuit) || !check_side(&self.rhs, circuit) {
            return false;
        }
        match self.challenge {
            ChannelChallenge::Sampled => true,
            ChannelChallenge::Public { alpha, beta } => alpha < circuit.num_public() && beta
                < circuit.num_public(),
        }
    }

    /// Number of gate columns on both sides, the gather length.
    pub fn gather_len(&self) -> (n: usize)
        requires
            self.columns_sized(),
        ensures
            n == side_columns(self.lhs@) + side_columns(self.rhs@),
    {
        count_columns(&self.lhs) + count_columns(&self.rhs)
    }

    /// Number of gate columns on the left side.
    pub(crate) fn gather_len_of_lhs(&self) -> (n: usize)
        requires
            self.columns_sized(),
        ensures
            n == side_columns(self.lhs@),
    {
        count_columns(&self.lhs)
    }

    /// Live rows per group of one side.
    pub(crate) fn lens(side: &Vec<ChannelSource>, circuit: &Circuit, groups: usize) -> (lens: Vec<
        usize,
    >)
        requires
            circuit.wf(),
            forall|g: int|
                0 <= g < groups && g < side@.len() ==> (#[trigger] side@[g] matches
                    ChannelSource::Gate { ty, .. } ==> ty < circuit.counts@.len()),
        ensures
            lens@ == side_lens(side@, *circuit, groups as nat),
    {
        let rows = two_to(circuit.cells().nu());
        let mut lens: Vec<usize> = Vec::new();
        let mut g: usize = 0;
        while g < groups
            invariant
                g <= groups,
                rows == circuit.cells.rows(),
                forall|g: int|
                    0 <= g < groups && g < side@.len() ==> (#[trigger] side@[g] matches
                        ChannelSource::Gate { ty, .. } ==> ty < circuit.counts@.len()),
                lens@.len() == g,
                forall|i: int|
                    0 <= i < g ==> #[trigger] lens@[i] == side_lens(
                        side@,
                        *circuit,
                        groups as nat,
                    )[i],
            decreases groups - g,
        {
            let len: usize = if g < side.len() {
                match &side[g] {
                    ChannelSource::Gate { ty, words } => {
                        let count = circuit.counts()[*ty];
                        if count < rows {
                            count
                        } else {
                            rows
                        }
                    },
                    ChannelSource::Public { words } => 1,
                }
            } else {
                0
            };
            lens.push(len);
            g = g + 1;
        }
        assert(lens@ =~= side_lens(side@, *circuit, groups as nat));
        lens
    }
}

/// Every group has at most all its rows live, and groups beyond the sources have
/// none: more groups only add dead ones, and the number of live rows stays.
pub proof fn lemma_more_groups_are_dead(
    side: Seq<ChannelSource>,
    circuit: Circuit,
    groups: nat,
    more: nat,
)
    requires
        circuit.wf(),
        side.len() <= groups <= more,
    ensures
        side_lens(side, circuit, more).take(groups as int) == side_lens(side, circuit, groups),
        forall|g: int|
            groups <= g < more ==> #[trigger] side_lens(side, circuit, more)[g] == 0,
        forall|g: int|
            0 <= g < more ==> #[trigger] side_lens(side, circuit, more)[g] <= circuit.cells.rows(),
        total(side_lens(side, circuit, more), more) == total(
            side_lens(side, circuit, groups),
            groups,
        ),
{
    lemma_pow2_pos(circuit.cells.nu as nat);
    vstd::bits::lemma_usize_pow2_no_overflow(circuit.cells.nu as nat);
    let lens = side_lens(side, circuit, more);
    assert(lens.take(groups as int) =~= side_lens(side, circuit, groups));
    lemma_lens_add_up(side, circuit, groups, groups);
    lemma_lens_add_up(side, circuit, more, more);
}

/// A power of two below `isize::MAX` does not take the top bit.
proof fn lemma_top_bit(log: nat)
    requires
        pow2(log) < isize::MAX,
        log < usize::BITS,
    ensures
        log + 1 < usize::BITS,
{
    lemma2_to64();
    vstd::arithmetic::power2::lemma2_to64_rest();
}

/// The number of tuples of a side.
pub open spec fn side_live(side: Seq<ChannelSource>, circuit: Circuit) -> nat
    decreases side.len(),
{
    if side.len() == 0 {
        0
    } else {
        side_live(side.drop_last(), circuit) + side.last().live_rows(circuit)
    }
}

/// Whether all sources of a side fit the circuit.
fn check_side(side: &Vec<ChannelSource>, circuit: &Circuit) -> (ok: bool)
    requires
        circuit.wf(),
    ensures
        ok == side_fits(side@, *circuit),
{
    let mut g: usize = 0;
    while g < side.len()
        invariant
            g <= side@.len(),
            circuit.wf(),
            forall|i: int| 0 <= i < g ==> (#[trigger] side@[i]).fits(*circuit),
        decreases side@.len() - g,
    {
        if !side[g].check(circuit) {
            return false;
        }
        g = g + 1;
    }
    true
}

/// Gate columns of a side's first sources are among all of them.
pub(crate) proof fn lemma_side_columns_take(side: Seq<ChannelSource>, n: int)
    requires
        0 <= n <= side.len(),
    ensures
        side_columns(side.take(n)) <= side_columns(side),
        n < side.len() ==> side_columns(side.take(n + 1)) == side_columns(side.take(n))
            + side[n].gate_columns(),
    decreases side.len() - n,
{
    if n == side.len() {
        assert(side.take(n) =~= side);
    } else {
        lemma_side_columns_take(side, n + 1);
        assert(side.take(n + 1).drop_last() =~= side.take(n));
    }
}

/// How many gate columns a side has.
fn count_columns(side: &Vec<ChannelSource>) -> (n: usize)
    requires
        side_columns(side@) <= usize::MAX,
    ensures
        n == side_columns(side@),
{
    let mut n: usize = 0;
    let mut g: usize = 0;
    proof {
        assert(side@.take(0) =~= Seq::empty());
    }
    while g < side.len()
        invariant
            g <= side@.len(),
            side_columns(side@) <= usize::MAX,
            n == side_columns(side@.take(g as int)),
        decreases side@.len() - g,
    {
        proof {
            lemma_side_columns_take(side@, g as int);
            lemma_side_columns_take(side@, g + 1);
        }
        let columns: usize = match &side[g] {
            ChannelSource::Gate { ty, words } => words.len(),
            ChannelSource::Public { words } => 0,
        };
        n = n + columns;
        g = g + 1;
    }
    assert(side@.take(g as int) =~= side@);
    n
}

/// The sum of the first `n` lengths.
pub open spec fn total(lens: Seq<usize>, n: nat) -> nat
    decreases n,
{
    if n == 0 {
        0
    } else {
        total(lens, (n - 1) as nat) + lens[n - 1] as nat
    }
}

/// The live rows of the groups add up to the number of tuples, and fill at
/// most the rows of the groups.
proof fn lemma_lens_add_up(side: Seq<ChannelSource>, circuit: Circuit, groups: nat, n: nat)
    requires
        n <= groups,
        circuit.wf(),
    ensures
        total(side_lens(side, circuit, groups), n) == side_live(
            side.take(
                if n < side.len() {
                    n as int
                } else {
                    side.len() as int
                },
            ),
            circuit,
        ),
        total(side_lens(side, circuit, groups), n) <= n * circuit.cells.rows(),
    decreases n,
{
    let rows = circuit.cells.rows();
    if n == 0 {
        assert(side.take(0).len() == 0);
    } else {
        let m = (n - 1) as nat;
        lemma_lens_add_up(side, circuit, groups, m);
        lemma_pow2_pos(circuit.cells.nu as nat);
        vstd::bits::lemma_usize_pow2_no_overflow(circuit.cells.nu as nat);
        if n <= side.len() {
            assert(side.take(n as int).drop_last() =~= side.take(m as int));
        }
        assert(n * rows == m * rows + rows) by (nonlinear_arith)
            requires
                n == m + 1,
        ;
    }
}

/// The sum of the lengths.
fn add_up(lens: &Vec<usize>) -> (sum: u128)
    requires
        total(lens@, lens@.len()) <= usize::MAX,
    ensures
        sum == total(lens@, lens@.len()),
{
    let mut sum: u128 = 0;
    let mut g: usize = 0;
    while g < lens.len()
        invariant
            g <= lens@.len(),
            sum == total(lens@, g as nat),
            sum <= g * usize::MAX,
        decreases lens@.len() - g,
    {
        assert(g * usize::MAX + usize::MAX <= usize::MAX * usize::MAX) by (nonlinear_arith)
            requires
                g + 1 <= usize::MAX,
        ;
        assert((g + 1) * usize::MAX == g * usize::MAX + usize::MAX) by (nonlinear_arith);
        assert(usize::MAX * usize::MAX <= u128::MAX) by (nonlinear_arith)
            requires
                usize::MAX <= 0xffff_ffff_ffff_ffff,
        ;
        sum = sum + lens[g] as u128;
        g = g + 1;
    }
    sum
}

/// The number of tuples on both sides, from the lengths of their groups.
pub(crate) fn count_live(
    spec: &ChannelSpec,
    circuit: &Circuit,
    lens_l: &Vec<usize>,
    lens_r: &Vec<usize>,
) -> (live: u128)
    requires
        circuit.wf(),
        spec.fits(*circuit),
        lens_l@ == side_lens(spec.lhs@, *circuit, spec.spec_groups()),
        lens_r@ == side_lens(spec.rhs@, *circuit, spec.spec_groups()),
    ensures
        live == spec.live_entries(*circuit),
{
    proof {
        let groups = spec.spec_groups();
        lemma_larger_side_fits(*spec);
        lemma_domain(*spec, *circuit);
        lemma_lens_add_up(spec.lhs@, *circuit, groups, groups);
        lemma_lens_add_up(spec.rhs@, *circuit, groups, groups);
        assert(spec.lhs@.take(spec.lhs@.len() as int) =~= spec.lhs@);
        assert(spec.rhs@.take(spec.rhs@.len() as int) =~= spec.rhs@);
    }
    add_up(lens_l) + add_up(lens_r)
}

/// There is a group for each source of either side.
pub proof fn lemma_larger_side_fits(spec: ChannelSpec)
    ensures
        spec.lhs@.len() <= spec.spec_groups(),
        spec.rhs@.len() <= spec.spec_groups(),
        spec.larger_side() <= spec.spec_groups(),
        spec.spec_groups() < 2 * spec.larger_side(),
{
    let n = spec.larger_side();
    lemma2_to64();
    lemma_ceil_log2(n);
    if ceil_log2(n) > 0 {
        lemma_pow2_unfold(ceil_log2(n));
    }
}

/// The product domain of a channel that fits its circuit is addressable.
pub proof fn lemma_domain(spec: ChannelSpec, circuit: Circuit)
    requires
        spec.fits(circuit),
    ensures
        spec.spec_groups() * circuit.cells.rows() == pow2(spec.spec_mu(circuit.cells.nu as nat)),
        circuit.cells.rows() * spec.spec_groups() == pow2(spec.spec_mu(circuit.cells.nu as nat)),
        pow2(spec.spec_mu(circuit.cells.nu as nat)) <= usize::MAX,
        circuit.cells.rows() <= usize::MAX,
        spec.spec_groups() <= usize::MAX,
{
    lemma_pow2_adds(spec.log_groups(), circuit.cells.nu as nat);
    lemma_pow2_adds(circuit.cells.nu as nat, spec.log_groups());
    vstd::bits::lemma_usize_pow2_no_overflow(spec.spec_mu(circuit.cells.nu as nat));
    vstd::bits::lemma_usize_pow2_no_overflow(circuit.cells.nu as nat);
    vstd::bits::lemma_usize_pow2_no_overflow(spec.log_groups());
}

} // verus!
