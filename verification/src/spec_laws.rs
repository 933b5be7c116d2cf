//! What the shape of a channel says of its circuit, in plain terms.

use crate::channel::{side_columns, side_lens, ChannelChallenge, ChannelSource, ChannelSpec};
use crate::challenger::lemma_ceil_log2;
use crate::circuit::{lemma_find_slot, CellSlot, CellSpace, Circuit, IoWord};
use crate::field::F128;
use crate::tuple_laws::lemma_boolean_point_bits;
use crate::tuples::word_base;
use vstd::arithmetic::power2::{
    lemma2_to64, lemma_pow2_adds, lemma_pow2_pos, lemma_pow2_strictly_increases, pow2,
};
use vstd::prelude::*;

verus! {

/// The width of a source is the number of words that it lists.
pub proof fn lemma_width_is_the_words_listed(source: ChannelSource)
    ensures
        source matches ChannelSource::Gate { ty, words } ==> source.spec_width() == words@.len(),
        source matches ChannelSource::Public { words } ==> source.spec_width() == words@.len(),
{
}

/// The number of groups is the least power of two that is not below the number
/// of sources of either side.
pub proof fn lemma_groups_are_least(spec: ChannelSpec)
    ensures
        exists|k: nat| #[trigger] pow2(k) == spec.spec_groups(),
        spec.lhs@.len() <= spec.spec_groups(),
        spec.rhs@.len() <= spec.spec_groups(),
        1 <= spec.spec_groups(),
        forall|k: nat|
            spec.lhs@.len() <= #[trigger] pow2(k) && spec.rhs@.len() <= pow2(k)
                ==> spec.spec_groups() <= pow2(k),
{
    let n = spec.larger_side();
    let l = spec.log_groups();
    lemma_ceil_log2(n);
    lemma_pow2_pos(l);
    assert(pow2(l) == spec.spec_groups());
    assert forall|k: nat| spec.lhs@.len() <= #[trigger] pow2(k) && spec.rhs@.len() <= pow2(
        k,
    ) implies spec.spec_groups() <= pow2(k) by {
        lemma_pow2_pos(k);
        if k < l {
            if k < l - 1 {
                lemma_pow2_strictly_increases(k, (l - 1) as nat);
            }
        } else if l < k {
            lemma_pow2_strictly_increases(l, k);
        }
    }
}

/// The domain of `2^mu` entries has a row of the circuit for each row of each
/// group.
pub proof fn lemma_mu_is_the_domain(spec: ChannelSpec, nu: nat)
    ensures
        pow2(spec.spec_mu(nu)) == spec.spec_groups() * pow2(nu),
        spec.spec_groups() == 1 <==> spec.spec_mu(nu) == nu,
{
    lemma_pow2_adds(spec.log_groups(), nu);
    lemma2_to64();
    if spec.log_groups() > 0 {
        lemma_pow2_strictly_increases(0, spec.log_groups());
    }
}

/// A power of two is addressable exactly when its exponent is below the width
/// of an address.
proof fn lemma_addressable(k: nat)
    ensures
        pow2(k) <= usize::MAX <==> k < usize::BITS,
{
    if k < usize::BITS {
        vstd::bits::lemma_usize_pow2_no_overflow(k);
    } else {
        lemma2_to64();
        vstd::arithmetic::power2::lemma2_to64_rest();
        if k > usize::BITS {
            lemma_pow2_strictly_increases(usize::BITS as nat, k);
        }
    }
}

/// A source lists at least one word, and only words that the circuit has: gate
/// slots of a declared type, or words of the public segment.
pub open spec fn names_existing(source: ChannelSource, circuit: Circuit) -> bool {
    match source {
        ChannelSource::Gate { ty, words } => {
            &&& words@.len() > 0
            &&& ty < circuit.counts@.len()
            &&& forall|k: int|
                0 <= k < words@.len() ==> exists|i: int|
                    0 <= i < circuit.cells.columns@.len() && #[trigger] circuit.cells.slots@[i] == (
                    CellSlot::Gate { ty, word: #[trigger] words@[k] })
        },
        ChannelSource::Public { words } => {
            &&& words@.len() > 0
            &&& forall|k: int|
                0 <= k < words@.len() ==> (#[trigger] words@[k]) < circuit.num_public
        },
    }
}

proof fn lemma_source_fits(source: ChannelSource, circuit: Circuit)
    ensures
        source.fits(circuit) <==> names_existing(source, circuit),
{
    if let ChannelSource::Gate { ty, words } = source {
        let cells = circuit.cells;
        assert forall|k: int| 0 <= k < words@.len() implies (cells.slot_of(
            ty,
            #[trigger] words@[k],
        ) is Some <==> exists|i: int|
            0 <= i < cells.columns@.len() && #[trigger] cells.slots@[i] == (CellSlot::Gate {
                ty,
                word: words@[k],
            })) by {
            lemma_find_slot(cells.slots@, cells.columns@.len(), ty, words@[k]);
        }
        if source.fits(circuit) {
            assert forall|k: int| 0 <= k < words@.len() implies exists|i: int|
                0 <= i < cells.columns@.len() && #[trigger] cells.slots@[i] == (CellSlot::Gate {
                    ty,
                    word: #[trigger] words@[k],
                }) by {
                assert(cells.slot_of(ty, words@[k]) is Some);
            }
        }
        if names_existing(source, circuit) {
            assert forall|k: int| 0 <= k < words@.len() implies cells.slot_of(
                ty,
                #[trigger] words@[k],
            ) is Some by {
                assert(exists|i: int|
                    0 <= i < cells.columns@.len() && #[trigger] cells.slots@[i] == (
                    CellSlot::Gate { ty, word: words@[k] }));
            }
        }
    }
}

/// A spec fits a circuit exactly when its sources list only words that exist,
/// one at least, its public challenge words exist, and its product domain has
/// at least two entries and is addressable.
pub proof fn lemma_fits_exactly(spec: ChannelSpec, circuit: Circuit)
    ensures
        spec.fits(circuit) <==> {
            &&& 2 <= spec.spec_groups() * pow2(circuit.cells.nu as nat) <= usize::MAX
            &&& forall|g: int|
                0 <= g < spec.lhs@.len() ==> names_existing(#[trigger] spec.lhs@[g], circuit)
            &&& forall|g: int|
                0 <= g < spec.rhs@.len() ==> names_existing(#[trigger] spec.rhs@[g], circuit)
            &&& spec.challenge matches ChannelChallenge::Public { alpha, beta } ==> alpha
                < circuit.num_public && beta < circuit.num_public
        },
{
    let nu = circuit.cells.nu as nat;
    let mu = spec.spec_mu(nu);
    lemma_mu_is_the_domain(spec, nu);
    lemma_addressable(mu);
    lemma2_to64();
    if mu > 1 {
        lemma_pow2_strictly_increases(1, mu);
    }
    assert forall|g: int| 0 <= g < spec.lhs@.len() implies ((#[trigger] spec.lhs@[g]).fits(circuit)
        <==> names_existing(spec.lhs@[g], circuit)) by {
        lemma_source_fits(spec.lhs@[g], circuit);
    }
    assert forall|g: int| 0 <= g < spec.rhs@.len() implies ((#[trigger] spec.rhs@[g]).fits(circuit)
        <==> names_existing(spec.rhs@[g], circuit)) by {
        lemma_source_fits(spec.rhs@[g], circuit);
    }
}

/// The gather values of a side are counted word by word of its gates: those of
/// two runs of sources add up, a gate has one for each word, a public tuple none.
pub proof fn lemma_columns_are_the_gate_words(
    side: Seq<ChannelSource>,
    more: Seq<ChannelSource>,
    source: ChannelSource,
)
    ensures
        side_columns(side + more) == side_columns(side) + side_columns(more),
        source matches ChannelSource::Gate { ty, words } ==> side_columns(seq![source])
            == words@.len(),
        source is Public ==> side_columns(seq![source]) == 0,
        side_columns(Seq::empty()) == 0,
    decreases more.len(),
{
    assert(side_columns(seq![source].drop_last()) == 0);
    if more.len() == 0 {
        assert(side + more =~= side);
    } else {
        lemma_columns_are_the_gate_words(side, more.drop_last(), source);
        assert((side + more).drop_last() =~= side + more.drop_last());
    }
}

/// The machine limits on a spec: the sources of a side, and the gather values of
/// both, can be counted.
pub proof fn lemma_sized_exactly(spec: ChannelSpec)
    ensures
        spec.sources_sized() <==> spec.lhs@.len() <= isize::MAX && spec.rhs@.len() <= isize::MAX,
        spec.columns_sized() <==> side_columns(spec.lhs@ + spec.rhs@) <= usize::MAX,
        spec.sized() <==> spec.sources_sized() && spec.columns_sized(),
{
    let none = ChannelSource::Public { words: arbitrary() };
    lemma_columns_are_the_gate_words(spec.lhs@, spec.rhs@, none);
}

/// The live rows of a group: of a gate those that the circuit declares, at most
/// its `2^nu` rows, of a public tuple one, and none where there is no source.
pub proof fn lemma_lens_are_the_declared_rows(
    side: Seq<ChannelSource>,
    circuit: Circuit,
    groups: nat,
    g: int,
)
    requires
        circuit.wf(),
        0 <= g < groups,
    ensures
        side_lens(side, circuit, groups).len() == groups,
        g < side.len() && side[g] is Public ==> side_lens(side, circuit, groups)[g] == 1,
        g >= side.len() ==> side_lens(side, circuit, groups)[g] == 0,
        g < side.len() ==> (side[g] matches ChannelSource::Gate { ty, words } ==> {
            let declared = circuit.counts@[ty as int];
            let rows = pow2(circuit.cells.nu as nat);
            &&& declared <= rows ==> side_lens(side, circuit, groups)[g] == declared
            &&& declared > rows ==> side_lens(side, circuit, groups)[g] == rows
        }),
{
    vstd::bits::lemma_usize_pow2_no_overflow(circuit.cells.nu as nat);
}

/// A word stands in the first gate slot that holds it, and in none where no gate
/// slot does. Gate slots are those with a column.
pub proof fn lemma_slot_is_the_first(cells: CellSpace, ty: usize, word: IoWord)
    ensures
        cells.slot_of(ty, word) matches Some(i) ==> {
            &&& 0 <= i < cells.columns@.len()
            &&& cells.slots@[i] == (CellSlot::Gate { ty, word })
            &&& forall|j: int|
                0 <= j < i ==> #[trigger] cells.slots@[j] != (CellSlot::Gate { ty, word })
        },
        cells.slot_of(ty, word) is None ==> forall|j: int|
            0 <= j < cells.columns@.len() ==> #[trigger] cells.slots@[j] != (CellSlot::Gate {
                ty,
                word,
            }),
{
    lemma_find_slot(cells.slots@, cells.columns@.len(), ty, word);
}

/// The rows of a gate slot stand one after the other in the slot's column, and the
/// claim point of a row point is the row point with a coordinate for each bit of
/// the column.
pub proof fn lemma_addresses(cells: CellSpace, i: int, row: Seq<F128>, b: int)
    requires
        cells.wf(),
        row.len() == cells.nu,
        cells.nu <= b < cells.vars,
    ensures
        cells.rows() == pow2(cells.nu as nat),
        cells.base(i) == cells.columns@[i] * pow2(cells.nu as nat),
        cells.claim_point(i, row).len() == cells.vars,
        cells.claim_point(i, row).take(cells.nu as int) == row,
        cells.claim_point(i, row)[b] == if (cells.columns@[i] as nat / pow2(
            (b - cells.nu) as nat,
        )) % 2 == 1 {
            F128::one()
        } else {
            F128::zero()
        },
{
    let width = (cells.vars - cells.nu) as nat;
    lemma_boolean_point_bits(cells.columns@[i] as nat, width, b - cells.nu);
    assert(cells.claim_point(i, row).take(cells.nu as int) =~= row);
}

/// A cell space is well formed exactly when its rows and its buffer are
/// addressable, every column lies in the buffer and every gate slot is a slot.
pub proof fn lemma_cells_exactly(cells: CellSpace)
    ensures
        cells.wf() <==> {
            &&& cells.nu <= cells.vars
            &&& pow2(cells.vars as nat) <= usize::MAX
            &&& cells.columns@.len() <= cells.slots@.len()
            &&& forall|i: int|
                0 <= i < cells.columns@.len() ==> ((#[trigger] cells.columns@[i]) + 1) * pow2(
                    cells.nu as nat,
                ) <= pow2(cells.vars as nat)
        },
{
    lemma_addressable(cells.vars as nat);
    if cells.nu <= cells.vars {
        let (low, high) = (pow2(cells.nu as nat), pow2((cells.vars - cells.nu) as nat));
        lemma_pow2_pos(cells.nu as nat);
        lemma_pow2_adds((cells.vars - cells.nu) as nat, cells.nu as nat);
        assert forall|i: int| 0 <= i < cells.columns@.len() implies ((#[trigger] cells.columns@[i])
            < high <==> (cells.columns@[i] + 1) * low <= high * low) by {
            let c = cells.columns@[i] as int;
            assert(c < high <==> (c + 1) * low <= high * low) by (nonlinear_arith)
                requires
                    low > 0,
            ;
        }
    }
}

/// `j` is one of `0 .. n`.
pub open spec fn below(j: int, n: nat) -> bool {
    0 <= j < n
}

/// A prover reads row `j` of word `k` of a gate source at the address that the
/// word's column gives it, and the buffer covers the source exactly when it
/// holds all addresses of declared rows.
pub proof fn lemma_covered_exactly(source: ChannelSource, circuit: Circuit, packed: Seq<F128>)
    requires
        circuit.wf(),
    ensures
        source is Public ==> source.covered(circuit, packed),
        source matches ChannelSource::Gate { ty, words } ==> (source.covered(circuit, packed)
            <==> forall|k: int, j: int|
            #![trigger words@[k], below(j, pow2(circuit.cells.nu as nat))]
            0 <= k < words@.len() && below(j, pow2(circuit.cells.nu as nat)) && j < circuit.counts@[ty as int]
                ==> circuit.cells.columns@[circuit.cells.slot_of(ty, words@[k])->0] * pow2(
                circuit.cells.nu as nat,
            ) + j < packed.len()),
{
    if let ChannelSource::Gate { ty, words } = source {
        let cells = circuit.cells;
        let live = source.live_rows(circuit);
        if source.covered(circuit, packed) {
            assert forall|k: int, j: int|
                #![trigger words@[k], below(j, pow2(circuit.cells.nu as nat))]
                0 <= k < words@.len() && below(j, pow2(circuit.cells.nu as nat)) && j < circuit.counts@[ty as int] implies
                cells.columns@[cells.slot_of(ty, words@[k])->0] * pow2(cells.nu as nat) + j
                < packed.len() by {
                assert(source->Gate_words@[k] == words@[k]);
            }
        } else {
            let k = choose|k: int|
                0 <= k < words@.len() && word_base(
                    circuit.cells,
                    ty,
                    #[trigger] words@[k],
                ) + live > packed.len();
            assert(below(live - 1, pow2(circuit.cells.nu as nat)));
        }
    }
}

/// Exchanging the sides of a channel changes neither its groups nor its domain,
/// nor whether it fits, nor the number of its tuples.
pub proof fn lemma_sides_exchange(spec: ChannelSpec, turned: ChannelSpec, circuit: Circuit)
    requires
        turned.lhs == spec.rhs,
        turned.rhs == spec.lhs,
        turned.challenge == spec.challenge,
    ensures
        turned.spec_groups() == spec.spec_groups(),
        turned.spec_mu(circuit.cells.nu as nat) == spec.spec_mu(circuit.cells.nu as nat),
        turned.fits(circuit) == spec.fits(circuit),
        turned.live_entries(circuit) == spec.live_entries(circuit),
{
}

} // verus!
