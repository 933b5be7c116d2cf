//! Evaluation claims on the committed buffer.

use crate::channel::{cell_slot, lemma_side_columns_take, side_columns, side_fits, ChannelSource};
use crate::circuit::{Circuit, IoWord};
use crate::field::F128;
use crate::tuples::side_claim_points;
use vstd::prelude::*;

verus! {

/// The weights of a claim over the committed buffer.
#[derive(Clone, Debug, PartialEq, Eq)]
pub enum DirectEqInd {
    /// The equality polynomial at a point.
    EqPoint(Vec<F128>),
}

/// A claim that the extension of the committed buffer has `value` at `point`.
#[derive(Clone, Debug, PartialEq, Eq)]
pub struct PackedDirectClaim {
    pub value: F128,
    pub eq_ind: DirectEqInd,
    pub point: Vec<F128>,
}

/// `pairs` lists the points with their values, in order.
pub open spec fn pairs_up(
    pairs: Seq<(Vec<F128>, F128)>,
    points: Seq<Seq<F128>>,
    values: Seq<F128>,
) -> bool {
    &&& pairs.len() == points.len()
    &&& forall|i: int|
        0 <= i < pairs.len() ==> (#[trigger] pairs[i]).0@ == points[i] && pairs[i].1 == values[i]
}

/// `claims` lists the points with their values, in order, each weighted with
/// the equality polynomial at its point.
pub open spec fn claims_up(
    claims: Seq<PackedDirectClaim>,
    points: Seq<Seq<F128>>,
    values: Seq<F128>,
) -> bool {
    &&& claims.len() == points.len()
    &&& forall|i: int|
        0 <= i < claims.len() ==> {
            &&& (#[trigger] claims[i]).point@ == points[i]
            &&& claims[i].value == values[i]
            &&& (claims[i].eq_ind matches DirectEqInd::EqPoint(weights) && weights@ == points[i])
        }
}

/// The claim points of the first `n` words of a gate source.
spec fn first_points(
    circuit: Circuit,
    ty: usize,
    words: Seq<IoWord>,
    row: Seq<F128>,
    n: nat,
) -> Seq<Seq<F128>> {
    Seq::new(
        n,
        |k: int| circuit.cells.claim_point(circuit.cells.slot_of(ty, words[k])->0, row),
    )
}

/// Appends the claim points of a side's gate columns, each with the next of the
/// values.
pub(crate) fn pair_side(
    side: &Vec<ChannelSource>,
    circuit: &Circuit,
    row: &[F128],
    values: &Vec<F128>,
    pairs: &mut Vec<(Vec<F128>, F128)>,
    before: Ghost<Seq<Seq<F128>>>,
)
    requires
        circuit.wf(),
        side_fits(side@, *circuit),
        old(pairs)@.len() + side_columns(side@) <= values@.len(),
        pairs_up(old(pairs)@, before@, values@),
    ensures
        pairs_up(final(pairs)@, before@ + side_claim_points(side@, *circuit, row@), values@),
{
    let mut g: usize = 0;
    proof {
        assert(side@.take(0) =~= Seq::empty());
        assert(before@ + side_claim_points(side@.take(0), *circuit, row@) =~= before@);
        lemma_side_columns_take(side@, 0);
    }
    while g < side.len()
        invariant
            g <= side@.len(),
            circuit.wf(),
            side_fits(side@, *circuit),
            pairs@.len() == old(pairs)@.len() + side_columns(side@.take(g as int)),
            old(pairs)@.len() + side_columns(side@) <= values@.len(),
            pairs_up(
                pairs@,
                before@ + side_claim_points(side@.take(g as int), *circuit, row@),
                values@,
            ),
        decreases side@.len() - g,
    {
        let ghost done = before@ + side_claim_points(side@.take(g as int), *circuit, row@);
        proof {
            lemma_side_columns_take(side@, g as int);
            lemma_side_columns_take(side@, g + 1);
            assert(side@.take(g + 1).drop_last() =~= side@.take(g as int));
            assert(side@[g as int].fits(*circuit));
        }
        match &side[g] {
            ChannelSource::Gate { ty, words } => {
                let mut k: usize = 0;
                proof {
                    assert(done + first_points(*circuit, *ty, words@, row@, 0) =~= done);
                }
                while k < words.len()
                    invariant
                        k <= words@.len(),
                        g < side@.len(),
                        circuit.wf(),
                        side@[g as int] == (ChannelSource::Gate { ty: *ty, words: *words }),
                        side@[g as int].fits(*circuit),
                        done.len() + words@.len() <= values@.len(),
                        pairs_up(
                            pairs@,
                            done + first_points(*circuit, *ty, words@, row@, k as nat),
                            values@,
                        ),
                    decreases words@.len() - k,
                {
                    let slot = cell_slot(circuit.cells(), *ty, words[k]);
                    proof {
                        assert(circuit.cells.slot_of(*ty, words@[k as int]) is Some);
                    }
                    if let Some(iota) = slot {
                        let point = circuit.cells().gate_claim_point(iota, row);
                        let at: usize = pairs.len();
                        proof {
                            let listed = done + first_points(
                                *circuit,
                                *ty,
                                words@,
                                row@,
                                k as nat,
                            );
                            assert(done + first_points(
                                *circuit,
                                *ty,
                                words@,
                                row@,
                                (k + 1) as nat,
                            ) =~= listed.push(point@));
                        }
                        pairs.push((point, values[at]));
                    }
                    k = k + 1;
                }
                proof {
                    let own = side@[g as int].claim_points(*circuit, row@);
                    assert(first_points(*circuit, *ty, words@, row@, words@.len()) =~= own);
                    assert(done + own =~= before@ + side_claim_points(
                        side@.take(g + 1),
                        *circuit,
                        row@,
                    ));
                }
            },
            ChannelSource::Public { words } => {
                assert(before@ + side_claim_points(side@.take(g + 1), *circuit, row@) =~= done);
            },
        }
        g = g + 1;
    }
    assert(side@.take(g as int) =~= side@);
}

/// Makes claims of points with values.
pub(crate) fn direct_claims(pairs: Vec<(Vec<F128>, F128)>) -> (claims: Vec<PackedDirectClaim>)
    ensures
        forall|points: Seq<Seq<F128>>, values: Seq<F128>|
            #![trigger pairs_up(pairs@, points, values)]
            pairs_up(pairs@, points, values) ==> claims_up(claims@, points, values),
{
    let mut claims: Vec<PackedDirectClaim> = Vec::new();
    let mut i: usize = 0;
    while i < pairs.len()
        invariant
            i <= pairs@.len(),
            claims@.len() == i,
            forall|k: int|
                0 <= k < i ==> {
                    &&& (#[trigger] claims@[k]).point@ == pairs@[k].0@
                    &&& claims@[k].value == pairs@[k].1
                    &&& (claims@[k].eq_ind matches DirectEqInd::EqPoint(weights) && weights@
                        == pairs@[k].0@)
                },
        decreases pairs@.len() - i,
    {
        let pair = &pairs[i];
        claims.push(
            PackedDirectClaim {
                value: pair.1,
                eq_ind: DirectEqInd::EqPoint(vstd::slice::slice_to_vec(pair.0.as_slice())),
                point: vstd::slice::slice_to_vec(pair.0.as_slice()),
            },
        );
        i = i + 1;
    }
    claims
}

} // verus!
