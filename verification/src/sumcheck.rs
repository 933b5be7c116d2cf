//! One layer of the product argument: a sumcheck over
//! `sum_i E[i] * (A[i] * B[i] + lambda * C[i] * D[i])`.
//!
//! Each round sends a cubic in the coordinate that it binds, without its
//! linear coefficient: the running claim is the sum of the cubic's values at
//! zero and one, which fixes it.

use crate::challenger::{draw, drawn, redraw, transcript_after_draw, Challenger, Event, Oracle};
use crate::field::{
    lemma_add_associates, lemma_add_exchanges, lemma_add_zero, lemma_mul_associates,
    lemma_mul_commutes, lemma_mul_distributes, lemma_mul_zero, F128,
};
use crate::multilinear::{fold, lemma_mle_folds, lemma_mle_single, line, mle};
use crate::sums::sum;
use vstd::arithmetic::power2::{lemma2_to64, lemma_pow2_unfold, pow2};
use vstd::prelude::*;

verus! {

/// A round's message: the cubic's coefficients but the linear one, and the
/// nonce behind the round's challenge.
#[derive(Clone, Copy, Debug, PartialEq, Eq)]
pub struct RoundProof {
    pub c0: F128,
    pub c2: F128,
    pub c3: F128,
    pub nonce: Option<u64>,
}

/// The cubic with coefficients `c0`, `c2`, `c3` whose values at zero and one
/// add up to `claim`, at `x`.
pub open spec fn cubic(claim: F128, c0: F128, c2: F128, c3: F128, x: F128) -> F128 {
    c0 + x * (((claim + c2) + c3) + x * (c2 + x * c3))
}

/// A verifier in the middle of a sumcheck.
pub struct SumcheckState {
    /// What is claimed of the sum over the coordinates not yet bound.
    pub claim: F128,
    /// The coordinates bound so far.
    pub point: Seq<F128>,
    pub transcript: Seq<Event>,
}

/// One round; `None` if its nonce is missing, superfluous or wrong.
pub open spec fn round_step(
    oracle: Oracle,
    bits: u32,
    state: SumcheckState,
    round: RoundProof,
) -> Option<SumcheckState> {
    let sent = state.transcript.push(Event::Value(round.c0)).push(Event::Value(round.c2)).push(
        Event::Value(round.c3),
    );
    match drawn(oracle, sent, bits, round.nonce) {
        Some((x, transcript)) => Some(
            SumcheckState {
                claim: cubic(state.claim, round.c0, round.c2, round.c3, x),
                point: state.point.push(x),
                transcript,
            },
        ),
        None => None,
    }
}

/// The rounds in order.
pub open spec fn run_rounds(
    oracle: Oracle,
    bits: u32,
    state: SumcheckState,
    rounds: Seq<RoundProof>,
) -> Option<SumcheckState>
    decreases rounds.len(),
{
    if rounds.len() == 0 {
        Some(state)
    } else {
        match run_rounds(oracle, bits, state, rounds.drop_last()) {
            Some(before) => round_step(oracle, bits, before, rounds.last()),
            None => None,
        }
    }
}

/// The transcript after the rounds, up to the one that fails; `None` if a failed
/// proof of work leaves it open.
pub open spec fn transcript_after_rounds(
    oracle: Oracle,
    bits: u32,
    state: SumcheckState,
    rounds: Seq<RoundProof>,
) -> Option<Seq<Event>>
    decreases rounds.len(),
{
    if rounds.len() == 0 {
        Some(state.transcript)
    } else {
        match run_rounds(oracle, bits, state, rounds.drop_last()) {
            Some(before) => {
                let round = rounds.last();
                let sent = before.transcript.push(Event::Value(round.c0)).push(
                    Event::Value(round.c2),
                ).push(Event::Value(round.c3));
                transcript_after_draw(oracle, sent, bits, round.nonce)
            },
            None => transcript_after_rounds(oracle, bits, state, rounds.drop_last()),
        }
    }
}

/// Every round binds one coordinate.
pub proof fn lemma_rounds_bind(
    oracle: Oracle,
    bits: u32,
    state: SumcheckState,
    rounds: Seq<RoundProof>,
)
    ensures
        run_rounds(oracle, bits, state, rounds) matches Some(end) ==> end.point.len()
            == state.point.len() + rounds.len(),
    decreases rounds.len(),
{
    if rounds.len() > 0 {
        lemma_rounds_bind(oracle, bits, state, rounds.drop_last());
    }
}

/// Once a round fails the sumcheck has failed.
pub proof fn lemma_rounds_stay_failed(
    oracle: Oracle,
    bits: u32,
    state: SumcheckState,
    rounds: Seq<RoundProof>,
    n: int,
)
    requires
        0 <= n <= rounds.len(),
        run_rounds(oracle, bits, state, rounds.take(n)) is None,
    ensures
        run_rounds(oracle, bits, state, rounds) is None,
        transcript_after_rounds(oracle, bits, state, rounds) == transcript_after_rounds(
            oracle,
            bits,
            state,
            rounds.take(n),
        ),
    decreases rounds.len() - n,
{
    if n == rounds.len() {
        assert(rounds.take(n) =~= rounds);
    } else {
        assert(rounds.take(n + 1).drop_last() =~= rounds.take(n));
        lemma_rounds_stay_failed(oracle, bits, state, rounds, n + 1);
    }
}

/// The sum of a layer's sumcheck: five tables and the weight between the two
/// products.
#[verifier::ext_equal]
pub struct LayerSum {
    pub eq: Seq<F128>,
    pub lhs_low: Seq<F128>,
    pub lhs_high: Seq<F128>,
    pub rhs_low: Seq<F128>,
    pub rhs_high: Seq<F128>,
    pub lambda: F128,
}

/// `a b + lambda c d`.
pub open spec fn two_products(a: F128, b: F128, c: F128, d: F128, lambda: F128) -> F128 {
    a * b + lambda * (c * d)
}

impl LayerSum {
    /// All five tables have `n` entries.
    pub open spec fn sized(self, n: nat) -> bool {
        &&& self.eq.len() == n
        &&& self.lhs_low.len() == n
        &&& self.lhs_high.len() == n
        &&& self.rhs_low.len() == n
        &&& self.rhs_high.len() == n
    }

    /// The term of index `i`.
    pub open spec fn term(self, i: int) -> F128 {
        self.eq[i] * two_products(
            self.lhs_low[i],
            self.lhs_high[i],
            self.rhs_low[i],
            self.rhs_high[i],
            self.lambda,
        )
    }

    /// The sum that is claimed.
    pub open spec fn total(self, n: nat) -> F128 {
        sum(|i: int| self.term(i), n)
    }

    /// The tables with their lowest coordinate set to `x`.
    pub open spec fn at(self, x: F128) -> LayerSum {
        LayerSum {
            eq: fold(self.eq, x),
            lhs_low: fold(self.lhs_low, x),
            lhs_high: fold(self.lhs_high, x),
            rhs_low: fold(self.rhs_low, x),
            rhs_high: fold(self.rhs_high, x),
            lambda: self.lambda,
        }
    }

    /// The tables with their lowest coordinates set to `xs`, one after the
    /// other.
    pub open spec fn at_all(self, xs: Seq<F128>) -> LayerSum
        decreases xs.len(),
    {
        if xs.len() == 0 {
            self
        } else {
            self.at_all(xs.drop_last()).at(xs.last())
        }
    }

    /// The constant coefficient of the pair `i`.
    pub open spec fn pair_c0(self, i: int) -> F128 {
        self.term(2 * i)
    }

    /// The quadratic coefficient of `A B + lambda C D` on the pair `i`.
    pub open spec fn pair_bend(self, i: int) -> F128 {
        two_products(
            self.lhs_low[2 * i] + self.lhs_low[2 * i + 1],
            self.lhs_high[2 * i] + self.lhs_high[2 * i + 1],
            self.rhs_low[2 * i] + self.rhs_low[2 * i + 1],
            self.rhs_high[2 * i] + self.rhs_high[2 * i + 1],
            self.lambda,
        )
    }

    /// `A B + lambda C D` at `i`.
    pub open spec fn pair_value(self, i: int) -> F128 {
        two_products(
            self.lhs_low[i],
            self.lhs_high[i],
            self.rhs_low[i],
            self.rhs_high[i],
            self.lambda,
        )
    }

    /// The quadratic coefficient of the pair `i`.
    pub open spec fn pair_c2(self, i: int) -> F128 {
        self.eq[2 * i] * self.pair_bend(i) + (self.eq[2 * i] + self.eq[2 * i + 1]) * ((
        self.pair_value(2 * i) + self.pair_value(2 * i + 1)) + self.pair_bend(i))
    }

    /// The cubic coefficient of the pair `i`.
    pub open spec fn pair_c3(self, i: int) -> F128 {
        (self.eq[2 * i] + self.eq[2 * i + 1]) * self.pair_bend(i)
    }

    /// The coefficients of the next round's cubic: the constant, the quadratic
    /// and the cubic one.
    pub open spec fn message(self) -> (F128, F128, F128) {
        let n = self.eq.len() / 2;
        (
            sum(|i: int| self.pair_c0(i), n),
            sum(|i: int| self.pair_c2(i), n),
            sum(|i: int| self.pair_c3(i), n),
        )
    }
}

/// The rounds send the cubics of the tables, which `point` binds coordinate by
/// coordinate.
pub open spec fn honest_rounds(
    tables: LayerSum,
    point: Seq<F128>,
    rounds: Seq<RoundProof>,
) -> bool {
    forall|i: int|
        0 <= i < rounds.len() ==> ((#[trigger] rounds[i]).c0, rounds[i].c2, rounds[i].c3)
            == tables.at_all(point.take(i)).message()
}

/// The first rounds bind the first coordinates.
pub proof fn lemma_rounds_prefix(
    oracle: Oracle,
    bits: u32,
    state: SumcheckState,
    rounds: Seq<RoundProof>,
    n: int,
)
    requires
        state.point.len() == 0,
        0 <= n <= rounds.len(),
        run_rounds(oracle, bits, state, rounds) is Some,
    ensures
        run_rounds(oracle, bits, state, rounds.take(n)) matches Some(before) && before.point
            == (run_rounds(oracle, bits, state, rounds)->0).point.take(n),
    decreases rounds.len(),
{
    lemma_rounds_bind(oracle, bits, state, rounds);
    let end = run_rounds(oracle, bits, state, rounds)->0;
    if n == rounds.len() {
        assert(rounds.take(n) =~= rounds);
        assert(end.point.take(n) =~= end.point);
    } else {
        let rest = rounds.drop_last();
        lemma_rounds_bind(oracle, bits, state, rest);
        lemma_rounds_prefix(oracle, bits, state, rest, n);
        assert(rest.take(n) =~= rounds.take(n));
        let before = run_rounds(oracle, bits, state, rest)->0;
        assert(before.point.take(n) =~= end.point.take(n));
    }
}

/// Without grinding, the tables and the state determine an honest prover's
/// rounds.
pub proof fn lemma_honest_rounds_agree(
    oracle: Oracle,
    state: SumcheckState,
    tables: LayerSum,
    ours: Seq<RoundProof>,
    theirs: Seq<RoundProof>,
)
    requires
        state.point.len() == 0,
        ours.len() == theirs.len(),
        run_rounds(oracle, 0, state, ours) matches Some(end) && honest_rounds(
            tables,
            end.point,
            ours,
        ),
        run_rounds(oracle, 0, state, theirs) matches Some(end) && honest_rounds(
            tables,
            end.point,
            theirs,
        ),
    ensures
        ours == theirs,
{
    lemma_honest_prefixes_agree(oracle, state, tables, ours, theirs, ours.len() as int);
    assert(ours.take(ours.len() as int) =~= ours);
    assert(theirs.take(ours.len() as int) =~= theirs);
}

proof fn lemma_honest_prefixes_agree(
    oracle: Oracle,
    state: SumcheckState,
    tables: LayerSum,
    ours: Seq<RoundProof>,
    theirs: Seq<RoundProof>,
    n: int,
)
    requires
        0 <= n <= ours.len(),
        state.point.len() == 0,
        ours.len() == theirs.len(),
        run_rounds(oracle, 0, state, ours) matches Some(end) && honest_rounds(
            tables,
            end.point,
            ours,
        ),
        run_rounds(oracle, 0, state, theirs) matches Some(end) && honest_rounds(
            tables,
            end.point,
            theirs,
        ),
    ensures
        ours.take(n) == theirs.take(n),
    decreases n,
{
    if n > 0 {
        let i = n - 1;
        lemma_honest_prefixes_agree(oracle, state, tables, ours, theirs, i);
        lemma_rounds_prefix(oracle, 0, state, ours, i);
        lemma_rounds_prefix(oracle, 0, state, theirs, i);
        lemma_rounds_prefix(oracle, 0, state, ours, n);
        lemma_rounds_prefix(oracle, 0, state, theirs, n);
        assert(ours.take(n).drop_last() =~= ours.take(i));
        assert(theirs.take(n).drop_last() =~= theirs.take(i));
        assert(ours[i] == theirs[i]);
        assert(ours.take(n) =~= ours.take(i).push(ours[i]));
        assert(theirs.take(n) =~= theirs.take(i).push(theirs[i]));
    } else {
        assert(ours.take(n) =~= theirs.take(n));
    }
}

/// `(p + x q) + (r + x s) = (p + r) + x (q + s)`.
proof fn lemma_affine_adds(p: F128, q: F128, r: F128, s: F128, x: F128)
    ensures
        (p + x * q) + (r + x * s) == (p + r) + x * (q + s),
{
    lemma_add_exchanges(p, x * q, r, x * s);
    lemma_mul_distributes(x, q, s);
}

/// The cubics of two claims add up to the cubic of their sum.
proof fn lemma_cubic_adds(
    s: F128,
    c0: F128,
    c2: F128,
    c3: F128,
    t: F128,
    d0: F128,
    d2: F128,
    d3: F128,
    x: F128,
)
    ensures
        cubic(s, c0, c2, c3, x) + cubic(t, d0, d2, d3, x) == cubic(
            s + t,
            c0 + d0,
            c2 + d2,
            c3 + d3,
            x,
        ),
{
    let (u, v) = (c2 + x * c3, d2 + x * d3);
    lemma_affine_adds(c2, c3, d2, d3, x);
    lemma_add_exchanges(s + c2, c3, t + d2, d3);
    lemma_add_exchanges(s, c2, t, d2);
    let (p, r) = ((s + c2) + c3, (t + d2) + d3);
    lemma_affine_adds(p, u, r, v, x);
    lemma_affine_adds(c0, p + x * u, d0, r + x * v, x);
}

/// `(a + b) (c + d)` multiplied out.
proof fn lemma_mul_out(a: F128, b: F128, c: F128, d: F128)
    ensures
        (a + b) * (c + d) == (a * c + a * d) + (b * c + b * d),
{
    lemma_mul_distributes(c + d, a, b);
    lemma_mul_distributes(a, c, d);
    lemma_mul_distributes(b, c, d);
}

/// The product of two lines is the quadratic through its values at zero and
/// one that bends as the product of the slopes.
proof fn lemma_lines_multiply(a0: F128, a1: F128, b0: F128, b1: F128, x: F128)
    ensures
        line(a0, a1, x) * line(b0, b1, x) == a0 * b0 + x * (((a0 * b0 + a1 * b1) + (a0 + a1) * (b0
            + b1)) + x * ((a0 + a1) * (b0 + b1))),
{
    let (da, db) = (a0 + a1, b0 + b1);
    lemma_mul_out(a0, x * da, b0, x * db);
    // (x da) b0 = x (da b0), a0 (x db) = x (a0 db), (x da)(x db) = x (x (da db))
    lemma_mul_associates(x, da, b0);
    lemma_mul_associates(a0, x, db);
    lemma_mul_commutes(a0, x);
    lemma_mul_associates(x, a0, db);
    lemma_mul_associates(x, da, x * db);
    lemma_mul_associates(da, x, db);
    lemma_mul_commutes(da, x);
    lemma_mul_associates(x, da, db);
    let m = (a0 * b0 + a1 * b1) + da * db;
    // a0 db + da b0 = m
    lemma_mul_distributes(a0, b0, b1);
    lemma_mul_distributes(b0, a0, a1);
    lemma_mul_out(a0, a1, b0, b1);
    let (p, q, r, s) = ((a0 * b0).bits, (a0 * b1).bits, (a1 * b0).bits, (a1 * b1).bits);
    assert((p ^ q) ^ (p ^ r) == (p ^ s) ^ ((p ^ q) ^ (r ^ s))) by (bit_vector);
    assert(a0 * db + da * b0 == m);
    lemma_mul_distributes(x, m, x * (da * db));
    lemma_mul_distributes(x, a0 * db, da * b0);
    lemma_add_associates(a0 * b0, x * (a0 * db), x * (da * b0) + x * (x * (da * db)));
    lemma_add_associates(x * (a0 * db), x * (da * b0), x * (x * (da * db)));
}

/// A line times a quadratic given by its values at zero and one and its bend.
proof fn lemma_line_times_quadratic(e0: F128, e1: F128, q0: F128, v1: F128, q2: F128, x: F128)
    ensures
        line(e0, e1, x) * (q0 + x * (((q0 + v1) + q2) + x * q2)) == cubic(
            e0 * q0 + e1 * v1,
            e0 * q0,
            e0 * q2 + (e0 + e1) * ((q0 + v1) + q2),
            (e0 + e1) * q2,
            x,
        ),
{
    let de = e0 + e1;
    let q1 = (q0 + v1) + q2;
    let inner = q1 + x * q2;
    lemma_mul_out(e0, x * de, q0, x * inner);
    // e0 (x inner) = x (e0 inner)
    lemma_mul_associates(e0, x, inner);
    lemma_mul_commutes(e0, x);
    lemma_mul_associates(x, e0, inner);
    // (x de) q0 = x (de q0), (x de)(x inner) = x (x (de inner))
    lemma_mul_associates(x, de, q0);
    lemma_mul_associates(x, de, x * inner);
    lemma_mul_associates(de, x, inner);
    lemma_mul_commutes(de, x);
    lemma_mul_associates(x, de, inner);
    // e0 inner = e0 q1 + x (e0 q2)
    lemma_mul_distributes(e0, q1, x * q2);
    lemma_mul_associates(e0, x, q2);
    lemma_mul_associates(x, e0, q2);
    // de inner = de q1 + x (de q2)
    lemma_mul_distributes(de, q1, x * q2);
    lemma_mul_associates(de, x, q2);
    lemma_mul_associates(x, de, q2);
    let (f0, f1, f2, f3) = (e0 * q0, e0 * q1 + de * q0, e0 * q2 + de * q1, de * q2);
    // The linear coefficient is what the claim leaves.
    let claim = e0 * q0 + e1 * v1;
    lemma_mul_distributes(e0, q0 + v1, q2);
    lemma_mul_distributes(e0, q0, v1);
    lemma_mul_distributes(de, q0 + v1, q2);
    lemma_mul_distributes(de, q0, v1);
    lemma_mul_distributes(q0, e0, e1);
    lemma_mul_distributes(v1, e0, e1);
    let (a, b, c) = ((e0 * q0).bits, (e0 * v1).bits, (e0 * q2).bits);
    let (d, e, f) = ((e1 * q0).bits, (e1 * v1).bits, (de * q2).bits);
    assert(((a ^ b) ^ c) ^ (a ^ d) == ((a ^ e) ^ (c ^ (((a ^ d) ^ (b ^ e)) ^ f))) ^ f)
        by (bit_vector);
    assert(f1 == (claim + f2) + f3);
    // Collect: f0 + x (e0 inner) + (x (de q0) + x (x (de inner))).
    let (u, v) = (e0 * inner, de * inner);
    lemma_mul_distributes(x, de * q0, x * v);
    lemma_mul_distributes(x, u, de * q0 + x * v);
    lemma_add_associates(f0, x * u, x * (de * q0 + x * v));
    // u + (de q0 + x v) = f1 + x (f2 + x f3)
    lemma_add_exchanges(e0 * q1, x * (e0 * q2), de * q0, x * v);
    lemma_mul_distributes(x, e0 * q2, v);
    lemma_add_associates(e0 * q2, de * q1, x * f3);
}

/// On a pair, the cubic of the round is the term of the folded tables.
proof fn lemma_pair_folds(tables: LayerSum, x: F128, i: int)
    requires
        0 <= i,
        2 * i + 1 < tables.eq.len(),
        tables.sized(tables.eq.len()),
    ensures
        tables.at(x).term(i) == cubic(
            tables.term(2 * i) + tables.term(2 * i + 1),
            tables.pair_c0(i),
            tables.pair_c2(i),
            tables.pair_c3(i),
            x,
        ),
{
    let (a0, a1) = (tables.lhs_low[2 * i], tables.lhs_low[2 * i + 1]);
    let (b0, b1) = (tables.lhs_high[2 * i], tables.lhs_high[2 * i + 1]);
    let (c0, c1) = (tables.rhs_low[2 * i], tables.rhs_low[2 * i + 1]);
    let (d0, d1) = (tables.rhs_high[2 * i], tables.rhs_high[2 * i + 1]);
    let lambda = tables.lambda;
    lemma_lines_multiply(a0, a1, b0, b1, x);
    lemma_lines_multiply(c0, c1, d0, d1, x);
    let (p, r) = (a0 * b0, c0 * d0);
    let (s, t) = (a1 * b1, c1 * d1);
    let (m, n) = ((a0 + a1) * (b0 + b1), (c0 + c1) * (d0 + d1));
    let (k, l) = ((p + s) + m, (r + t) + n);
    // lambda (r + x (l + x n)) = lambda r + x (lambda l + x (lambda n))
    lemma_mul_distributes(lambda, r, x * (l + x * n));
    lemma_mul_associates(lambda, x, l + x * n);
    lemma_mul_commutes(lambda, x);
    lemma_mul_associates(x, lambda, l + x * n);
    lemma_mul_distributes(lambda, l, x * n);
    lemma_mul_associates(lambda, x, n);
    lemma_mul_associates(x, lambda, n);
    lemma_mul_distributes(lambda, r + t, n);
    lemma_mul_distributes(lambda, r, t);
    lemma_affine_adds(k, m, lambda * l, lambda * n, x);
    lemma_affine_adds(p, k + x * m, lambda * r, lambda * l + x * (lambda * n), x);
    lemma_add_exchanges(p + s, m, lambda * r + lambda * t, lambda * n);
    lemma_add_exchanges(p, s, lambda * r, lambda * t);
    lemma_line_times_quadratic(
        tables.eq[2 * i],
        tables.eq[2 * i + 1],
        tables.pair_value(2 * i),
        tables.pair_value(2 * i + 1),
        tables.pair_bend(i),
        x,
    );
}

/// A round's cubic at `x` is the sum over the tables folded at `x`.
pub proof fn lemma_round_folds(tables: LayerSum, x: F128, n: nat)
    requires
        2 * n <= tables.eq.len(),
        tables.sized(tables.eq.len()),
    ensures
        tables.at(x).total(n) == cubic(
            tables.total(2 * n),
            sum(|i: int| tables.pair_c0(i), n),
            sum(|i: int| tables.pair_c2(i), n),
            sum(|i: int| tables.pair_c3(i), n),
            x,
        ),
    decreases n,
{
    if n == 0 {
        lemma_add_zero(F128::zero());
        lemma_mul_zero(x);
    } else {
        let m = (n - 1) as nat;
        lemma_round_folds(tables, x, m);
        lemma_pair_folds(tables, x, m as int);
        let terms = |i: int| tables.term(i);
        let (f0, f2, f3) = (
            |i: int| tables.pair_c0(i),
            |i: int| tables.pair_c2(i),
            |i: int| tables.pair_c3(i),
        );
        assert(sum(terms, 2 * n) == sum(terms, (2 * n - 1) as nat) + terms(2 * n - 1));
        assert(sum(terms, (2 * n - 1) as nat) == sum(terms, 2 * m) + terms(2 * n - 2));
        lemma_add_associates(sum(terms, 2 * m), terms(2 * n - 2), terms(2 * n - 1));
        assert(2 * n - 2 == 2 * (m as int) && 2 * n - 1 == 2 * (m as int) + 1);
        lemma_cubic_adds(
            sum(terms, 2 * m),
            sum(f0, m),
            sum(f2, m),
            sum(f3, m),
            tables.term(2 * (m as int)) + tables.term(2 * (m as int) + 1),
            tables.pair_c0(m as int),
            tables.pair_c2(m as int),
            tables.pair_c3(m as int),
            x,
        );
        assert(sum(f0, n) == sum(f0, m) + f0(m as int));
        assert(sum(f2, n) == sum(f2, m) + f2(m as int));
        assert(sum(f3, n) == sum(f3, m) + f3(m as int));
        let folded = |i: int| tables.at(x).term(i);
        assert(sum(folded, n) == sum(folded, m) + folded(m as int));
    }
}

/// The table with its lowest coordinates set to `xs`, one after the other.
pub open spec fn fold_all(table: Seq<F128>, xs: Seq<F128>) -> Seq<F128>
    decreases xs.len(),
{
    if xs.len() == 0 {
        table
    } else {
        fold(fold_all(table, xs.drop_last()), xs.last())
    }
}

/// Folding sets the lowest coordinates of an extension.
proof fn lemma_fold_all(table: Seq<F128>, xs: Seq<F128>, rest: Seq<F128>)
    requires
        table.len() == pow2(xs.len() + rest.len()),
    ensures
        fold_all(table, xs).len() == pow2(rest.len()),
        mle(table, xs + rest) == mle(fold_all(table, xs), rest),
    decreases xs.len(),
{
    if xs.len() == 0 {
        assert(xs + rest =~= rest);
    } else {
        let longer = seq![xs.last()] + rest;
        lemma_fold_all(table, xs.drop_last(), longer);
        lemma_mle_folds(fold_all(table, xs.drop_last()), longer);
        assert(xs.drop_last() + longer =~= xs + rest);
        assert(longer.drop_first() =~= rest);
    }
}

/// A table with every coordinate set is the value of its extension.
proof fn lemma_fold_all_coordinates(table: Seq<F128>, xs: Seq<F128>)
    requires
        table.len() == pow2(xs.len()),
    ensures
        fold_all(table, xs).len() == 1,
        fold_all(table, xs)[0] == mle(table, xs),
{
    let none = Seq::<F128>::empty();
    lemma2_to64();
    lemma_fold_all(table, xs, none);
    assert(xs + none =~= xs);
    lemma_mle_single(fold_all(table, xs), none);
}

/// All five tables with every coordinate set are the values of their
/// extensions.
pub proof fn lemma_at_all_coordinates(tables: LayerSum, xs: Seq<F128>)
    requires
        tables.sized(pow2(xs.len())),
    ensures
        ({
            let end = tables.at_all(xs);
            &&& end.sized(1)
            &&& end.eq[0] == mle(tables.eq, xs)
            &&& end.lhs_low[0] == mle(tables.lhs_low, xs)
            &&& end.lhs_high[0] == mle(tables.lhs_high, xs)
            &&& end.rhs_low[0] == mle(tables.rhs_low, xs)
            &&& end.rhs_high[0] == mle(tables.rhs_high, xs)
            &&& end.lambda == tables.lambda
        }),
{
    lemma_at_all(tables, xs);
    lemma_fold_all_coordinates(tables.eq, xs);
    lemma_fold_all_coordinates(tables.lhs_low, xs);
    lemma_fold_all_coordinates(tables.lhs_high, xs);
    lemma_fold_all_coordinates(tables.rhs_low, xs);
    lemma_fold_all_coordinates(tables.rhs_high, xs);
}

/// The five tables are folded one by one.
proof fn lemma_at_all(tables: LayerSum, xs: Seq<F128>)
    ensures
        tables.at_all(xs) == (LayerSum {
            eq: fold_all(tables.eq, xs),
            lhs_low: fold_all(tables.lhs_low, xs),
            lhs_high: fold_all(tables.lhs_high, xs),
            rhs_low: fold_all(tables.rhs_low, xs),
            rhs_high: fold_all(tables.rhs_high, xs),
            lambda: tables.lambda,
        }),
    decreases xs.len(),
{
    if xs.len() > 0 {
        lemma_at_all(tables, xs.drop_last());
    }
}

/// The tables as a prover holds them.
pub struct Tables {
    pub eq: Vec<F128>,
    pub lhs_low: Vec<F128>,
    pub lhs_high: Vec<F128>,
    pub rhs_low: Vec<F128>,
    pub rhs_high: Vec<F128>,
    pub lambda: F128,
}

/// Sets the lowest coordinate of a table.
fn fold_table(table: &Vec<F128>, x: F128) -> (folded: Vec<F128>)
    ensures
        folded@ == fold(table@, x),
{
    let half: usize = table.len() / 2;
    let mut folded: Vec<F128> = Vec::new();
    let mut i: usize = 0;
    while i < half
        invariant
            i <= half,
            half == table@.len() / 2,
            2 * half <= usize::MAX,
            folded@.len() == i,
            forall|k: int|
                0 <= k < i ==> #[trigger] folded@[k] == line(table@[2 * k], table@[2 * k + 1], x),
        decreases half - i,
    {
        let a = table[2 * i];
        let b = table[2 * i + 1];
        folded.push(a + x * (a + b));
        i = i + 1;
    }
    assert(folded@ =~= fold(table@, x));
    folded
}

impl Tables {
    /// The sum that the tables make up.
    pub open spec fn view(&self) -> LayerSum {
        LayerSum {
            eq: self.eq@,
            lhs_low: self.lhs_low@,
            lhs_high: self.lhs_high@,
            rhs_low: self.rhs_low@,
            rhs_high: self.rhs_high@,
            lambda: self.lambda,
        }
    }

    /// Sets the lowest coordinate of all five tables.
    fn folded(&self, x: F128) -> (after: Tables)
        ensures
            after@ == self@.at(x),
    {
        Tables {
            eq: fold_table(&self.eq, x),
            lhs_low: fold_table(&self.lhs_low, x),
            lhs_high: fold_table(&self.lhs_high, x),
            rhs_low: fold_table(&self.rhs_low, x),
            rhs_high: fold_table(&self.rhs_high, x),
            lambda: self.lambda,
        }
    }

    /// The cubic of the next round.
    fn round(&self) -> (cubic: (F128, F128, F128))
        requires
            self@.sized(self.eq@.len()),
        ensures
            cubic == self@.message(),
    {
        let half: usize = self.eq.len() / 2;
        let lambda = self.lambda;
        let (mut c0, mut c2, mut c3) = (F128::zero(), F128::zero(), F128::zero());
        let ghost f0 = |i: int| self@.pair_c0(i);
        let ghost f2 = |i: int| self@.pair_c2(i);
        let ghost f3 = |i: int| self@.pair_c3(i);
        let mut i: usize = 0;
        while i < half
            invariant
                i <= half,
                half == self.eq@.len() / 2,
                2 * half <= usize::MAX,
                self@.sized(self.eq@.len()),
                lambda == self.lambda,
                f0 == (|i: int| self@.pair_c0(i)),
                f2 == (|i: int| self@.pair_c2(i)),
                f3 == (|i: int| self@.pair_c3(i)),
                c0 == sum(f0, i as nat),
                c2 == sum(f2, i as nat),
                c3 == sum(f3, i as nat),
            decreases half - i,
        {
            let (e0, e1) = (self.eq[2 * i], self.eq[2 * i + 1]);
            let (a0, a1) = (self.lhs_low[2 * i], self.lhs_low[2 * i + 1]);
            let (b0, b1) = (self.lhs_high[2 * i], self.lhs_high[2 * i + 1]);
            let (r0, r1) = (self.rhs_low[2 * i], self.rhs_low[2 * i + 1]);
            let (s0, s1) = (self.rhs_high[2 * i], self.rhs_high[2 * i + 1]);
            let at_zero = a0 * b0 + lambda * (r0 * s0);
            let at_one = a1 * b1 + lambda * (r1 * s1);
            let bend = (a0 + a1) * (b0 + b1) + lambda * ((r0 + r1) * (s0 + s1));
            c0 = c0 + e0 * at_zero;
            c2 = c2 + (e0 * bend + (e0 + e1) * ((at_zero + at_one) + bend));
            c3 = c3 + (e0 + e1) * bend;
            assert(f0(i as int) == e0 * at_zero);
            assert(f2(i as int) == e0 * bend + (e0 + e1) * ((at_zero + at_one) + bend));
            assert(f3(i as int) == (e0 + e1) * bend);
            i = i + 1;
        }
        (c0, c2, c3)
    }
}

/// Proves the sum of a layer's tables. Returns the messages, the point at
/// which the tables were left and their values there.
pub fn prove_rounds<C: Challenger>(tables: Tables, k: usize, bits: u32, ch: &mut C) -> (sent: (
    Vec<RoundProof>,
    Vec<F128>,
    Tables,
))
    requires
        tables@.sized(pow2(k as nat)),
    ensures
        final(ch).oracle() == old(ch).oracle(),
        sent.0@.len() == k,
        sent.1@.len() == k,
        sent.2@.sized(1),
        sent.2.eq@[0] == mle(tables.eq@, sent.1@),
        sent.2.lhs_low@[0] == mle(tables.lhs_low@, sent.1@),
        sent.2.lhs_high@[0] == mle(tables.lhs_high@, sent.1@),
        sent.2.rhs_low@[0] == mle(tables.rhs_low@, sent.1@),
        sent.2.rhs_high@[0] == mle(tables.rhs_high@, sent.1@),
        sent.2.lambda == tables.lambda,
        honest_rounds(tables@, sent.1@, sent.0@),
        run_rounds(
            old(ch).oracle(),
            bits,
            (SumcheckState {
                claim: tables@.total(pow2(k as nat)),
                point: Seq::empty(),
                transcript: old(ch).transcript(),
            }),
            sent.0@,
        ) == Some(
            (SumcheckState {
                claim: sent.2@.total(1),
                point: sent.1@,
                transcript: final(ch).transcript(),
            }),
        ),
{
    let ghost oracle = ch.oracle();
    let ghost start = SumcheckState {
        claim: tables@.total(pow2(k as nat)),
        point: Seq::empty(),
        transcript: ch.transcript(),
    };
    let ghost first = tables;
    let mut tables = tables;
    let mut rounds: Vec<RoundProof> = Vec::new();
    let mut point: Vec<F128> = Vec::new();
    let mut left: usize = k;
    proof {
        assert(point@ =~= Seq::empty());
    }
    while left > 0
        invariant
            left <= k,
            rounds@.len() == k - left,
            point@.len() == k - left,
            first@.sized(pow2(k as nat)),
            tables@.sized(pow2(left as nat)),
            tables@ == first@.at_all(point@),
            honest_rounds(first@, point@, rounds@),
            ch.oracle() == oracle,
            run_rounds(oracle, bits, start, rounds@) == Some(
                (SumcheckState {
                    claim: tables@.total(pow2(left as nat)),
                    point: point@,
                    transcript: ch.transcript(),
                }),
            ),
        decreases left,
    {
        let ghost half = pow2((left - 1) as nat);
        proof {
            lemma_pow2_unfold(left as nat);
        }
        let (c0, c2, c3) = tables.round();
        ch.observe_f128(c0);
        ch.observe_f128(c2);
        ch.observe_f128(c3);
        let (nonce, x) = draw(ch, bits);
        let after = tables.folded(x);
        proof {
            lemma_round_folds(tables@, x, half);
        }
        let ghost (sent_before, bound_before) = (rounds@, point@);
        rounds.push(RoundProof { c0, c2, c3, nonce });
        point.push(x);
        proof {
            assert(rounds@.drop_last() =~= sent_before);
            assert(point@.drop_last() =~= bound_before);
            assert forall|i: int| 0 <= i < rounds@.len() implies ((#[trigger] rounds@[i]).c0,
                rounds@[i].c2, rounds@[i].c3) == first@.at_all(point@.take(i)).message() by {
                if i < sent_before.len() {
                    assert(rounds@[i] == sent_before[i]);
                    assert(point@.take(i) =~= bound_before.take(i));
                } else {
                    assert(point@.take(i) =~= bound_before);
                }
            }
        }
        tables = after;
        left = left - 1;
    }
    proof {
        lemma2_to64();
        lemma_at_all_coordinates(first@, point@);
    }
    (rounds, point, tables)
}

/// Replays a sumcheck: the claim that is left and the point that was bound, or
/// `None` if a nonce is missing, superfluous or wrong.
pub fn verify_rounds<C: Challenger>(
    claim: F128,
    rounds: &Vec<RoundProof>,
    bits: u32,
    ch: &mut C,
) -> (left: Option<(F128, Vec<F128>)>)
    ensures
        final(ch).oracle() == old(ch).oracle(),
        match run_rounds(
            old(ch).oracle(),
            bits,
            (SumcheckState { claim, point: Seq::empty(), transcript: old(ch).transcript() }),
            rounds@,
        ) {
            Some(end) => {
                &&& left matches Some((value, point)) && value == end.claim && point@ == end.point
                &&& final(ch).transcript() == end.transcript
            },
            None => left is None,
        },
        transcript_after_rounds(
            old(ch).oracle(),
            bits,
            (SumcheckState { claim, point: Seq::empty(), transcript: old(ch).transcript() }),
            rounds@,
        ) matches Some(after) ==> final(ch).transcript() == after,
{
    let ghost oracle = ch.oracle();
    let ghost start = SumcheckState { claim, point: Seq::empty(), transcript: ch.transcript() };
    let mut value = claim;
    let mut point: Vec<F128> = Vec::new();
    let mut n: usize = 0;
    proof {
        assert(rounds@.take(0) =~= Seq::empty());
        assert(point@ =~= Seq::empty());
    }
    while n < rounds.len()
        invariant
            n <= rounds@.len(),
            ch.oracle() == oracle,
            oracle == old(ch).oracle(),
            start == (SumcheckState {
                claim,
                point: Seq::empty(),
                transcript: old(ch).transcript(),
            }),
            run_rounds(oracle, bits, start, rounds@.take(n as int)) == Some(
                (SumcheckState { claim: value, point: point@, transcript: ch.transcript() }),
            ),
        decreases rounds@.len() - n,
    {
        let round = rounds[n];
        proof {
            assert(rounds@.take(n + 1).drop_last() =~= rounds@.take(n as int));
            assert(rounds@.take(n + 1).last() == round);
        }
        ch.observe_f128(round.c0);
        ch.observe_f128(round.c2);
        ch.observe_f128(round.c3);
        match redraw(ch, bits, round.nonce) {
            Some(x) => {
                value = round.c0 + x * (((value + round.c2) + round.c3) + x * (round.c2 + x
                    * round.c3));
                point.push(x);
            },
            None => {
                proof {
                    lemma_rounds_stay_failed(oracle, bits, start, rounds@, n + 1);
                }
                return None;
            },
        }
        n = n + 1;
    }
    assert(rounds@.take(n as int) =~= rounds@);
    Some((value, point))
}

} // verus!
