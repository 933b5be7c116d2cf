//! A circuit's cell space: where the words of its gates and its public words
//! stand.
//!
//! The committed buffer holds `2^vars` field elements in columns of `2^nu`
//! rows, rows low. A gate slot is one word of one registry type; its cells are
//! the rows of one column.

use crate::field::{lemma_add_self, lemma_add_zero, lemma_mul_one, lemma_mul_zero, F128};
use crate::multilinear::{eq, lemma_eq_parts, mle};
use crate::sums::{lemma_sum_blocks, lemma_sum_congruent, lemma_sum_zero, sum};
use vstd::arithmetic::power2::{
    lemma2_to64, lemma_pow2_adds, lemma_pow2_pos, lemma_pow2_unfold, pow2,
};
use vstd::prelude::*;

verus! {

/// Whether a word enters or leaves a gate.
#[derive(Clone, Copy, Debug, PartialEq, Eq, Structural, Hash)]
pub enum IoRole {
    Input,
    Output,
}

/// A word of a gate's schema.
#[derive(Clone, Copy, Debug, PartialEq, Eq, Structural, Hash)]
pub struct IoWord {
    pub role: IoRole,
    pub index: usize,
}

impl IoWord {
    /// An input word.
    pub fn input(index: usize) -> (word: IoWord)
        ensures
            word == (IoWord { role: IoRole::Input, index }),
    {
        IoWord { role: IoRole::Input, index }
    }

    /// An output word.
    pub fn output(index: usize) -> (word: IoWord)
        ensures
            word == (IoWord { role: IoRole::Output, index }),
    {
        IoWord { role: IoRole::Output, index }
    }
}

/// A slot of the cell space.
#[derive(Clone, Copy, Debug, PartialEq, Eq, Structural, Hash)]
pub enum CellSlot {
    /// A word of a registry type: one cell for each row.
    Gate { ty: usize, word: IoWord },
    /// A block of public words.
    Public { block: usize },
}

/// The slots of a circuit, gate slots first, and the column of each gate slot.
#[derive(Clone, Debug, PartialEq, Eq)]
pub struct CellSpace {
    pub nu: usize,
    pub vars: usize,
    pub slots: Vec<CellSlot>,
    pub columns: Vec<usize>,
}

/// The first of the first `n` slots that is the word `word` of type `ty`.
pub open spec fn find_slot(slots: Seq<CellSlot>, n: nat, ty: usize, word: IoWord) -> Option<int>
    decreases n,
{
    if n == 0 {
        None
    } else {
        match find_slot(slots, (n - 1) as nat, ty, word) {
            Some(iota) => Some(iota),
            None => if slots[n - 1] == (CellSlot::Gate { ty, word }) {
                Some(n - 1)
            } else {
                None
            },
        }
    }
}

/// A slot that is found is the first with that word.
pub proof fn lemma_find_slot(slots: Seq<CellSlot>, n: nat, ty: usize, word: IoWord)
    ensures
        match find_slot(slots, n, ty, word) {
            Some(iota) => {
                &&& 0 <= iota < n
                &&& slots[iota] == (CellSlot::Gate { ty, word })
                &&& forall|i: int| 0 <= i < iota ==> #[trigger] slots[i] != (CellSlot::Gate {
                    ty,
                    word,
                })
            },
            None => forall|i: int| 0 <= i < n ==> #[trigger] slots[i] != (CellSlot::Gate {
                ty,
                word,
            }),
        },
    decreases n,
{
    if n > 0 {
        lemma_find_slot(slots, (n - 1) as nat, ty, word);
    }
}

/// The Boolean point of index `i` with `n` coordinates, lowest bit first.
pub open spec fn boolean_point(i: nat, n: nat) -> Seq<F128>
    decreases n,
{
    if n == 0 {
        Seq::empty()
    } else {
        seq![
            if i % 2 == 1 {
                F128::one()
            } else {
                F128::zero()
            },
        ] + boolean_point(i / 2, (n - 1) as nat)
    }
}

impl CellSpace {
    /// The buffer and its columns are addressable, and every gate slot has a
    /// column of the buffer.
    pub open spec fn wf(&self) -> bool {
        &&& self.nu <= self.vars < usize::BITS
        &&& self.columns@.len() <= self.slots@.len()
        &&& forall|i: int|
            0 <= i < self.columns@.len() ==> (#[trigger] self.columns@[i]) < pow2(
                (self.vars - self.nu) as nat,
            )
    }

    /// The rows of a column.
    pub open spec fn rows(&self) -> nat {
        pow2(self.nu as nat)
    }

    /// Which gate slot holds a word.
    pub open spec fn slot_of(&self, ty: usize, word: IoWord) -> Option<int> {
        find_slot(self.slots@, self.columns@.len(), ty, word)
    }

    /// The address of the first row of a gate slot.
    pub open spec fn base(&self, iota: int) -> int {
        self.columns@[iota] * self.rows()
    }

    /// The point of the committed buffer that stands for a row point of a gate
    /// slot.
    pub open spec fn claim_point(&self, iota: int, row: Seq<F128>) -> Seq<F128> {
        row + boolean_point(self.columns@[iota] as nat, (self.vars - self.nu) as nat)
    }

    /// A cell space with the given slots, the first `columns.len()` of them
    /// gate slots. `None` if the buffer cannot be addressed, a column lies
    /// outside of it or there are more columns than slots.
    pub fn new(nu: usize, vars: usize, slots: Vec<CellSlot>, columns: Vec<usize>) -> (cells: Option<
        CellSpace,
    >)
        ensures
            ({
                let all = CellSpace { nu, vars, slots, columns };
                cells == if all.wf() {
                    Some(all)
                } else {
                    None
                }
            }),
    {
        if nu > vars || vars >= usize::BITS as usize || columns.len() > slots.len() {
            return None;
        }
        let limit = two_to(vars - nu);
        let mut i: usize = 0;
        while i < columns.len()
            invariant
                i <= columns@.len(),
                nu <= vars < usize::BITS,
                limit == pow2((vars - nu) as nat),
                forall|k: int| 0 <= k < i ==> (#[trigger] columns@[k]) < limit,
            decreases columns@.len() - i,
        {
            if columns[i] >= limit {
                return None;
            }
            i = i + 1;
        }
        Some(CellSpace { nu, vars, slots, columns })
    }

    /// The logarithm of the number of rows.
    pub fn nu(&self) -> (nu: usize)
        ensures
            nu == self.nu,
    {
        self.nu
    }

    /// The slots, gate slots first.
    pub fn slots(&self) -> (slots: &[CellSlot])
        ensures
            slots@ == self.slots@,
    {
        self.slots.as_slice()
    }

    /// The number of gate slots.
    pub fn num_gate_slots(&self) -> (n: usize)
        ensures
            n == self.columns@.len(),
    {
        self.columns.len()
    }

    /// The address of a row of a gate slot.
    pub fn gate_word_addr(&self, iota: usize, row: usize) -> (addr: usize)
        requires
            self.wf(),
            iota < self.columns@.len(),
            row < self.rows(),
        ensures
            addr == self.base(iota as int) + row,
            addr < pow2(self.vars as nat),
    {
        let rows = two_to(self.nu);
        proof {
            self.lemma_column_fits(iota as int);
        }
        self.columns[iota] * rows + row
    }

    /// The point of the committed buffer that stands for a row point of a gate
    /// slot: the row coordinates, then the bits of the column.
    pub fn gate_claim_point(&self, iota: usize, row: &[F128]) -> (point: Vec<F128>)
        requires
            self.wf(),
            iota < self.columns@.len(),
        ensures
            point@ == self.claim_point(iota as int, row@),
    {
        let mut point = vstd::slice::slice_to_vec(row);
        let mut column: usize = self.columns[iota];
        let mut left: usize = self.vars - self.nu;
        proof {
            assert(point@ + boolean_point(column as nat, left as nat) =~= self.claim_point(
                iota as int,
                row@,
            ));
        }
        while left > 0
            invariant
                point@ + boolean_point(column as nat, left as nat) == self.claim_point(
                    iota as int,
                    row@,
                ),
            decreases left,
        {
            let bit = if column % 2 == 1 {
                F128::one()
            } else {
                F128::zero()
            };
            proof {
                let rest = boolean_point((column / 2) as nat, (left - 1) as nat);
                assert(boolean_point(column as nat, left as nat) == seq![bit] + rest);
                assert(point@ + (seq![bit] + rest) =~= point@.push(bit) + rest);
            }
            point.push(bit);
            column = column / 2;
            left = left - 1;
        }
        assert(point@ + boolean_point(column as nat, 0) =~= point@);
        point
    }

    /// A column lies in the buffer.
    pub proof fn lemma_column_fits(&self, iota: int)
        requires
            self.wf(),
            0 <= iota < self.columns@.len(),
        ensures
            0 <= self.base(iota),
            self.base(iota) + self.rows() <= pow2(self.vars as nat) <= usize::MAX,
    {
        let column = self.columns@[iota] as nat;
        let high = pow2((self.vars - self.nu) as nat);
        lemma_pow2_pos(self.nu as nat);
        lemma_pow2_adds((self.vars - self.nu) as nat, self.nu as nat);
        assert(column * self.rows() + self.rows() <= high * self.rows()) by (nonlinear_arith)
            requires
                column + 1 <= high,
                self.rows() > 0,
        ;
        assert(0 <= column * self.rows()) by (nonlinear_arith);
        vstd::bits::lemma_usize_pow2_no_overflow(self.vars as nat);
    }
}

/// `2^n`.
pub fn two_to(n: usize) -> (power: usize)
    requires
        n < usize::BITS,
    ensures
        power == pow2(n as nat),
{
    proof {
        vstd::bits::lemma_usize_pow2_no_overflow(n as nat);
        vstd::bits::lemma_usize_shl_is_mul(1, n);
    }
    1usize << n
}

/// The equality polynomial at a Boolean point picks out its index.
pub proof fn lemma_eq_boolean(i: nat, n: nat, j: int)
    requires
        i < pow2(n),
        0 <= j < pow2(n),
    ensures
        boolean_point(i, n).len() == n,
        eq(boolean_point(i, n), j) == (if j == i {
            F128::one()
        } else {
            F128::zero()
        }),
    decreases n,
{
    if n == 0 {
        lemma2_to64();
    } else {
        lemma_pow2_unfold(n);
        let rest = boolean_point(i / 2, (n - 1) as nat);
        lemma_eq_boolean(i / 2, (n - 1) as nat, j / 2);
        let point = boolean_point(i, n);
        assert(point.drop_first() =~= rest);
        lemma_add_self(F128::one());
        lemma_add_zero(F128::one());
        lemma_mul_one(F128::one());
        lemma_mul_one(F128::zero());
        lemma_mul_zero(F128::one());
        lemma_mul_zero(F128::zero());
    }
}

/// The extension of the buffer at the claim point of a gate slot is the
/// extension of the slot's column at the row point.
pub proof fn lemma_claim_point(cells: CellSpace, buffer: Seq<F128>, iota: int, row: Seq<F128>)
    requires
        cells.wf(),
        0 <= iota < cells.columns@.len(),
        row.len() == cells.nu,
        buffer.len() == pow2(cells.vars as nat),
    ensures
        mle(buffer, cells.claim_point(iota, row)) == sum(
            |j: int| eq(row, j) * buffer[cells.base(iota) + j],
            cells.rows(),
        ),
{
    let rows = cells.rows();
    let width = (cells.vars - cells.nu) as nat;
    let groups = pow2(width);
    let column = cells.columns@[iota] as nat;
    let high = boolean_point(column, width);
    let point = row + high;
    lemma_pow2_adds(cells.nu as nat, width);
    lemma_pow2_pos(cells.nu as nat);
    lemma_eq_boolean(column, width, column as int);
    let terms = |x: int| eq(point, x) * buffer[x];
    let blocks = |g: int| sum(|j: int| terms(rows * g + j), rows);
    lemma_sum_blocks(terms, blocks, rows, groups);
    assert(mle(buffer, point) == sum(terms, rows * groups));
    let picked = |j: int| eq(row, j) * buffer[cells.base(iota) + j];
    assert forall|g: int| 0 <= g < groups implies #[trigger] blocks(g) == (if g == column {
        sum(picked, rows)
    } else {
        F128::zero()
    }) by {
        let block = |j: int| terms(rows * g + j);
        lemma_eq_boolean(column, width, g);
        assert forall|j: int| 0 <= j < rows implies #[trigger] block(j) == (if g == column {
            picked(j)
        } else {
            F128::zero()
        }) by {
            lemma_eq_parts(row, high, j, g);
            lemma_mul_one(eq(row, j));
            lemma_mul_zero(eq(row, j));
            lemma_mul_zero(buffer[rows * g + j]);
            assert(rows * column == column * rows) by (nonlinear_arith);
        }
        if g == column {
            lemma_sum_congruent(block, picked, rows);
        } else {
            lemma_sum_zero(block, rows);
        }
    }
    lemma_sum_single(blocks, groups, column as int);
}

/// A sum with one term that is not zero.
pub proof fn lemma_sum_single(f: spec_fn(int) -> F128, n: nat, k: int)
    requires
        0 <= k < n,
        forall|i: int| 0 <= i < n && i != k ==> #[trigger] f(i) == F128::zero(),
    ensures
        sum(f, n) == f(k),
    decreases n,
{
    if n == k + 1 {
        lemma_sum_zero(f, (n - 1) as nat);
        lemma_add_zero(f(k));
    } else {
        lemma_sum_single(f, (n - 1) as nat, k);
        assert(f(n - 1) == F128::zero());
        lemma_add_zero(f(k));
    }
}

/// A circuit: its cell space, the declared rows of each registry type and the
/// number of public words.
#[derive(Clone, Debug, PartialEq, Eq)]
pub struct Circuit {
    pub cells: CellSpace,
    pub counts: Vec<usize>,
    pub num_public: usize,
}

impl Circuit {
    /// The cell space is well formed.
    pub open spec fn wf(&self) -> bool {
        self.cells.wf()
    }

    /// The cell space.
    pub fn cells(&self) -> (cells: &CellSpace)
        ensures
            *cells == self.cells,
    {
        &self.cells
    }

    /// The declared rows of each registry type.
    pub fn counts(&self) -> (counts: &[usize])
        ensures
            counts@ == self.counts@,
    {
        self.counts.as_slice()
    }

    /// The number of public words.
    pub fn num_public(&self) -> (n: usize)
        ensures
            n == self.num_public,
    {
        self.num_public
    }
}

} // verus!
