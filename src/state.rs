use crate::indexbitset::{IndexBitSet, CELLS};
use crate::prelude::{index, is_digit, valid_cells};
use vstd::prelude::*;

verus! {

/// What an empty cell counts as in a row code: zero.
pub open spec fn digit_value(c: Option<u8>) -> int {
    match c {
        Some(v) => v as int,
        None => 0,
    }
}

pub open spec fn pow10(k: nat) -> int
    decreases k,
{
    if k == 0 {
        1
    } else {
        10 * pow10((k - 1) as nat)
    }
}

/// The code of the first `k` cells of row `r`: the sum of `digit · 10^column`.
pub open spec fn row_code(cells: Seq<Option<u8>>, r: int, k: nat) -> int
    decreases k,
{
    if k == 0 {
        0
    } else {
        row_code(cells, r, (k - 1) as nat) + digit_value(cells[9 * r + k - 1]) * pow10(
            (k - 1) as nat,
        )
    }
}

/// The identity of a grid: one code per row.
pub open spec fn state_id_of(cells: Seq<Option<u8>>) -> Seq<int> {
    Seq::new(9, |r: int| row_code(cells, r, 9))
}

proof fn lemma_pow10(k: nat)
    requires
        k <= 9,
    ensures
        1 <= pow10(k) <= 1_000_000_000,
        k <= 8 ==> pow10(k) <= 100_000_000,
    decreases 9 - k,
{
    reveal_with_fuel(pow10, 10);
    if k < 9 {
        lemma_pow10(k + 1);
    }
}

/// The identity of a [`State`]: row `r` is encoded as the sum over its
/// columns `c` of `digit · 10^c`, an empty cell counting as zero.
#[derive(Hash, Eq, PartialEq, Ord, PartialOrd, Copy, Clone, Debug)]
pub struct StateId {
    repr: [usize; 9],
}

impl View for StateId {
    type V = Seq<int>;

    closed spec fn view(&self) -> Seq<int> {
        self.repr@.map_values(|x: usize| x as int)
    }
}

impl StateId {
    /// The code of row `row`.
    pub fn code(&self, row: usize) -> (r: usize)
        requires
            row < 9,
        ensures
            r == self@[row as int],
    {
        self.repr[row]
    }
}

/// Eighty-one cells in row-major order together with their identity.
#[derive(Hash, Debug)]
pub struct State {
    pub id: StateId,
    pub values: [Option<u8>; 81],
}

impl View for State {
    type V = Seq<Option<u8>>;

    open spec fn view(&self) -> Seq<Option<u8>> {
        self.values@
    }
}

impl Clone for State {
    fn clone(&self) -> (r: State)
        ensures
            r == *self,
    {
        State { id: self.id, values: self.values }
    }
}

impl PartialEq for State {
    fn eq(&self, other: &State) -> (r: bool)
        ensures
            r == (self@ == other@),
    {
        let mut i: usize = 0;
        while i < CELLS
            invariant
                i <= 81,
                self@.len() == 81,
                other@.len() == 81,
                forall|j: int| 0 <= j < i ==> self@[j] == other@[j],
            decreases 81 - i,
        {
            if self.values[i] != other.values[i] {
                return false;
            }
            i = i + 1;
        }
        proof {
            assert(self@ =~= other@);
        }
        true
    }
}

impl vstd::std_specs::cmp::PartialEqSpecImpl for State {
    open spec fn obeys_eq_spec() -> bool {
        true
    }

    open spec fn eq_spec(&self, other: &State) -> bool {
        self@ == other@
    }
}

impl Eq for State {
}

impl State {
    /// The cells hold digits or nothing, and the identity matches them.
    pub open spec fn wf(&self) -> bool {
        &&& valid_cells(self@)
        &&& self.id@ == state_id_of(self@)
    }

    /// A state from values in row-major order.
    pub fn new(values: [Option<u8>; 81]) -> (r: State)
        requires
            valid_cells(values@),
        ensures
            r.wf(),
            r@ == values@,
    {
        let id = Self::make_id(&values);
        State { values, id }
    }

    /// The cell at column `x` and row `y`.
    pub fn cell_at_xy(&self, x: usize, y: usize, width: usize, height: usize) -> (r: Option<u8>)
        requires
            self.wf(),
            width == 9,
            height == 9,
            x < width,
            y < height,
        ensures
            r == self@[x + 9 * y],
    {
        self.values[index(x, y, width)]
    }

    /// The cell at `index`.
    pub fn cell_at_index(&self, index: usize, width: usize, height: usize) -> (r: Option<u8>)
        requires
            self.wf(),
            width == 9,
            height == 9,
            index < width * height,
        ensures
            r == self@[index as int],
    {
        self.values[index]
    }

    /// Writes `value` at `index`.
    pub fn apply(&mut self, index: usize, value: u8)
        requires
            old(self).wf(),
            index < CELLS,
            is_digit(value),
        ensures
            final(self).wf(),
            final(self)@ == old(self)@.update(index as int, Some(value)),
    {
        self.values[index] = Some(value);
        self.id = Self::make_id(&self.values);
    }

    /// A copy of this state with `value` written at `index`; this state is unchanged.
    pub fn apply_and_fork(&self, index: usize, value: u8) -> (r: State)
        requires
            self.wf(),
            index < CELLS,
            is_digit(value),
        ensures
            r.wf(),
            r@ == self@.update(index as int, Some(value)),
    {
        let mut values = self.values;
        values[index] = Some(value);
        let id = Self::make_id(&values);
        State { values, id }
    }

    /// The indexes of the empty cells.
    pub fn empty_cells(&self) -> (r: IndexBitSet)
        requires
            self.wf(),
        ensures
            r.wf(),
            forall|i: usize| #[trigger] r@.contains(i) <==> i < 81 && self@[i as int] is None,
    {
        let mut set = IndexBitSet::default();
        let mut index: usize = 0;
        while index < CELLS
            invariant
                index <= 81,
                set.wf(),
                self.wf(),
                forall|i: usize| #[trigger] set@.contains(i) <==> i < index && self@[i as int] is None,
            decreases 81 - index,
        {
            if self.values[index].is_none() {
                set.insert(index);
            }
            index = index + 1;
        }
        set
    }

    /// The identity of `values`.
    fn make_id(values: &[Option<u8>; 81]) -> (r: StateId)
        requires
            valid_cells(values@),
        ensures
            r@ == state_id_of(values@),
    {
        let mut repr = [0usize; 9];
        let mut row: usize = 0;
        while row < 9
            invariant
                row <= 9,
                valid_cells(values@),
                forall|r: int| 0 <= r < row ==> repr[r] as int == row_code(values@, r, 9),
            decreases 9 - row,
        {
            let mut code: usize = 0;
            let mut power: usize = 1;
            let mut column: usize = 0;
            while column < 9
                invariant
                    row < 9,
                    column <= 9,
                    valid_cells(values@),
                    code as int == row_code(values@, row as int, column as nat),
                    power as int == pow10(column as nat),
                    code < power,
                decreases 9 - column,
            {
                proof {
                    lemma_pow10(column as nat);
                    lemma_pow10((column + 1) as nat);
                }
                let cell = values[column + 9 * row];
                let digit: usize = match cell {
                    Some(v) => v as usize,
                    None => 0,
                };
                assert(digit * power <= 9 * power) by (nonlinear_arith)
                    requires
                        digit <= 9,
                ;
                code = code + digit * power;
                power = power * 10;
                column = column + 1;
            }
            repr[row] = code;
            row = row + 1;
        }
        let r = StateId { repr };
        proof {
            assert(r@ =~= state_id_of(values@));
        }
        r
    }
}

/// Equal cells give equal identities.
pub proof fn lemma_state_id_functional(a: State, b: State)
    requires
        a.wf(),
        b.wf(),
        a@ == b@,
    ensures
        a.id@ == b.id@,
{
}

} // verus!
