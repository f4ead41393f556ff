use vstd::prelude::*;

use crate::column::{is_input_column, ColumnSettings, DEFAULT_PRECISION};

verus! {

/// One cell: the text typed for an input column, and the numbers that the
/// grid holds for it (parsed for an input column, computed for a derived one).
pub struct Cell<N> {
    pub raw_value: String,
    pub raw_uncertainty: String,
    pub value: N,
    pub uncertainty: N,
}

/// The columns and the rows of the grid. `not_a_number` is the value of a
/// cell that holds no number; `zero` is the uncertainty of a cell whose
/// uncertainty was left empty.
pub struct Sheet<N> {
    pub columns: Vec<ColumnSettings>,
    pub grid: Vec<Vec<Cell<N>>>,
    pub not_a_number: N,
    pub zero: N,
}

/// Some input column of `row` holds text, in its value or its uncertainty.
pub open spec fn row_has_input<N>(columns: Seq<ColumnSettings>, row: Seq<Cell<N>>) -> bool {
    exists|x: int|
        0 <= x < columns.len() && is_input_column(columns[x]) && (#[trigger] row[x].raw_value@.len()
            > 0 || row[x].raw_uncertainty@.len() > 0)
}

/// Number of rows up to and including the last one that holds input text.
pub open spec fn filled_len<N>(columns: Seq<ColumnSettings>, grid: Seq<Vec<Cell<N>>>) -> nat
    decreases grid.len(),
{
    if grid.len() == 0 {
        0
    } else if row_has_input(columns, grid.last()@) {
        grid.len()
    } else {
        filled_len(columns, grid.drop_last())
    }
}

impl<N: Copy> Sheet<N> {
    /// Every row has one cell per column.
    pub open spec fn wf(&self) -> bool {
        forall|i: int| 0 <= i < self.grid@.len() ==> (#[trigger] self.grid@[i])@.len()
            == self.columns@.len()
    }

    /// The cell that a new row or column starts with.
    pub open spec fn is_blank(&self, c: Cell<N>) -> bool {
        &&& c.raw_value@.len() == 0
        &&& c.raw_uncertainty@.len() == 0
        &&& c.value == self.not_a_number
        &&& c.uncertainty == self.zero
    }

    /// A grid without columns or rows.
    pub fn new(not_a_number: N, zero: N) -> (r: Self)
        ensures
            r.wf(),
            r.columns@.len() == 0,
            r.grid@.len() == 0,
            r.not_a_number == not_a_number,
            r.zero == zero,
    {
        Sheet { columns: Vec::new(), grid: Vec::new(), not_a_number, zero }
    }

    fn blank_cell(&self) -> (r: Cell<N>)
        ensures
            self.is_blank(r),
    {
        Cell {
            raw_value: String::new(),
            raw_uncertainty: String::new(),
            value: self.not_a_number,
            uncertainty: self.zero,
        }
    }

    /// Appends an input column named `name` and a blank cell to every row.
    pub fn add_column(&mut self, name: String)
        requires
            old(self).wf(),
        ensures
            final(self).wf(),
            final(self).not_a_number == old(self).not_a_number,
            final(self).zero == old(self).zero,
            final(self).columns@.len() == old(self).columns@.len() + 1,
            final(self).columns@.drop_last() == old(self).columns@,
            final(self).columns@.last().name == name,
            final(self).columns@.last().expression@.len() == 0,
            final(self).columns@.last().precision == DEFAULT_PRECISION,
            final(self).grid@.len() == old(self).grid@.len(),
            forall|i: int|
                0 <= i < old(self).grid@.len() ==> (#[trigger] final(self).grid@[i])@.drop_last()
                    == old(self).grid@[i]@ && final(self).is_blank(final(self).grid@[i]@.last()),
    {
        self.columns.push(ColumnSettings::new(name));
        assert(self.columns@.drop_last() =~= old(self).columns@);
        let ghost columns = self.columns;
        let mut i: usize = 0;
        while i < self.grid.len()
            invariant
                i <= self.grid@.len(),
                self.grid@.len() == old(self).grid@.len(),
                self.columns == columns,
                columns@.len() == old(self).columns@.len() + 1,
                self.not_a_number == old(self).not_a_number,
                self.zero == old(self).zero,
                old(self).wf(),
                forall|k: int|
                    0 <= k < i ==> (#[trigger] self.grid@[k])@.drop_last() == old(self).grid@[k]@
                        && self.grid@[k]@.len() == columns@.len()
                        && self.is_blank(self.grid@[k]@.last()),
                forall|k: int| i <= k < self.grid@.len() ==> #[trigger] self.grid@[k] == old(self).grid@[k],
            decreases self.grid@.len() - i,
        {
            let cell = self.blank_cell();
            self.grid[i].push(cell);
            assert(self.grid@[i as int]@.drop_last() =~= old(self).grid@[i as int]@);
            i = i + 1;
        }
    }

    /// Removes column `index` and its cell from every row. The first two
    /// columns (the plotted pair) are kept: for them nothing changes.
    pub fn remove_column(&mut self, index: usize)
        requires
            old(self).wf(),
            index < old(self).columns@.len(),
        ensures
            final(self).wf(),
            final(self).not_a_number == old(self).not_a_number,
            final(self).zero == old(self).zero,
            index < 2 ==> *final(self) == *old(self),
            index >= 2 ==> final(self).columns@ == old(self).columns@.remove(index as int),
            final(self).grid@.len() == old(self).grid@.len(),
            index >= 2 ==> forall|i: int|
                0 <= i < old(self).grid@.len() ==> (#[trigger] final(self).grid@[i])@
                    == old(self).grid@[i]@.remove(index as int),
    {
        if index < 2 {
            return;
        }
        self.columns.remove(index);
        let mut i: usize = 0;
        while i < self.grid.len()
            invariant
                2 <= index < old(self).columns@.len(),
                i <= self.grid@.len(),
                self.grid@.len() == old(self).grid@.len(),
                self.columns@ == old(self).columns@.remove(index as int),
                self.not_a_number == old(self).not_a_number,
                self.zero == old(self).zero,
                old(self).wf(),
                forall|k: int|
                    0 <= k < i ==> (#[trigger] self.grid@[k])@ == old(self).grid@[k]@.remove(
                        index as int,
                    ),
                forall|k: int| i <= k < self.grid@.len() ==> #[trigger] self.grid@[k] == old(self).grid@[k],
            decreases self.grid@.len() - i,
        {
            self.grid[i].remove(index);
            i = i + 1;
        }
    }

    fn blank_line(&self) -> (r: Vec<Cell<N>>)
        ensures
            r@.len() == self.columns@.len(),
            forall|x: int| 0 <= x < r@.len() ==> self.is_blank(#[trigger] r@[x]),
    {
        let mut line: Vec<Cell<N>> = Vec::new();
        let mut x: usize = 0;
        while x < self.columns.len()
            invariant
                x <= self.columns@.len(),
                line@.len() == x,
                forall|k: int| 0 <= k < x ==> self.is_blank(#[trigger] line@[k]),
            decreases self.columns@.len() - x,
        {
            line.push(self.blank_cell());
            x = x + 1;
        }
        line
    }

    /// Appends a row of blank cells, one per column.
    pub fn add_line(&mut self)
        requires
            old(self).wf(),
        ensures
            final(self).wf(),
            final(self).columns == old(self).columns,
            final(self).not_a_number == old(self).not_a_number,
            final(self).zero == old(self).zero,
            final(self).grid@.drop_last() == old(self).grid@,
            final(self).grid@.len() == old(self).grid@.len() + 1,
            forall|x: int|
                0 <= x < final(self).columns@.len() ==> final(self).is_blank(
                    #[trigger] final(self).grid@.last()@[x],
                ),
    {
        let line = self.blank_line();
        self.grid.push(line);
        assert(self.grid@.drop_last() =~= old(self).grid@);
    }

    /// Whether some input column of row `line` holds text.
    pub fn line_has_input(&self, line: usize) -> (r: bool)
        requires
            self.wf(),
            line < self.grid@.len(),
        ensures
            r == row_has_input(self.columns@, self.grid@[line as int]@),
    {
        let mut x: usize = 0;
        while x < self.columns.len()
            invariant
                self.wf(),
                line < self.grid@.len(),
                x <= self.columns@.len(),
                forall|k: int|
                    0 <= k < x ==> !(is_input_column(self.columns@[k]) && (
                    #[trigger] self.grid@[line as int]@[k].raw_value@.len() > 0
                        || self.grid@[line as int]@[k].raw_uncertainty@.len() > 0)),
            decreases self.columns@.len() - x,
        {
            if self.columns[x].is_input() && (!self.grid[line][x].raw_value.as_str().is_empty()
                || !self.grid[line][x].raw_uncertainty.as_str().is_empty()) {
                return true;
            }
            x = x + 1;
        }
        false
    }

    /// `after` is `self` cut back to one row past its last row with input text,
    /// or, where that last row is the final row, `self` with one blank row added.
    pub open spec fn trailing_line_ensured(&self, after: Self) -> bool {
        let f = filled_len(self.columns@, self.grid@);
        &&& after.wf()
        &&& after.columns == self.columns
        &&& after.not_a_number == self.not_a_number
        &&& after.zero == self.zero
        &&& f == self.grid@.len() ==> {
            &&& after.grid@.len() == self.grid@.len() + 1
            &&& after.grid@.drop_last() == self.grid@
            &&& forall|x: int|
                0 <= x < after.columns@.len() ==> after.is_blank(#[trigger] after.grid@.last()@[x])
        }
        &&& f < self.grid@.len() ==> after.grid@ == self.grid@.subrange(0, f as int + 1)
    }

    /// Keeps exactly one row after the last row that holds input text: drops
    /// the extra blank rows at the end, or appends one where there is none.
    pub fn ensure_empty_line(&mut self)
        requires
            old(self).wf(),
        ensures
            old(self).trailing_line_ensured(*final(self)),
    {
        let ghost cols = self.columns@;
        let ghost g = self.grid@;
        let mut filled: usize = 0;
        let mut i: usize = self.grid.len();
        assert(g.subrange(0, i as int) =~= g);
        if i == 0 {
            assert(g.subrange(0, 0) =~= Seq::<Vec<Cell<N>>>::empty());
        }
        while i > 0
            invariant_except_break
                self.wf(),
                *self == *old(self),
                cols == self.columns@,
                g == self.grid@,
                i <= g.len(),
                filled == 0,
                filled_len(cols, g) == filled_len(cols, g.subrange(0, i as int)),
            ensures
                *self == *old(self),
                filled as int == filled_len(cols, g),
                filled <= g.len(),
            decreases i,
        {
            assert(g.subrange(0, i as int).drop_last() =~= g.subrange(0, i - 1));
            assert(g.subrange(0, i as int).last() == g[i - 1]);
            if self.line_has_input(i - 1) {
                filled = i;
                break;
            }
            i = i - 1;
            if i == 0 {
                assert(g.subrange(0, 0) =~= Seq::<Vec<Cell<N>>>::empty());
            }
        }
        if filled >= self.grid.len() {
            self.add_line();
        } else {
            self.grid.truncate(filled + 1);
        }
    }
}

proof fn lemma_filled_len<N>(columns: Seq<ColumnSettings>, grid: Seq<Vec<Cell<N>>>)
    ensures
        filled_len(columns, grid) <= grid.len(),
        filled_len(columns, grid) > 0 ==> row_has_input(
            columns,
            grid[filled_len(columns, grid) - 1]@,
        ),
        forall|k: int|
            filled_len(columns, grid) <= k < grid.len() ==> !row_has_input(
                columns,
                #[trigger] grid[k]@,
            ),
    decreases grid.len(),
{
    if grid.len() > 0 && !row_has_input(columns, grid.last()@) {
        let p = grid.drop_last();
        lemma_filled_len(columns, p);
        assert forall|k: int| filled_len(columns, grid) <= k < grid.len() implies !row_has_input(
            columns,
            #[trigger] grid[k]@,
        ) by {
            if k < grid.len() - 1 {
                assert(grid[k] == p[k]);
            }
        }
        if filled_len(columns, p) > 0 {
            assert(grid[filled_len(columns, p) - 1] == p[filled_len(columns, p) - 1]);
        }
    }
}

/// Once the trailing row is ensured on a grid whose rows without input text
/// all come after its rows with input text, the last row holds no input text
/// and every other row holds some.
pub proof fn lemma_trailing_blank_line<N: Copy>(before: Sheet<N>, after: Sheet<N>)
    requires
        before.wf(),
        before.trailing_line_ensured(after),
        forall|i: int, j: int|
            0 <= i < j < before.grid@.len() && !row_has_input(
                before.columns@,
                #[trigger] before.grid@[i]@,
            ) ==> !row_has_input(before.columns@, #[trigger] before.grid@[j]@),
    ensures
        after.grid@.len() >= 1,
        !row_has_input(after.columns@, after.grid@.last()@),
        forall|k: int|
            0 <= k < after.grid@.len() - 1 ==> row_has_input(
                after.columns@,
                #[trigger] after.grid@[k]@,
            ),
{
    let cols = before.columns@;
    let g = before.grid@;
    let f = filled_len(cols, g);
    lemma_filled_len(cols, g);
    if f == g.len() {
        let last = after.grid@.last()@;
        assert forall|x: int| 0 <= x < cols.len() && is_input_column(cols[x]) implies !(
        #[trigger] last[x].raw_value@.len() > 0 || last[x].raw_uncertainty@.len() > 0) by {
            assert(after.is_blank(after.grid@.last()@[x]));
        }
    } else {
        assert(after.grid@.last() == g[f as int]);
    }
    assert forall|k: int| 0 <= k < after.grid@.len() - 1 implies row_has_input(
        after.columns@,
        #[trigger] after.grid@[k]@,
    ) by {
        assert(after.grid@[k] == g[k]);
        if k < f - 1 && !row_has_input(cols, g[k]@) {
            assert(!row_has_input(cols, g[f - 1]@));
        }
    }
}

} // verus!
