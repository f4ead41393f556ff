use vstd::prelude::*;

use crate::column::{is_input_column, ColumnSettings};
use crate::sheet::{Cell, Sheet};

verus! {

/// The names and current values of the columns right of column `i`: what the
/// formula of column `i` may refer to.
pub open spec fn context_of<N>(columns: Seq<ColumnSettings>, row: Seq<Cell<N>>, i: int) -> Seq<
    (String, N),
> {
    Seq::new((columns.len() - i - 1) as nat, |k: int| (columns[i + 1 + k].name, row[i + 1 + k].value))
}

/// Column `i` of `row` holds a value that `eval` returns for the column's
/// formula on the context of the column.
pub open spec fn column_evaluated<N, E: Fn(&String, &Vec<(String, N)>) -> N>(
    eval: &E,
    columns: Seq<ColumnSettings>,
    row: Seq<Cell<N>>,
    i: int,
) -> bool {
    exists|context: Vec<(String, N)>|
        context@ == context_of(columns, row, i) && #[trigger] eval.ensures(
            (&columns[i].expression, &context),
            row[i].value,
        )
}

/// Every derived column of `row` is evaluated.
pub open spec fn row_evaluated<N, E: Fn(&String, &Vec<(String, N)>) -> N>(
    eval: &E,
    columns: Seq<ColumnSettings>,
    row: Seq<Cell<N>>,
) -> bool {
    forall|i: int|
        0 <= i < columns.len() && !is_input_column(columns[i]) ==> #[trigger] column_evaluated(
            eval,
            columns,
            row,
            i,
        )
}

/// `after` is `before` with only the values of derived cells changed.
pub open spec fn only_derived_values_changed<N>(
    columns: Seq<ColumnSettings>,
    before: Seq<Cell<N>>,
    after: Seq<Cell<N>>,
) -> bool {
    &&& after.len() == before.len()
    &&& forall|x: int|
        0 <= x < before.len() ==> {
            &&& (#[trigger] after[x]).raw_value == before[x].raw_value
            &&& after[x].raw_uncertainty == before[x].raw_uncertainty
            &&& after[x].uncertainty == before[x].uncertainty
            &&& is_input_column(columns[x]) ==> after[x].value == before[x].value
        }
}

/// A formula sees only the columns to its right.
pub proof fn lemma_context_of_right<N>(
    columns: Seq<ColumnSettings>,
    r1: Seq<Cell<N>>,
    r2: Seq<Cell<N>>,
    i: int,
)
    requires
        0 <= i < columns.len(),
        r1.len() == columns.len(),
        r2.len() == columns.len(),
        forall|j: int| i < j < columns.len() ==> #[trigger] r1[j].value == r2[j].value,
    ensures
        context_of(columns, r1, i) == context_of(columns, r2, i),
{
    assert(context_of(columns, r1, i) =~= context_of(columns, r2, i));
}

impl<N: Copy> Sheet<N> {
    /// Builds the context of column `column` in row `line`.
    fn context(&self, line: usize, column: usize) -> (r: Vec<(String, N)>)
        requires
            self.wf(),
            line < self.grid@.len(),
            column < self.columns@.len(),
        ensures
            r@ == context_of(self.columns@, self.grid@[line as int]@, column as int),
    {
        let n = self.columns.len();
        let mut context: Vec<(String, N)> = Vec::new();
        let mut j: usize = column + 1;
        while j < n
            invariant
                n == self.columns@.len(),
                self.wf(),
                line < self.grid@.len(),
                column < j <= self.columns@.len(),
                context@ == context_of(self.columns@, self.grid@[line as int]@, column as int).take(
                    (j - column - 1) as int,
                ),
            decreases self.columns@.len() - j,
        {
            context.push((self.columns[j].name.clone(), self.grid[line][j].value));
            j = j + 1;
            assert(context@ =~= context_of(self.columns@, self.grid@[line as int]@, column as int).take(
                (j - column - 1) as int,
            ));
        }
        assert(context@ =~= context_of(self.columns@, self.grid@[line as int]@, column as int));
        context
    }

    /// Evaluates the derived columns of row `line`, from the last column to the
    /// first, so that every formula sees the values of the columns to its right
    /// as they end up. Input cells and all texts and uncertainties stay as they are.
    pub fn compute_line_value<E: Fn(&String, &Vec<(String, N)>) -> N>(
        &mut self,
        line: usize,
        eval: &E,
    )
        requires
            old(self).wf(),
            line < old(self).grid@.len(),
            forall|f: &String, c: &Vec<(String, N)>| #[trigger] eval.requires((f, c)),
        ensures
            final(self).wf(),
            final(self).columns == old(self).columns,
            final(self).not_a_number == old(self).not_a_number,
            final(self).zero == old(self).zero,
            final(self).grid@.len() == old(self).grid@.len(),
            forall|i: int|
                0 <= i < old(self).grid@.len() && i != line ==> #[trigger] final(self).grid@[i]
                    == old(self).grid@[i],
            only_derived_values_changed(
                old(self).columns@,
                old(self).grid@[line as int]@,
                final(self).grid@[line as int]@,
            ),
            row_evaluated(eval, final(self).columns@, final(self).grid@[line as int]@),
    {
        let ghost cols = self.columns@;
        let n = self.columns.len();
        let mut c: usize = n;
        while c > 0
            invariant
                c <= n,
                n == cols.len(),
                self.wf(),
                line < self.grid@.len(),
                self.columns == old(self).columns,
                cols == self.columns@,
                self.not_a_number == old(self).not_a_number,
                self.zero == old(self).zero,
                self.grid@.len() == old(self).grid@.len(),
                forall|f: &String, x: &Vec<(String, N)>| #[trigger] eval.requires((f, x)),
                forall|i: int|
                    0 <= i < old(self).grid@.len() && i != line ==> #[trigger] self.grid@[i]
                        == old(self).grid@[i],
                only_derived_values_changed(
                    cols,
                    old(self).grid@[line as int]@,
                    self.grid@[line as int]@,
                ),
                forall|x: int|
                    c <= x < n && !is_input_column(cols[x]) ==> #[trigger] column_evaluated(
                        eval,
                        cols,
                        self.grid@[line as int]@,
                        x,
                    ),
            decreases c,
        {
            c = c - 1;
            if !self.columns[c].is_input() {
                let context = self.context(line, c);
                let v = eval(&self.columns[c].expression, &context);
                assert(eval.ensures((&cols[c as int].expression, &context), v));
                let ghost before = self.grid@[line as int]@;
                self.grid[line][c].value = v;
                proof {
                    let after = self.grid@[line as int]@;
                    assert(after =~= before.update(c as int, Cell { value: v, ..before[c as int] }));
                    assert(column_evaluated(eval, cols, after, c as int)) by {
                        lemma_context_of_right(cols, before, after, c as int);
                        assert(after[c as int].value == v);
                        assert(context@ == context_of(cols, after, c as int));
                    }
                    assert forall|x: int|
                        c < x < n && !is_input_column(cols[x]) implies #[trigger] column_evaluated(
                        eval,
                        cols,
                        after,
                        x,
                    ) by {
                        lemma_context_of_right(cols, before, after, x);
                        assert(column_evaluated(eval, cols, before, x));
                        assert(after[x] == before[x]);
                        let w = choose|w: Vec<(String, N)>|
                            w@ == context_of(cols, before, x) && #[trigger] eval.ensures(
                                (&cols[x].expression, &w),
                                before[x].value,
                            );
                        assert(eval.ensures((&cols[x].expression, &w), after[x].value));
                    }
                }
            }
        }
    }
}

} // verus!
