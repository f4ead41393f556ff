use vstd::prelude::*;

use crate::column::{is_input_column, ColumnSettings};
use crate::sheet::{Cell, Sheet};

verus! {

/// A parse result, with a failure read as `not_a_number`.
pub open spec fn or_not_a_number<N>(r: Option<N>, not_a_number: N) -> N {
    match r {
        Some(v) => v,
        None => not_a_number,
    }
}

/// `v` is what `parse` makes of `text`, a failure read as `not_a_number`.
pub open spec fn parsed_from<N, F: Fn(&String) -> Option<N>>(
    parse: &F,
    text: String,
    not_a_number: N,
    v: N,
) -> bool {
    exists|r: Option<N>| #[trigger] parse.ensures((&text,), r) && v == or_not_a_number(r, not_a_number)
}

/// Cell `after` is cell `before` of `column` with its numbers parsed from its
/// texts where `column` is an input column: the value from the value text, the
/// uncertainty from the uncertainty text, an empty uncertainty text giving
/// `zero`. The texts, and the cells of a derived column, stay as they are.
pub open spec fn cell_parsed<N, F: Fn(&String) -> Option<N>>(
    parse: &F,
    not_a_number: N,
    zero: N,
    column: ColumnSettings,
    before: Cell<N>,
    after: Cell<N>,
) -> bool {
    &&& after.raw_value == before.raw_value
    &&& after.raw_uncertainty == before.raw_uncertainty
    &&& !is_input_column(column) ==> after.value == before.value && after.uncertainty
        == before.uncertainty
    &&& is_input_column(column) ==> parsed_from(parse, before.raw_value, not_a_number, after.value)
    &&& is_input_column(column) && before.raw_uncertainty@.len() == 0 ==> after.uncertainty == zero
    &&& is_input_column(column) && before.raw_uncertainty@.len() > 0 ==> parsed_from(
        parse,
        before.raw_uncertainty,
        not_a_number,
        after.uncertainty,
    )
}

/// Every cell of row `after` is the cell of row `before` parsed.
pub open spec fn row_parsed<N, F: Fn(&String) -> Option<N>>(
    parse: &F,
    not_a_number: N,
    zero: N,
    columns: Seq<ColumnSettings>,
    before: Seq<Cell<N>>,
    after: Seq<Cell<N>>,
) -> bool {
    &&& after.len() == before.len()
    &&& forall|x: int|
        0 <= x < before.len() ==> cell_parsed(
            parse,
            not_a_number,
            zero,
            columns[x],
            before[x],
            #[trigger] after[x],
        )
}

impl<N: Copy> Sheet<N> {
    /// Parses the texts of the input cells of row `line` into their numbers.
    pub fn parse_line<F: Fn(&String) -> Option<N>>(&mut self, line: usize, parse: &F)
        requires
            old(self).wf(),
            line < old(self).grid@.len(),
            forall|s: &String| #[trigger] parse.requires((s,)),
        ensures
            final(self).wf(),
            final(self).columns == old(self).columns,
            final(self).not_a_number == old(self).not_a_number,
            final(self).zero == old(self).zero,
            final(self).grid@.len() == old(self).grid@.len(),
            forall|i: int|
                0 <= i < old(self).grid@.len() && i != line ==> #[trigger] final(self).grid@[i]
                    == old(self).grid@[i],
            row_parsed(
                parse,
                old(self).not_a_number,
                old(self).zero,
                old(self).columns@,
                old(self).grid@[line as int]@,
                final(self).grid@[line as int]@,
            ),
    {
        let ghost cols = self.columns@;
        let ghost initial = self.grid@[line as int]@;
        let n = self.columns.len();
        let mut c: usize = 0;
        while c < n
            invariant
                c <= n,
                n == cols.len(),
                self.wf(),
                line < self.grid@.len(),
                cols == self.columns@,
                self.columns == old(self).columns,
                self.not_a_number == old(self).not_a_number,
                self.zero == old(self).zero,
                self.grid@.len() == old(self).grid@.len(),
                initial == old(self).grid@[line as int]@,
                forall|s: &String| #[trigger] parse.requires((s,)),
                forall|i: int|
                    0 <= i < old(self).grid@.len() && i != line ==> #[trigger] self.grid@[i]
                        == old(self).grid@[i],
                self.grid@[line as int]@.len() == n,
                forall|x: int|
                    0 <= x < c ==> cell_parsed(
                        parse,
                        self.not_a_number,
                        self.zero,
                        cols[x],
                        initial[x],
                        #[trigger] self.grid@[line as int]@[x],
                    ),
                forall|x: int| c <= x < n ==> #[trigger] self.grid@[line as int]@[x] == initial[x],
            decreases n - c,
        {
            let ghost before = self.grid@[line as int]@;
            if self.columns[c].is_input() {
                let r = parse(&self.grid[line][c].raw_value);
                let v = match r {
                    Some(v) => v,
                    None => self.not_a_number,
                };
                let u = if self.grid[line][c].raw_uncertainty.as_str().is_empty() {
                    self.zero
                } else {
                    let r2 = parse(&self.grid[line][c].raw_uncertainty);
                    match r2 {
                        Some(u) => u,
                        None => self.not_a_number,
                    }
                };
                self.grid[line][c].value = v;
                self.grid[line][c].uncertainty = u;
                assert(self.grid@[line as int]@ =~= before.update(
                    c as int,
                    Cell { value: v, uncertainty: u, ..before[c as int] },
                ));
                assert(parse.ensures((&initial[c as int].raw_value,), r));
            }
            proof {
                let after = self.grid@[line as int]@;
                let c1 = c + 1;
                assert forall|x: int| c1 <= x < n implies #[trigger] after[x] == initial[x] by {
                    assert(after[x] == before[x]);
                }
                assert forall|x: int| 0 <= x < c implies #[trigger] after[x] == before[x] by {}
            }
            c = c + 1;
        }
    }
}

} // verus!
