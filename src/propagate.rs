use vstd::prelude::*;

use crate::column::{is_input_column, ColumnSettings};
use crate::evaluate::{
    column_evaluated, context_of, lemma_context_of_right, only_derived_values_changed,
    row_evaluated,
};
use crate::odometer::{combinations, lemma_enumeration_is_exhaustive, unrank, Odometer};
use crate::parse::row_parsed;
use crate::sheet::{Cell, Sheet};

verus! {

/// Sample points on each side of an input's value in the uncertainty search:
/// each input is sampled at `2 * SAMPLE_HALF_WIDTH + 1` points.
pub const SAMPLE_HALF_WIDTH: i64 = 1;

/// Indices of the input columns among the first `n` columns, in order.
pub open spec fn input_indices_upto(columns: Seq<ColumnSettings>, n: nat) -> Seq<int>
    decreases n,
{
    if n == 0 {
        Seq::empty()
    } else {
        let p = input_indices_upto(columns, (n - 1) as nat);
        if is_input_column(columns[n - 1]) {
            p.push(n - 1)
        } else {
            p
        }
    }
}

/// Indices of the input columns, in order: the dimensions of the search.
pub open spec fn input_indices(columns: Seq<ColumnSettings>) -> Seq<int> {
    input_indices_upto(columns, columns.len())
}

/// `row` is the sample of the search around the inputs of `base` at
/// `offsets`: input `k` of the search (the `k`-th input column) holds what
/// `perturb` returns for its value and uncertainty in `base` and offset `k`,
/// and every derived column is evaluated on those inputs.
pub open spec fn is_sample_row<
    N,
    E: Fn(&String, &Vec<(String, N)>) -> N,
    P: Fn(N, N, i64, i64) -> N,
>(
    eval: &E,
    perturb: &P,
    columns: Seq<ColumnSettings>,
    base: Seq<Cell<N>>,
    offsets: Seq<i64>,
    half_width: i64,
    row: Seq<Cell<N>>,
) -> bool {
    let inputs = input_indices(columns);
    &&& row.len() == base.len()
    &&& row_evaluated(eval, columns, row)
    &&& forall|k: int|
        0 <= k < inputs.len() ==> #[trigger] perturb.ensures(
            (base[inputs[k]].value, base[inputs[k]].uncertainty, offsets[k], half_width),
            row[inputs[k]].value,
        )
}

/// The values that column `x` takes over the rows of `samples`.
pub open spec fn column_values<N>(samples: Seq<Seq<Cell<N>>>, x: int) -> Seq<N> {
    Seq::new(samples.len(), |t: int| samples[t][x].value)
}

/// `result` is `f` folded over `values` from `init`, from left to right.
pub open spec fn folded<N, F: Fn(N, N) -> N>(f: &F, init: N, values: Seq<N>, result: N) -> bool {
    exists|acc: Seq<N>|
        {
            &&& acc.len() == values.len() + 1
            &&& acc[0] == init
            &&& acc.last() == result
            &&& forall|t: int|
                0 <= t < values.len() ==> #[trigger] f.ensures((acc[t], values[t]), acc[t + 1])
        }
}

/// `u` is `half_range` of the `lower` fold and the `upper` fold of `values`,
/// both started from `not_a_number`.
pub open spec fn spread_of<N, L: Fn(N, N) -> N, U: Fn(N, N) -> N, H: Fn(N, N) -> N>(
    lower: &L,
    upper: &U,
    half_range: &H,
    not_a_number: N,
    values: Seq<N>,
    u: N,
) -> bool {
    exists|lo: N, hi: N|
        #[trigger] folded(lower, not_a_number, values, lo) && #[trigger] folded(
            upper,
            not_a_number,
            values,
            hi,
        ) && half_range.ensures((lo, hi), u)
}

/// The exhaustive search around the inputs of `base` gave the uncertainties of
/// the derived columns of `after`: there is one sample for each offset
/// vector, in the order of the enumeration, and each derived column holds the
/// spread of the values it took over them.
pub open spec fn searched<
    N,
    E: Fn(&String, &Vec<(String, N)>) -> N,
    P: Fn(N, N, i64, i64) -> N,
    L: Fn(N, N) -> N,
    U: Fn(N, N) -> N,
    H: Fn(N, N) -> N,
>(
    eval: &E,
    perturb: &P,
    lower: &L,
    upper: &U,
    half_range: &H,
    not_a_number: N,
    half_width: i64,
    columns: Seq<ColumnSettings>,
    base: Seq<Cell<N>>,
    after: Seq<Cell<N>>,
) -> bool {
    let m = input_indices(columns).len();
    exists|samples: Seq<Seq<Cell<N>>>|
        {
            &&& samples.len() == combinations(m, half_width as int)
            &&& forall|t: int|
                0 <= t < samples.len() ==> is_sample_row(
                    eval,
                    perturb,
                    columns,
                    base,
                    unrank(t, m, half_width as int),
                    half_width,
                    #[trigger] samples[t],
                )
            &&& forall|x: int|
                0 <= x < columns.len() && !is_input_column(columns[x]) ==> spread_of(
                    lower,
                    upper,
                    half_range,
                    not_a_number,
                    column_values(samples, x),
                    #[trigger] after[x].uncertainty,
                )
        }
}

/// What the propagation of row `before` into row `after` keeps and computes:
/// texts, input values and input uncertainties are kept, every derived column
/// is evaluated on the kept inputs, and the derived uncertainties are the
/// result of the search, or, in a row without input columns, kept.
pub open spec fn row_propagated<
    N,
    E: Fn(&String, &Vec<(String, N)>) -> N,
    P: Fn(N, N, i64, i64) -> N,
    L: Fn(N, N) -> N,
    U: Fn(N, N) -> N,
    H: Fn(N, N) -> N,
>(
    eval: &E,
    perturb: &P,
    lower: &L,
    upper: &U,
    half_range: &H,
    not_a_number: N,
    half_width: i64,
    columns: Seq<ColumnSettings>,
    before: Seq<Cell<N>>,
    after: Seq<Cell<N>>,
) -> bool {
    &&& after.len() == before.len()
    &&& row_evaluated(eval, columns, after)
    &&& forall|x: int|
        0 <= x < before.len() ==> {
            &&& (#[trigger] after[x]).raw_value == before[x].raw_value
            &&& after[x].raw_uncertainty == before[x].raw_uncertainty
            &&& is_input_column(columns[x]) ==> after[x].value == before[x].value
                && after[x].uncertainty == before[x].uncertainty
            &&& input_indices(columns).len() == 0 ==> after[x].uncertainty
                == before[x].uncertainty
        }
    &&& input_indices(columns).len() > 0 ==> searched(
        eval,
        perturb,
        lower,
        upper,
        half_range,
        not_a_number,
        half_width,
        columns,
        before,
        after,
    )
}

proof fn lemma_input_indices(columns: Seq<ColumnSettings>, n: nat)
    requires
        n <= columns.len(),
    ensures
        forall|k: int|
            0 <= k < input_indices_upto(columns, n).len() ==> 0 <= #[trigger] input_indices_upto(
                columns,
                n,
            )[k] < n && is_input_column(columns[input_indices_upto(columns, n)[k]]),
        forall|k1: int, k2: int|
            0 <= k1 < k2 < input_indices_upto(columns, n).len() ==> #[trigger] input_indices_upto(
                columns,
                n,
            )[k1] < #[trigger] input_indices_upto(columns, n)[k2],
    decreases n,
{
    if n > 0 {
        lemma_input_indices(columns, (n - 1) as nat);
        let p = input_indices_upto(columns, (n - 1) as nat);
        let q = input_indices_upto(columns, n);
        assert forall|k: int| 0 <= k < q.len() implies 0 <= #[trigger] q[k] < n && is_input_column(
            columns[q[k]],
        ) by {
            if k < p.len() {
                assert(q[k] == p[k]);
            }
        }
        assert forall|k1: int, k2: int| 0 <= k1 < k2 < q.len() implies #[trigger] q[k1]
            < #[trigger] q[k2] by {
            assert(q[k1] == p[k1]);
            if k2 < p.len() {
                assert(q[k2] == p[k2]);
            }
        }
    }
}

proof fn lemma_folded_start<N, F: Fn(N, N) -> N>(f: &F, init: N)
    ensures
        folded(f, init, Seq::empty(), init),
{
    let acc = seq![init];
    assert(acc.last() == init);
}

proof fn lemma_folded_push<N, F: Fn(N, N) -> N>(
    f: &F,
    init: N,
    values: Seq<N>,
    prev: N,
    v: N,
    r: N,
)
    requires
        folded(f, init, values, prev),
        f.ensures((prev, v), r),
    ensures
        folded(f, init, values.push(v), r),
{
    let acc = choose|acc: Seq<N>|
        {
            &&& acc.len() == values.len() + 1
            &&& acc[0] == init
            &&& acc.last() == prev
            &&& forall|t: int|
                0 <= t < values.len() ==> #[trigger] f.ensures((acc[t], values[t]), acc[t + 1])
        };
    let acc2 = acc.push(r);
    let vs = values.push(v);
    assert forall|t: int| 0 <= t < vs.len() implies #[trigger] f.ensures((acc2[t], vs[t]), acc2[t + 1]) by {
        if t < values.len() {
            assert(acc2[t] == acc[t] && acc2[t + 1] == acc[t + 1] && vs[t] == values[t]);
            assert(f.ensures((acc[t], values[t]), acc[t + 1]));
        } else {
            assert(acc2[t] == acc.last());
        }
    }
    assert(acc2.last() == r);
}

/// Row `after` is row `before` parsed and then, unless it is the last row,
/// propagated.
pub open spec fn row_reparsed<
    N,
    F: Fn(&String) -> Option<N>,
    E: Fn(&String, &Vec<(String, N)>) -> N,
    P: Fn(N, N, i64, i64) -> N,
    L: Fn(N, N) -> N,
    U: Fn(N, N) -> N,
    H: Fn(N, N) -> N,
>(
    parse: &F,
    eval: &E,
    perturb: &P,
    lower: &L,
    upper: &U,
    half_range: &H,
    not_a_number: N,
    zero: N,
    half_width: i64,
    columns: Seq<ColumnSettings>,
    before: Seq<Cell<N>>,
    after: Seq<Cell<N>>,
    last: bool,
) -> bool {
    exists|parsed: Seq<Cell<N>>|
        {
            &&& #[trigger] row_parsed(parse, not_a_number, zero, columns, before, parsed)
            &&& !last ==> row_propagated(
                eval,
                perturb,
                lower,
                upper,
                half_range,
                not_a_number,
                half_width,
                columns,
                parsed,
                after,
            )
            &&& last ==> after == parsed
        }
}

impl<N: Copy> Sheet<N> {
    /// Bounds the uncertainty of every derived column of row `line` by an
    /// exhaustive search. Each input column is moved over `2 * half_width + 1`
    /// evenly spaced points of its interval: `perturb(value, uncertainty,
    /// offset, half_width)` for each offset in `-half_width ..= half_width`.
    /// Every combination of those points is evaluated, in the order of the
    /// odometer, and each derived column gets `half_range` of the `lower` and
    /// `upper` folds of the values it took, both started from `not_a_number`.
    /// The inputs then get their values back and the row is evaluated once
    /// more. A row without input columns keeps its uncertainties.
    pub fn compute_line_with_uncertainty<
        E: Fn(&String, &Vec<(String, N)>) -> N,
        P: Fn(N, N, i64, i64) -> N,
        L: Fn(N, N) -> N,
        U: Fn(N, N) -> N,
        H: Fn(N, N) -> N,
    >(
        &mut self,
        line: usize,
        half_width: i64,
        eval: &E,
        perturb: &P,
        lower: &L,
        upper: &U,
        half_range: &H,
    )
        requires
            old(self).wf(),
            line < old(self).grid@.len(),
            1 <= half_width <= i64::MAX / 2,
            forall|f: &String, c: &Vec<(String, N)>| #[trigger] eval.requires((f, c)),
            forall|a: N, b: N, k: i64, s: i64| #[trigger] perturb.requires((a, b, k, s)),
            forall|a: N, b: N| #[trigger] lower.requires((a, b)),
            forall|a: N, b: N| #[trigger] upper.requires((a, b)),
            forall|a: N, b: N| #[trigger] half_range.requires((a, b)),
        ensures
            final(self).wf(),
            final(self).columns == old(self).columns,
            final(self).not_a_number == old(self).not_a_number,
            final(self).zero == old(self).zero,
            final(self).grid@.len() == old(self).grid@.len(),
            forall|i: int|
                0 <= i < old(self).grid@.len() && i != line ==> #[trigger] final(self).grid@[i]
                    == old(self).grid@[i],
            row_propagated(
                eval,
                perturb,
                lower,
                upper,
                half_range,
                old(self).not_a_number,
                half_width,
                old(self).columns@,
                old(self).grid@[line as int]@,
                final(self).grid@[line as int]@,
            ),
    {
        let ghost cols = self.columns@;
        let ghost initial = self.grid@[line as int]@;
        let ghost idx = input_indices(cols);
        let ghost nan = self.not_a_number;
        let ghost s = half_width as int;
        proof {
            lemma_input_indices(cols, cols.len());
        }
        self.compute_line_value(line, eval);
        let n = self.columns.len();
        let mut saved: Vec<N> = Vec::new();
        let mut inputs: Vec<usize> = Vec::new();
        let mut c: usize = 0;
        while c < n
            invariant
                c <= n,
                n == cols.len(),
                self.wf(),
                line < self.grid@.len(),
                cols == self.columns@,
                saved@.len() == c,
                forall|x: int| 0 <= x < c ==> #[trigger] saved@[x] == self.grid@[line as int]@[x].value,
                inputs@.len() == input_indices_upto(cols, c as nat).len(),
                forall|k: int|
                    0 <= k < inputs@.len() ==> #[trigger] inputs@[k] as int == input_indices_upto(
                        cols,
                        c as nat,
                    )[k],
            decreases n - c,
        {
            saved.push(self.grid[line][c].value);
            if self.columns[c].is_input() {
                inputs.push(c);
            }
            c = c + 1;
        }
        let ghost nominal = self.grid@[line as int]@;
        assert(only_derived_values_changed(cols, initial, nominal));
        if inputs.len() == 0 {
            return;
        }
        let mut lows: Vec<N> = Vec::new();
        let mut highs: Vec<N> = Vec::new();
        let mut c: usize = 0;
        while c < n
            invariant
                c <= n,
                lows@.len() == c,
                highs@.len() == c,
                forall|x: int| 0 <= x < c ==> #[trigger] lows@[x] == nan && highs@[x] == nan,
                nan == self.not_a_number,
            decreases n - c,
        {
            lows.push(self.not_a_number);
            highs.push(self.not_a_number);
            c = c + 1;
        }
        let mut odometer = Odometer::new(inputs.len(), half_width);
        let ghost mut samples: Seq<Seq<Cell<N>>> = Seq::empty();
        proof {
            lemma_folded_start(lower, nan);
            lemma_folded_start(upper, nan);
            assert forall|x: int| 0 <= x < n && !is_input_column(cols[x]) implies #[trigger] folded(
                lower,
                nan,
                column_values(samples, x),
                lows@[x],
            ) by {
                assert(column_values(samples, x) =~= Seq::<N>::empty());
            }
            assert forall|x: int| 0 <= x < n && !is_input_column(cols[x]) implies #[trigger] folded(
                upper,
                nan,
                column_values(samples, x),
                highs@[x],
            ) by {
                assert(lows@[x] == nan);
                assert(column_values(samples, x) =~= Seq::<N>::empty());
            }
        }
        loop
            invariant_except_break
                samples.len() == odometer.position(),
            invariant
                n == cols.len(),
                self.wf(),
                line < self.grid@.len(),
                cols == self.columns@,
                self.columns == old(self).columns,
                self.not_a_number == old(self).not_a_number,
                nan == old(self).not_a_number,
                s == half_width,
                self.zero == old(self).zero,
                self.grid@.len() == old(self).grid@.len(),
                forall|i: int|
                    0 <= i < old(self).grid@.len() && i != line ==> #[trigger] self.grid@[i]
                        == old(self).grid@[i],
                self.grid@[line as int]@.len() == n,
                initial.len() == n,
                forall|x: int|
                    0 <= x < n ==> {
                        &&& (#[trigger] self.grid@[line as int]@[x]).raw_value
                            == initial[x].raw_value
                        &&& self.grid@[line as int]@[x].raw_uncertainty
                            == initial[x].raw_uncertainty
                        &&& self.grid@[line as int]@[x].uncertainty == initial[x].uncertainty
                    },
                saved@.len() == n,
                forall|x: int|
                    0 <= x < n && is_input_column(cols[x]) ==> #[trigger] saved@[x]
                        == initial[x].value,
                idx == input_indices(cols),
                inputs@.len() == idx.len(),
                forall|k: int| 0 <= k < inputs@.len() ==> #[trigger] inputs@[k] as int == idx[k],
                forall|k: int|
                    0 <= k < idx.len() ==> 0 <= #[trigger] idx[k] < n && is_input_column(
                        cols[idx[k]],
                    ),
                forall|k1: int, k2: int|
                    0 <= k1 < k2 < idx.len() ==> #[trigger] idx[k1] < #[trigger] idx[k2],
                idx.len() > 0,
                odometer.wf(),
                odometer.offsets@.len() == inputs@.len(),
                odometer.half_width == half_width,
                odometer.position() < odometer.total(),
                forall|t: int|
                    0 <= t < samples.len() ==> is_sample_row(
                        eval,
                        perturb,
                        cols,
                        initial,
                        unrank(t, idx.len(), s),
                        half_width,
                        #[trigger] samples[t],
                    ),
                lows@.len() == n,
                highs@.len() == n,
                forall|x: int|
                    0 <= x < n && !is_input_column(cols[x]) ==> #[trigger] folded(
                        lower,
                        nan,
                        column_values(samples, x),
                        lows@[x],
                    ),
                forall|x: int|
                    0 <= x < n && !is_input_column(cols[x]) ==> #[trigger] folded(
                        upper,
                        nan,
                        column_values(samples, x),
                        highs@[x],
                    ),
                forall|f: &String, x: &Vec<(String, N)>| #[trigger] eval.requires((f, x)),
                forall|a: N, b: N, k: i64, s: i64| #[trigger] perturb.requires((a, b, k, s)),
                forall|a: N, b: N| #[trigger] lower.requires((a, b)),
                forall|a: N, b: N| #[trigger] upper.requires((a, b)),
            ensures
                samples.len() == combinations(idx.len(), s),
            decreases odometer.total() - odometer.position(),
        {
            proof {
                lemma_enumeration_is_exhaustive(idx.len(), s);
                assert(odometer.offsets@ == unrank(odometer.position(), idx.len(), s));
            }
            let mut k: usize = 0;
            while k < inputs.len()
                invariant
                    k <= inputs@.len(),
                    n == cols.len(),
                    self.wf(),
                    line < self.grid@.len(),
                    cols == self.columns@,
                    self.columns == old(self).columns,
                    self.not_a_number == old(self).not_a_number,
                    self.zero == old(self).zero,
                    self.grid@.len() == old(self).grid@.len(),
                    forall|i: int|
                        0 <= i < old(self).grid@.len() && i != line ==> #[trigger] self.grid@[i]
                            == old(self).grid@[i],
                    self.grid@[line as int]@.len() == n,
                    forall|x: int|
                        0 <= x < n ==> {
                            &&& (#[trigger] self.grid@[line as int]@[x]).raw_value
                                == initial[x].raw_value
                            &&& self.grid@[line as int]@[x].raw_uncertainty
                                == initial[x].raw_uncertainty
                            &&& self.grid@[line as int]@[x].uncertainty == initial[x].uncertainty
                        },
                    saved@.len() == n,
                    forall|x: int|
                        0 <= x < n && is_input_column(cols[x]) ==> #[trigger] saved@[x]
                            == initial[x].value,
                    inputs@.len() == idx.len(),
                    forall|j: int| 0 <= j < inputs@.len() ==> #[trigger] inputs@[j] as int == idx[j],
                    forall|j: int|
                        0 <= j < idx.len() ==> 0 <= #[trigger] idx[j] < n && is_input_column(
                            cols[idx[j]],
                        ),
                    forall|k1: int, k2: int|
                        0 <= k1 < k2 < idx.len() ==> #[trigger] idx[k1] < #[trigger] idx[k2],
                    odometer.offsets@.len() == inputs@.len(),
                    odometer.half_width == half_width,
                    forall|j: int|
                        0 <= j < k ==> #[trigger] perturb.ensures(
                            (
                                initial[idx[j]].value,
                                initial[idx[j]].uncertainty,
                                odometer.offsets@[j],
                                half_width,
                            ),
                            self.grid@[line as int]@[idx[j]].value,
                        ),
                    forall|a: N, b: N, k: i64, s: i64| #[trigger] perturb.requires((a, b, k, s)),
                decreases inputs@.len() - k,
            {
                let c = inputs[k];
                let ghost before = self.grid@[line as int]@;
                let v = perturb(
                    saved[c],
                    self.grid[line][c].uncertainty,
                    odometer.offset(k),
                    half_width,
                );
                self.grid[line][c].value = v;
                proof {
                    let after = self.grid@[line as int]@;
                    assert(after =~= before.update(c as int, Cell { value: v, ..before[c as int] }));
                    assert forall|j: int| 0 <= j < k + 1 implies #[trigger] perturb.ensures(
                        (
                            initial[idx[j]].value,
                            initial[idx[j]].uncertainty,
                            odometer.offsets@[j],
                            half_width,
                        ),
                        after[idx[j]].value,
                    ) by {
                        if j < k {
                            assert(idx[j] < idx[k as int]);
                            assert(after[idx[j]] == before[idx[j]]);
                        }
                    }
                }
                k = k + 1;
            }
            let ghost perturbed = self.grid@[line as int]@;
            self.compute_line_value(line, eval);
            let ghost row = self.grid@[line as int]@;
            proof {
                assert(only_derived_values_changed(cols, perturbed, row));
                assert forall|j: int| 0 <= j < idx.len() implies #[trigger] perturb.ensures(
                    (
                        initial[idx[j]].value,
                        initial[idx[j]].uncertainty,
                        unrank(samples.len() as int, idx.len(), s)[j],
                        half_width,
                    ),
                    row[idx[j]].value,
                ) by {
                    assert(row[idx[j]].value == perturbed[idx[j]].value);
                    assert(perturb.ensures(
                        (
                            initial[idx[j]].value,
                            initial[idx[j]].uncertainty,
                            odometer.offsets@[j],
                            half_width,
                        ),
                        perturbed[idx[j]].value,
                    ));
                }
                assert(is_sample_row(
                    eval,
                    perturb,
                    cols,
                    initial,
                    unrank(samples.len() as int, idx.len(), s),
                    half_width,
                    row,
                ));
            }
            let ghost previous = samples;
            proof {
                samples = samples.push(row);
                assert forall|x: int| 0 <= x < n implies #[trigger] column_values(samples, x)
                    =~= column_values(previous, x).push(row[x].value) by {}
            }
            let ghost lows0 = lows@;
            let ghost highs0 = highs@;
            let mut c: usize = 0;
            while c < n
                invariant
                    c <= n,
                    n == cols.len(),
                    self.wf(),
                    line < self.grid@.len(),
                    cols == self.columns@,
                    row == self.grid@[line as int]@,
                    row.len() == n,
                    lows@.len() == n,
                    highs@.len() == n,
                    lows0.len() == n,
                    highs0.len() == n,
                    forall|x: int|
                        0 <= x < n ==> #[trigger] column_values(samples, x) == column_values(
                            previous,
                            x,
                        ).push(row[x].value),
                    forall|x: int|
                        0 <= x < n && !is_input_column(cols[x]) ==> #[trigger] folded(
                            lower,
                            nan,
                            column_values(previous, x),
                            lows0[x],
                        ),
                    forall|x: int|
                        0 <= x < n && !is_input_column(cols[x]) ==> #[trigger] folded(
                            upper,
                            nan,
                            column_values(previous, x),
                            highs0[x],
                        ),
                    forall|x: int| c <= x < n ==> #[trigger] lows@[x] == lows0[x],
                    forall|x: int| c <= x < n ==> #[trigger] highs@[x] == highs0[x],
                    forall|x: int|
                        0 <= x < c && !is_input_column(cols[x]) ==> #[trigger] folded(
                            lower,
                            nan,
                            column_values(samples, x),
                            lows@[x],
                        ),
                    forall|x: int|
                        0 <= x < c && !is_input_column(cols[x]) ==> #[trigger] folded(
                            upper,
                            nan,
                            column_values(samples, x),
                            highs@[x],
                        ),
                    forall|a: N, b: N| #[trigger] lower.requires((a, b)),
                    forall|a: N, b: N| #[trigger] upper.requires((a, b)),
                decreases n - c,
            {
                if !self.columns[c].is_input() {
                    let v = self.grid[line][c].value;
                    let lo = lower(lows[c], v);
                    let hi = upper(highs[c], v);
                    proof {
                        lemma_folded_push(
                            lower,
                            nan,
                            column_values(previous, c as int),
                            lows@[c as int],
                            v,
                            lo,
                        );
                        lemma_folded_push(
                            upper,
                            nan,
                            column_values(previous, c as int),
                            highs@[c as int],
                            v,
                            hi,
                        );
                    }
                    lows.set(c, lo);
                    highs.set(c, hi);
                }
                c = c + 1;
            }
            if !odometer.advance() {
                break;
            }
        }
        proof {
            assert(samples.len() == combinations(idx.len(), s));
        }
        let ghost searched_samples = samples;
        let mut c: usize = 0;
        while c < n
            invariant
                c <= n,
                n == cols.len(),
                self.wf(),
                line < self.grid@.len(),
                cols == self.columns@,
                self.columns == old(self).columns,
                self.not_a_number == old(self).not_a_number,
                self.zero == old(self).zero,
                self.grid@.len() == old(self).grid@.len(),
                forall|i: int|
                    0 <= i < old(self).grid@.len() && i != line ==> #[trigger] self.grid@[i]
                        == old(self).grid@[i],
                self.grid@[line as int]@.len() == n,
                initial.len() == n,
                forall|x: int|
                    0 <= x < n ==> {
                        &&& (#[trigger] self.grid@[line as int]@[x]).raw_value
                            == initial[x].raw_value
                        &&& self.grid@[line as int]@[x].raw_uncertainty
                            == initial[x].raw_uncertainty
                        &&& is_input_column(cols[x]) ==> self.grid@[line as int]@[x].uncertainty
                            == initial[x].uncertainty
                        &&& x < c && is_input_column(cols[x]) ==> self.grid@[line as int]@[x].value
                            == initial[x].value
                        &&& x < c && !is_input_column(cols[x]) ==> spread_of(
                            lower,
                            upper,
                            half_range,
                            nan,
                            column_values(searched_samples, x),
                            self.grid@[line as int]@[x].uncertainty,
                        )
                    },
                saved@.len() == n,
                forall|x: int|
                    0 <= x < n && is_input_column(cols[x]) ==> #[trigger] saved@[x]
                        == initial[x].value,
                lows@.len() == n,
                highs@.len() == n,
                forall|x: int|
                    0 <= x < n && !is_input_column(cols[x]) ==> #[trigger] folded(
                        lower,
                        nan,
                        column_values(searched_samples, x),
                        lows@[x],
                    ),
                forall|x: int|
                    0 <= x < n && !is_input_column(cols[x]) ==> #[trigger] folded(
                        upper,
                        nan,
                        column_values(searched_samples, x),
                        highs@[x],
                    ),
                forall|a: N, b: N| #[trigger] half_range.requires((a, b)),
            decreases n - c,
        {
            let ghost before = self.grid@[line as int]@;
            if self.columns[c].is_input() {
                self.grid[line][c].value = saved[c];
                assert(self.grid@[line as int]@ =~= before.update(
                    c as int,
                    Cell { value: saved@[c as int], ..before[c as int] },
                ));
            } else {
                let u = half_range(lows[c], highs[c]);
                self.grid[line][c].uncertainty = u;
                assert(self.grid@[line as int]@ =~= before.update(
                    c as int,
                    Cell { uncertainty: u, ..before[c as int] },
                ));
                assert(folded(lower, nan, column_values(searched_samples, c as int), lows@[c as int]));
                assert(folded(upper, nan, column_values(searched_samples, c as int), highs@[c as int]));
                assert(half_range.ensures((lows@[c as int], highs@[c as int]), u));
            }
            proof {
                let after = self.grid@[line as int]@;
                let c1 = c + 1;
                assert forall|x: int| 0 <= x < n implies {
                    &&& (#[trigger] after[x]).raw_value == initial[x].raw_value
                    &&& after[x].raw_uncertainty == initial[x].raw_uncertainty
                    &&& is_input_column(cols[x]) ==> after[x].uncertainty
                        == initial[x].uncertainty
                    &&& x < c1 && is_input_column(cols[x]) ==> after[x].value == initial[x].value
                    &&& x < c1 && !is_input_column(cols[x]) ==> spread_of(
                        lower,
                        upper,
                        half_range,
                        nan,
                        column_values(searched_samples, x),
                        after[x].uncertainty,
                    )
                } by {
                    assert(before[x].raw_value == initial[x].raw_value);
                    if x != c {
                        assert(after[x] == before[x]);
                    }
                }
            }
            c = c + 1;
        }
        let ghost restored = self.grid@[line as int]@;
        self.compute_line_value(line, eval);
        proof {
            let after = self.grid@[line as int]@;
            assert(only_derived_values_changed(cols, restored, after));
            assert forall|x: int| 0 <= x < n && !is_input_column(cols[x]) implies spread_of(
                lower,
                upper,
                half_range,
                nan,
                column_values(searched_samples, x),
                #[trigger] after[x].uncertainty,
            ) by {
                assert(after[x].uncertainty == restored[x].uncertainty);
            }
        }
    }

    /// Propagates every row, as `compute_line_with_uncertainty` does one.
    pub fn compute_all<
        E: Fn(&String, &Vec<(String, N)>) -> N,
        P: Fn(N, N, i64, i64) -> N,
        L: Fn(N, N) -> N,
        U: Fn(N, N) -> N,
        H: Fn(N, N) -> N,
    >(
        &mut self,
        half_width: i64,
        eval: &E,
        perturb: &P,
        lower: &L,
        upper: &U,
        half_range: &H,
    )
        requires
            old(self).wf(),
            1 <= half_width <= i64::MAX / 2,
            forall|f: &String, c: &Vec<(String, N)>| #[trigger] eval.requires((f, c)),
            forall|a: N, b: N, k: i64, s: i64| #[trigger] perturb.requires((a, b, k, s)),
            forall|a: N, b: N| #[trigger] lower.requires((a, b)),
            forall|a: N, b: N| #[trigger] upper.requires((a, b)),
            forall|a: N, b: N| #[trigger] half_range.requires((a, b)),
        ensures
            final(self).wf(),
            final(self).columns == old(self).columns,
            final(self).not_a_number == old(self).not_a_number,
            final(self).zero == old(self).zero,
            final(self).grid@.len() == old(self).grid@.len(),
            forall|i: int|
                0 <= i < old(self).grid@.len() ==> row_propagated(
                    eval,
                    perturb,
                    lower,
                    upper,
                    half_range,
                    old(self).not_a_number,
                    half_width,
                    old(self).columns@,
                    old(self).grid@[i]@,
                    #[trigger] final(self).grid@[i]@,
                ),
    {
        let mut line: usize = 0;
        while line < self.grid.len()
            invariant
                line <= self.grid@.len(),
                self.wf(),
                self.columns == old(self).columns,
                self.not_a_number == old(self).not_a_number,
                self.zero == old(self).zero,
                self.grid@.len() == old(self).grid@.len(),
                1 <= half_width <= i64::MAX / 2,
                forall|f: &String, c: &Vec<(String, N)>| #[trigger] eval.requires((f, c)),
                forall|a: N, b: N, k: i64, s: i64| #[trigger] perturb.requires((a, b, k, s)),
                forall|a: N, b: N| #[trigger] lower.requires((a, b)),
                forall|a: N, b: N| #[trigger] upper.requires((a, b)),
                forall|a: N, b: N| #[trigger] half_range.requires((a, b)),
                forall|i: int|
                    0 <= i < line ==> row_propagated(
                        eval,
                        perturb,
                        lower,
                        upper,
                        half_range,
                        old(self).not_a_number,
                        half_width,
                        old(self).columns@,
                        old(self).grid@[i]@,
                        #[trigger] self.grid@[i]@,
                    ),
                forall|i: int| line <= i < self.grid@.len() ==> #[trigger] self.grid@[i] == old(self).grid@[i],
            decreases self.grid@.len() - line,
        {
            self.compute_line_with_uncertainty(
                line,
                half_width,
                eval,
                perturb,
                lower,
                upper,
                half_range,
            );
            line = line + 1;
        }
    }

    /// Parses the input cells of every row, then propagates every row but the
    /// last, which is the blank row kept for new input.
    pub fn compute_and_parse_all<
        F: Fn(&String) -> Option<N>,
        E: Fn(&String, &Vec<(String, N)>) -> N,
        P: Fn(N, N, i64, i64) -> N,
        L: Fn(N, N) -> N,
        U: Fn(N, N) -> N,
        H: Fn(N, N) -> N,
    >(
        &mut self,
        half_width: i64,
        parse: &F,
        eval: &E,
        perturb: &P,
        lower: &L,
        upper: &U,
        half_range: &H,
    )
        requires
            old(self).wf(),
            1 <= half_width <= i64::MAX / 2,
            forall|s: &String| #[trigger] parse.requires((s,)),
            forall|f: &String, c: &Vec<(String, N)>| #[trigger] eval.requires((f, c)),
            forall|a: N, b: N, k: i64, s: i64| #[trigger] perturb.requires((a, b, k, s)),
            forall|a: N, b: N| #[trigger] lower.requires((a, b)),
            forall|a: N, b: N| #[trigger] upper.requires((a, b)),
            forall|a: N, b: N| #[trigger] half_range.requires((a, b)),
        ensures
            final(self).wf(),
            final(self).columns == old(self).columns,
            final(self).not_a_number == old(self).not_a_number,
            final(self).zero == old(self).zero,
            final(self).grid@.len() == old(self).grid@.len(),
            forall|i: int|
                0 <= i < old(self).grid@.len() ==> row_reparsed(
                    parse,
                    eval,
                    perturb,
                    lower,
                    upper,
                    half_range,
                    old(self).not_a_number,
                    old(self).zero,
                    half_width,
                    old(self).columns@,
                    old(self).grid@[i]@,
                    #[trigger] final(self).grid@[i]@,
                    i + 1 == old(self).grid@.len(),
                ),
    {
        let mut line: usize = 0;
        while line < self.grid.len()
            invariant
                line <= self.grid@.len(),
                self.wf(),
                self.columns == old(self).columns,
                self.not_a_number == old(self).not_a_number,
                self.zero == old(self).zero,
                self.grid@.len() == old(self).grid@.len(),
                forall|s: &String| #[trigger] parse.requires((s,)),
                forall|i: int|
                    0 <= i < line ==> row_parsed(
                        parse,
                        old(self).not_a_number,
                        old(self).zero,
                        old(self).columns@,
                        old(self).grid@[i]@,
                        #[trigger] self.grid@[i]@,
                    ),
                forall|i: int| line <= i < self.grid@.len() ==> #[trigger] self.grid@[i] == old(self).grid@[i],
            decreases self.grid@.len() - line,
        {
            self.parse_line(line, parse);
            line = line + 1;
        }
        let ghost parsed = self.grid@;
        let count = self.grid.len();
        let last: usize = if count == 0 {
            0
        } else {
            count - 1
        };
        let mut line: usize = 0;
        while line < last
            invariant
                line <= last,
                count == self.grid@.len(),
                last == if count == 0 { 0 } else { count - 1 },
                self.wf(),
                self.columns == old(self).columns,
                self.not_a_number == old(self).not_a_number,
                self.zero == old(self).zero,
                self.grid@.len() == parsed.len(),
                1 <= half_width <= i64::MAX / 2,
                forall|f: &String, c: &Vec<(String, N)>| #[trigger] eval.requires((f, c)),
                forall|a: N, b: N, k: i64, s: i64| #[trigger] perturb.requires((a, b, k, s)),
                forall|a: N, b: N| #[trigger] lower.requires((a, b)),
                forall|a: N, b: N| #[trigger] upper.requires((a, b)),
                forall|a: N, b: N| #[trigger] half_range.requires((a, b)),
                forall|i: int|
                    0 <= i < line ==> row_propagated(
                        eval,
                        perturb,
                        lower,
                        upper,
                        half_range,
                        old(self).not_a_number,
                        half_width,
                        old(self).columns@,
                        parsed[i]@,
                        #[trigger] self.grid@[i]@,
                    ),
                forall|i: int| line <= i < self.grid@.len() ==> #[trigger] self.grid@[i] == parsed[i],
            decreases self.grid@.len() - line,
        {
            self.compute_line_with_uncertainty(
                line,
                half_width,
                eval,
                perturb,
                lower,
                upper,
                half_range,
            );
            line = line + 1;
        }
        proof {
            assert forall|i: int| 0 <= i < old(self).grid@.len() implies row_reparsed(
                parse,
                eval,
                perturb,
                lower,
                upper,
                half_range,
                old(self).not_a_number,
                old(self).zero,
                half_width,
                old(self).columns@,
                old(self).grid@[i]@,
                #[trigger] self.grid@[i]@,
                i + 1 == old(self).grid@.len(),
            ) by {
                assert(row_parsed(
                    parse,
                    old(self).not_a_number,
                    old(self).zero,
                    old(self).columns@,
                    old(self).grid@[i]@,
                    parsed[i]@,
                ));
            }
        }
    }
}


/// `eval` returns one value for a formula and a context.
pub open spec fn evaluator_is_function<N, E: Fn(&String, &Vec<(String, N)>) -> N>(eval: &E) -> bool {
    forall|f: &String, c1: &Vec<(String, N)>, c2: &Vec<(String, N)>, r1: N, r2: N|
        c1@ == c2@ && #[trigger] eval.ensures((f, c1), r1) && #[trigger] eval.ensures((f, c2), r2)
            ==> r1 == r2
}

/// `perturb` returns one value for its arguments.
pub open spec fn perturbation_is_function<N, P: Fn(N, N, i64, i64) -> N>(perturb: &P) -> bool {
    forall|a: N, b: N, k: i64, s: i64, r1: N, r2: N|
        #[trigger] perturb.ensures((a, b, k, s), r1) && #[trigger] perturb.ensures((a, b, k, s), r2)
            ==> r1 == r2
}

/// `f` returns one value for its arguments.
pub open spec fn operation_is_function<N, F: Fn(N, N) -> N>(f: &F) -> bool {
    forall|a: N, b: N, r1: N, r2: N|
        #[trigger] f.ensures((a, b), r1) && #[trigger] f.ensures((a, b), r2) ==> r1 == r2
}

proof fn lemma_input_indices_complete(columns: Seq<ColumnSettings>, n: nat, x: int)
    requires
        n <= columns.len(),
        0 <= x < n,
        is_input_column(columns[x]),
    ensures
        exists|k: int|
            0 <= k < input_indices_upto(columns, n).len() && #[trigger] input_indices_upto(
                columns,
                n,
            )[k] == x,
    decreases n,
{
    let q = input_indices_upto(columns, n);
    if x == n - 1 {
        assert(q[q.len() - 1] == x);
    } else {
        lemma_input_indices_complete(columns, (n - 1) as nat, x);
        let p = input_indices_upto(columns, (n - 1) as nat);
        let k = choose|k: int| 0 <= k < p.len() && #[trigger] p[k] == x;
        assert(q[k] == p[k]);
    }
}

proof fn lemma_evaluated_agree_from<N, E: Fn(&String, &Vec<(String, N)>) -> N>(
    eval: &E,
    columns: Seq<ColumnSettings>,
    r1: Seq<Cell<N>>,
    r2: Seq<Cell<N>>,
    i: int,
)
    requires
        evaluator_is_function(eval),
        0 <= i <= columns.len(),
        r1.len() == columns.len(),
        r2.len() == columns.len(),
        row_evaluated(eval, columns, r1),
        row_evaluated(eval, columns, r2),
        forall|x: int|
            0 <= x < columns.len() && is_input_column(columns[x]) ==> #[trigger] r1[x].value
                == r2[x].value,
    ensures
        forall|j: int| i <= j < columns.len() ==> #[trigger] r1[j].value == r2[j].value,
    decreases columns.len() - i,
{
    if i < columns.len() {
        lemma_evaluated_agree_from(eval, columns, r1, r2, i + 1);
        if !is_input_column(columns[i]) {
            lemma_context_of_right(columns, r1, r2, i);
            assert(column_evaluated(eval, columns, r1, i));
            assert(column_evaluated(eval, columns, r2, i));
            let w1 = choose|w: Vec<(String, N)>|
                w@ == context_of(columns, r1, i) && #[trigger] eval.ensures(
                    (&columns[i].expression, &w),
                    r1[i].value,
                );
            let w2 = choose|w: Vec<(String, N)>|
                w@ == context_of(columns, r2, i) && #[trigger] eval.ensures(
                    (&columns[i].expression, &w),
                    r2[i].value,
                );
            assert(w1@ == w2@);
        }
    }
}

proof fn lemma_samples_agree<
    N,
    E: Fn(&String, &Vec<(String, N)>) -> N,
    P: Fn(N, N, i64, i64) -> N,
>(
    eval: &E,
    perturb: &P,
    columns: Seq<ColumnSettings>,
    base1: Seq<Cell<N>>,
    base2: Seq<Cell<N>>,
    offsets: Seq<i64>,
    half_width: i64,
    row1: Seq<Cell<N>>,
    row2: Seq<Cell<N>>,
)
    requires
        evaluator_is_function(eval),
        perturbation_is_function(perturb),
        base1.len() == columns.len(),
        base2.len() == columns.len(),
        forall|x: int|
            0 <= x < columns.len() && is_input_column(columns[x]) ==> #[trigger] base1[x].value
                == base2[x].value && base1[x].uncertainty == base2[x].uncertainty,
        is_sample_row(eval, perturb, columns, base1, offsets, half_width, row1),
        is_sample_row(eval, perturb, columns, base2, offsets, half_width, row2),
    ensures
        forall|x: int| 0 <= x < columns.len() ==> #[trigger] row1[x].value == row2[x].value,
{
    let idx = input_indices(columns);
    lemma_input_indices(columns, columns.len());
    assert forall|x: int| 0 <= x < columns.len() && is_input_column(columns[x]) implies #[trigger] row1[x].value
        == row2[x].value by {
        lemma_input_indices_complete(columns, columns.len(), x);
        let k = choose|k: int| 0 <= k < idx.len() && #[trigger] idx[k] == x;
        assert(perturb.ensures(
            (base1[idx[k]].value, base1[idx[k]].uncertainty, offsets[k], half_width),
            row1[idx[k]].value,
        ));
        assert(perturb.ensures(
            (base2[idx[k]].value, base2[idx[k]].uncertainty, offsets[k], half_width),
            row2[idx[k]].value,
        ));
    }
    lemma_evaluated_agree_from(eval, columns, row1, row2, 0);
}

proof fn lemma_traces_agree<N, F: Fn(N, N) -> N>(
    f: &F,
    values: Seq<N>,
    acc1: Seq<N>,
    acc2: Seq<N>,
    t: int,
)
    requires
        operation_is_function(f),
        0 <= t <= values.len(),
        acc1.len() == values.len() + 1,
        acc2.len() == values.len() + 1,
        acc1[0] == acc2[0],
        forall|u: int| 0 <= u < values.len() ==> #[trigger] f.ensures((acc1[u], values[u]), acc1[u + 1]),
        forall|u: int| 0 <= u < values.len() ==> #[trigger] f.ensures((acc2[u], values[u]), acc2[u + 1]),
    ensures
        acc1[t] == acc2[t],
    decreases t,
{
    if t > 0 {
        lemma_traces_agree(f, values, acc1, acc2, t - 1);
        let u = t - 1;
        assert(f.ensures((acc1[u], values[u]), acc1[u + 1]));
        assert(f.ensures((acc2[u], values[u]), acc2[u + 1]));
    }
}

proof fn lemma_folded_unique<N, F: Fn(N, N) -> N>(f: &F, init: N, values: Seq<N>, r1: N, r2: N)
    requires
        operation_is_function(f),
        folded(f, init, values, r1),
        folded(f, init, values, r2),
    ensures
        r1 == r2,
{
    let acc1 = choose|acc: Seq<N>|
        {
            &&& acc.len() == values.len() + 1
            &&& acc[0] == init
            &&& acc.last() == r1
            &&& forall|t: int|
                0 <= t < values.len() ==> #[trigger] f.ensures((acc[t], values[t]), acc[t + 1])
        };
    let acc2 = choose|acc: Seq<N>|
        {
            &&& acc.len() == values.len() + 1
            &&& acc[0] == init
            &&& acc.last() == r2
            &&& forall|t: int|
                0 <= t < values.len() ==> #[trigger] f.ensures((acc[t], values[t]), acc[t + 1])
        };
    lemma_traces_agree(f, values, acc1, acc2, values.len() as int);
}

/// Propagating a row a second time changes no value and no uncertainty: the
/// search is exhaustive and deterministic, so where the evaluator and the
/// arithmetic are functions of their arguments, a row that was propagated
/// (`once`) and the row propagated again from it (`twice`) agree.
pub proof fn lemma_propagation_is_idempotent<
    N,
    E: Fn(&String, &Vec<(String, N)>) -> N,
    P: Fn(N, N, i64, i64) -> N,
    L: Fn(N, N) -> N,
    U: Fn(N, N) -> N,
    H: Fn(N, N) -> N,
>(
    eval: &E,
    perturb: &P,
    lower: &L,
    upper: &U,
    half_range: &H,
    not_a_number: N,
    half_width: i64,
    columns: Seq<ColumnSettings>,
    row: Seq<Cell<N>>,
    once: Seq<Cell<N>>,
    twice: Seq<Cell<N>>,
)
    requires
        evaluator_is_function(eval),
        perturbation_is_function(perturb),
        operation_is_function(lower),
        operation_is_function(upper),
        operation_is_function(half_range),
        row.len() == columns.len(),
        row_propagated(
            eval,
            perturb,
            lower,
            upper,
            half_range,
            not_a_number,
            half_width,
            columns,
            row,
            once,
        ),
        row_propagated(
            eval,
            perturb,
            lower,
            upper,
            half_range,
            not_a_number,
            half_width,
            columns,
            once,
            twice,
        ),
    ensures
        twice.len() == once.len(),
        forall|x: int|
            0 <= x < once.len() ==> (#[trigger] twice[x]).value == once[x].value
                && twice[x].uncertainty == once[x].uncertainty,
{
    let n = columns.len();
    assert forall|x: int| 0 <= x < n && is_input_column(columns[x]) implies #[trigger] once[x].value
        == twice[x].value by {
        assert(twice[x].value == once[x].value);
    }
    lemma_evaluated_agree_from(eval, columns, once, twice, 0);
    if input_indices(columns).len() > 0 {
        let m = input_indices(columns).len();
        let s = half_width as int;
        let samples1 = choose|samples: Seq<Seq<Cell<N>>>|
            {
                &&& samples.len() == combinations(m, s)
                &&& forall|t: int|
                    0 <= t < samples.len() ==> is_sample_row(
                        eval,
                        perturb,
                        columns,
                        row,
                        unrank(t, m, s),
                        half_width,
                        #[trigger] samples[t],
                    )
                &&& forall|x: int|
                    0 <= x < columns.len() && !is_input_column(columns[x]) ==> spread_of(
                        lower,
                        upper,
                        half_range,
                        not_a_number,
                        column_values(samples, x),
                        #[trigger] once[x].uncertainty,
                    )
            };
        let samples2 = choose|samples: Seq<Seq<Cell<N>>>|
            {
                &&& samples.len() == combinations(m, s)
                &&& forall|t: int|
                    0 <= t < samples.len() ==> is_sample_row(
                        eval,
                        perturb,
                        columns,
                        once,
                        unrank(t, m, s),
                        half_width,
                        #[trigger] samples[t],
                    )
                &&& forall|x: int|
                    0 <= x < columns.len() && !is_input_column(columns[x]) ==> spread_of(
                        lower,
                        upper,
                        half_range,
                        not_a_number,
                        column_values(samples, x),
                        #[trigger] twice[x].uncertainty,
                    )
            };
        assert forall|x: int| 0 <= x < n && is_input_column(columns[x]) implies #[trigger] row[x].value
            == once[x].value && row[x].uncertainty == once[x].uncertainty by {
            assert(once[x].value == row[x].value);
        }
        assert forall|x: int| 0 <= x < n && !is_input_column(columns[x]) implies #[trigger] twice[x].uncertainty
            == once[x].uncertainty by {
            assert(column_values(samples1, x) =~= column_values(samples2, x)) by {
                assert forall|t: int| 0 <= t < samples1.len() implies #[trigger] samples1[t][x].value
                    == samples2[t][x].value by {
                    assert(is_sample_row(
                        eval,
                        perturb,
                        columns,
                        row,
                        unrank(t, m, s),
                        half_width,
                        samples1[t],
                    ));
                    assert(is_sample_row(
                        eval,
                        perturb,
                        columns,
                        once,
                        unrank(t, m, s),
                        half_width,
                        samples2[t],
                    ));
                    lemma_samples_agree(
                        eval,
                        perturb,
                        columns,
                        row,
                        once,
                        unrank(t, m, s),
                        half_width,
                        samples1[t],
                        samples2[t],
                    );
                }
            }
            let values = column_values(samples1, x);
            assert(spread_of(lower, upper, half_range, not_a_number, values, once[x].uncertainty));
            assert(spread_of(lower, upper, half_range, not_a_number, values, twice[x].uncertainty));
            let (lo1, hi1) = choose|lo: N, hi: N|
                #[trigger] folded(lower, not_a_number, values, lo) && #[trigger] folded(
                    upper,
                    not_a_number,
                    values,
                    hi,
                ) && half_range.ensures((lo, hi), once[x].uncertainty);
            let (lo2, hi2) = choose|lo: N, hi: N|
                #[trigger] folded(lower, not_a_number, values, lo) && #[trigger] folded(
                    upper,
                    not_a_number,
                    values,
                    hi,
                ) && half_range.ensures((lo, hi), twice[x].uncertainty);
            lemma_folded_unique(lower, not_a_number, values, lo1, lo2);
            lemma_folded_unique(upper, not_a_number, values, hi1, hi2);
        }
    }
}

} // verus!
