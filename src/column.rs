use vstd::prelude::*;

verus! {

/// Display precision that a new column starts with.
pub const DEFAULT_PRECISION: usize = 3;

/// One column of the grid: its name, its formula (empty for an input
/// column) and the number of decimals it is shown with.
pub struct ColumnSettings {
    pub name: String,
    pub expression: String,
    pub precision: usize,
}

/// A column whose formula is empty holds values entered by hand.
pub open spec fn is_input_column(c: ColumnSettings) -> bool {
    c.expression@.len() == 0
}

impl ColumnSettings {
    /// An input column named `name`, with the default precision.
    pub fn new(name: String) -> (r: Self)
        ensures
            r.name == name,
            r.expression@ == Seq::<char>::empty(),
            r.precision == DEFAULT_PRECISION,
    {
        ColumnSettings { name, expression: String::new(), precision: DEFAULT_PRECISION }
    }

    /// Whether the column holds entered values rather than a formula.
    pub fn is_input(&self) -> (r: bool)
        ensures
            r == is_input_column(*self),
    {
        self.expression.as_str().is_empty()
    }
}

} // verus!
