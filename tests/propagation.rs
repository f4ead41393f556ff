use auto_graph::sheet::Sheet;
use evalexpr::{eval_number_with_context, ContextWithMutableVariables, HashMapContext};

fn eval(formula: &String, context: &Vec<(String, f64)>) -> f64 {
    let mut variables = HashMapContext::new();
    for (name, value) in context {
        variables.set_value(name.clone(), (*value).into()).unwrap();
    }
    eval_number_with_context(formula, &variables).unwrap_or(f64::NAN)
}

fn parse(text: &String) -> Option<f64> {
    text.trim().parse::<f64>().ok()
}

fn perturb(reference: f64, uncertainty: f64, offset: i64, half_width: i64) -> f64 {
    reference + offset as f64 * uncertainty / half_width as f64
}

fn lower(a: f64, b: f64) -> f64 {
    a.min(b)
}

fn upper(a: f64, b: f64) -> f64 {
    a.max(b)
}

fn half_range(lo: f64, hi: f64) -> f64 {
    (hi - lo) / 2.
}

/// Columns named after `names`, the formulas given where not empty, and one row.
fn sheet_with(names: &[&str], formulas: &[&str]) -> Sheet<f64> {
    let mut sheet: Sheet<f64> = Sheet::new(f64::NAN, 0.);
    for name in names {
        sheet.add_column(name.to_string());
    }
    for (i, formula) in formulas.iter().enumerate() {
        sheet.columns[i].expression = formula.to_string();
    }
    sheet.add_line();
    sheet
}

fn set_input(sheet: &mut Sheet<f64>, column: usize, value: &str, uncertainty: &str) {
    sheet.grid[0][column].raw_value = value.to_string();
    sheet.grid[0][column].raw_uncertainty = uncertainty.to_string();
    sheet.parse_line(0, &parse);
}

fn propagate(sheet: &mut Sheet<f64>, half_width: i64) {
    sheet.compute_line_with_uncertainty(
        0,
        half_width,
        &eval,
        &perturb,
        &lower,
        &upper,
        &half_range,
    );
}

#[test]
fn formulas_see_the_columns_to_their_right() {
    let mut sheet = sheet_with(&["y", "x", "z"], &["x*2+z"]);
    set_input(&mut sheet, 1, "3", "");
    set_input(&mut sheet, 2, "4", "");
    sheet.compute_line_value(0, &eval);
    assert_eq!(sheet.grid[0][0].value, 10.);
}

#[test]
fn chained_formulas_are_evaluated_right_to_left() {
    let mut sheet = sheet_with(&["y", "x", "w", "z"], &["x+1", "", "z*3"]);
    set_input(&mut sheet, 1, "1", "");
    set_input(&mut sheet, 3, "2", "");
    sheet.compute_line_value(0, &eval);
    assert_eq!(sheet.grid[0][2].value, 6.);
    assert_eq!(sheet.grid[0][0].value, 2.);
}

#[test]
fn unparsable_input_gives_not_a_number_downstream() {
    let mut sheet = sheet_with(&["y", "x", "z"], &["x*2+z"]);
    set_input(&mut sheet, 1, "abc", "");
    set_input(&mut sheet, 2, "4", "");
    assert!(sheet.grid[0][1].value.is_nan());
    sheet.compute_line_value(0, &eval);
    assert!(sheet.grid[0][0].value.is_nan());
}

#[test]
fn formula_naming_a_column_to_its_left_gives_not_a_number() {
    let mut sheet = sheet_with(&["y", "x", "z"], &["", "y+1"]);
    set_input(&mut sheet, 0, "1", "");
    sheet.compute_line_value(0, &eval);
    assert!(sheet.grid[0][1].value.is_nan());
    assert_eq!(sheet.grid[0][0].value, 1.);
}

#[test]
fn parsing_reads_empty_uncertainty_as_zero() {
    let mut sheet = sheet_with(&["y", "x"], &[]);
    set_input(&mut sheet, 1, " 2.5 ", "");
    assert_eq!(sheet.grid[0][1].value, 2.5);
    assert_eq!(sheet.grid[0][1].uncertainty, 0.);
    set_input(&mut sheet, 1, "2.5", "oops");
    assert!(sheet.grid[0][1].uncertainty.is_nan());
    set_input(&mut sheet, 1, "", "0.1");
    assert!(sheet.grid[0][1].value.is_nan());
    assert_eq!(sheet.grid[0][1].uncertainty, 0.1);
}

#[test]
fn identity_formula_follows_input_uncertainty() {
    let mut sheet = sheet_with(&["y", "x"], &["x"]);
    set_input(&mut sheet, 1, "5", "1");
    propagate(&mut sheet, 1);
    assert_eq!(sheet.grid[0][0].uncertainty, 1.);
    set_input(&mut sheet, 1, "5", "2");
    propagate(&mut sheet, 1);
    assert_eq!(sheet.grid[0][0].uncertainty, 2.);
    assert_eq!(sheet.grid[0][0].value, 5.);
}

#[test]
fn linear_formula_is_exact_for_any_half_width() {
    for half_width in [1, 2, 5, 10] {
        let mut sheet = sheet_with(&["y", "x"], &["2*x"]);
        set_input(&mut sheet, 1, "10", "1");
        propagate(&mut sheet, half_width);
        assert_eq!(sheet.grid[0][0].uncertainty, 2.);
        assert_eq!(sheet.grid[0][0].value, 20.);
        assert_eq!(sheet.grid[0][1].value, 10.);
        assert_eq!(sheet.grid[0][1].uncertainty, 1.);
    }
}

#[test]
fn product_of_two_inputs_takes_the_worst_corner() {
    let mut sheet = sheet_with(&["y", "x", "z"], &["x*z"]);
    set_input(&mut sheet, 1, "2", "1");
    set_input(&mut sheet, 2, "3", "1");
    propagate(&mut sheet, 1);
    assert_eq!(sheet.grid[0][0].value, 6.);
    assert_eq!(sheet.grid[0][0].uncertainty, (12. - 2.) / 2.);
}

#[test]
fn square_takes_the_spread_of_its_samples() {
    let mut sheet = sheet_with(&["y", "x"], &["x*x"]);
    set_input(&mut sheet, 1, "0", "1");
    propagate(&mut sheet, 1);
    assert_eq!(sheet.grid[0][0].value, 0.);
    assert_eq!(sheet.grid[0][0].uncertainty, 0.5);
}

#[test]
fn row_without_inputs_keeps_its_uncertainties() {
    let mut sheet = sheet_with(&["y", "x"], &["x+1", "3"]);
    sheet.grid[0][0].uncertainty = 0.25;
    sheet.grid[0][1].uncertainty = 7.;
    propagate(&mut sheet, 1);
    assert_eq!(sheet.grid[0][0].uncertainty, 0.25);
    assert_eq!(sheet.grid[0][1].uncertainty, 7.);
    assert_eq!(sheet.grid[0][1].value, 3.);
    assert_eq!(sheet.grid[0][0].value, 4.);
}

#[test]
fn propagating_twice_changes_nothing() {
    let mut sheet = sheet_with(&["y", "x", "a", "z"], &["x*a-z", "", "z/2"]);
    set_input(&mut sheet, 1, "1.5", "0.1");
    set_input(&mut sheet, 3, "-4", "0.3");
    propagate(&mut sheet, 2);
    let first: Vec<(f64, f64)> = sheet.grid[0].iter().map(|c| (c.value, c.uncertainty)).collect();
    propagate(&mut sheet, 2);
    let second: Vec<(f64, f64)> = sheet.grid[0].iter().map(|c| (c.value, c.uncertainty)).collect();
    assert_eq!(first, second);
}

#[test]
fn not_a_number_input_gives_not_a_number_uncertainty_range() {
    let mut sheet = sheet_with(&["y", "x"], &["x*2"]);
    set_input(&mut sheet, 1, "abc", "1");
    propagate(&mut sheet, 1);
    assert!(sheet.grid[0][0].value.is_nan());
    assert!(sheet.grid[0][0].uncertainty.is_nan());
}

#[test]
fn reparse_propagates_every_row_but_the_last() {
    let mut sheet = sheet_with(&["y", "x"], &["x*3"]);
    sheet.add_line();
    sheet.add_line();
    sheet.grid[0][1].raw_value = "1".to_string();
    sheet.grid[0][1].raw_uncertainty = "0.5".to_string();
    sheet.grid[1][1].raw_value = "2".to_string();
    sheet.grid[2][1].raw_value = "9".to_string();
    sheet.compute_and_parse_all(1, &parse, &eval, &perturb, &lower, &upper, &half_range);
    assert_eq!(sheet.grid[0][0].value, 3.);
    assert_eq!(sheet.grid[0][0].uncertainty, 1.5);
    assert_eq!(sheet.grid[1][0].value, 6.);
    assert_eq!(sheet.grid[1][0].uncertainty, 0.);
    assert_eq!(sheet.grid[2][1].value, 9.);
    assert!(sheet.grid[2][0].value.is_nan());
}

#[test]
fn compute_all_propagates_every_row() {
    let mut sheet = sheet_with(&["y", "x"], &["x-1"]);
    sheet.add_line();
    set_input(&mut sheet, 1, "4", "0.5");
    sheet.grid[1][1].raw_value = "8".to_string();
    sheet.parse_line(1, &parse);
    sheet.compute_all(1, &eval, &perturb, &lower, &upper, &half_range);
    assert_eq!(sheet.grid[0][0].value, 3.);
    assert_eq!(sheet.grid[0][0].uncertainty, 0.5);
    assert_eq!(sheet.grid[1][0].value, 7.);
    assert_eq!(sheet.grid[1][0].uncertainty, 0.);
}

#[test]
fn search_evaluates_every_combination_of_input_offsets() {
    let calls = std::cell::Cell::new(0usize);
    let counting = |formula: &String, context: &Vec<(String, f64)>| -> f64 {
        calls.set(calls.get() + 1);
        eval(formula, context)
    };
    let mut sheet = sheet_with(&["y", "x", "z"], &["x+z"]);
    set_input(&mut sheet, 1, "1", "0.5");
    set_input(&mut sheet, 2, "2", "0.25");
    sheet.compute_line_with_uncertainty(0, 1, &counting, &perturb, &lower, &upper, &half_range);
    // one nominal pass before the search, 3 * 3 samples, one nominal pass after
    assert_eq!(calls.get(), 1 + 9 + 1);
    assert_eq!(sheet.grid[0][0].value, 3.);
    assert_eq!(sheet.grid[0][0].uncertainty, 0.75);

    calls.set(0);
    sheet.compute_line_with_uncertainty(0, 2, &counting, &perturb, &lower, &upper, &half_range);
    assert_eq!(calls.get(), 1 + 25 + 1);
    assert_eq!(sheet.grid[0][0].uncertainty, 0.75);
}
