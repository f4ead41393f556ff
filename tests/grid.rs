use auto_graph::column::{ColumnSettings, DEFAULT_PRECISION};
use auto_graph::odometer::Odometer;
use auto_graph::sheet::Sheet;

fn two_column_sheet() -> Sheet<i64> {
    let mut sheet: Sheet<i64> = Sheet::new(-1, 0);
    sheet.add_column("y".to_string());
    sheet.add_column("x".to_string());
    sheet
}

fn assert_rectangular(sheet: &Sheet<i64>) {
    for row in &sheet.grid {
        assert_eq!(row.len(), sheet.columns.len());
    }
}

#[test]
fn column_settings_new_starts_as_input() {
    let c = ColumnSettings::new("a".to_string());
    assert_eq!(c.name, "a");
    assert_eq!(c.expression, "");
    assert_eq!(c.precision, 3);
    assert_eq!(DEFAULT_PRECISION, 3);
    assert!(c.is_input());
}

#[test]
fn add_column_appends_a_blank_cell_to_every_row() {
    let mut sheet = two_column_sheet();
    sheet.add_line();
    sheet.add_line();
    sheet.grid[0][1].raw_value = "4".to_string();
    sheet.add_column("a".to_string());
    assert_eq!(sheet.columns.len(), 3);
    assert_eq!(sheet.columns[2].name, "a");
    assert_rectangular(&sheet);
    assert_eq!(sheet.grid[0][1].raw_value, "4");
    let added = &sheet.grid[1][2];
    assert_eq!(added.raw_value, "");
    assert_eq!(added.raw_uncertainty, "");
    assert_eq!(added.value, -1);
    assert_eq!(added.uncertainty, 0);
}

#[test]
fn rectangular_after_mixed_operations() {
    let mut sheet = two_column_sheet();
    sheet.add_line();
    sheet.add_column("a".to_string());
    sheet.add_line();
    sheet.add_column("b".to_string());
    sheet.add_column("c".to_string());
    sheet.add_line();
    assert_rectangular(&sheet);
    sheet.remove_column(3);
    assert_rectangular(&sheet);
    assert_eq!(sheet.columns.len(), 4);
    assert_eq!(sheet.columns[3].name, "c");
    sheet.add_line();
    sheet.remove_column(2);
    assert_rectangular(&sheet);
    assert_eq!(sheet.grid.len(), 4);
    assert_eq!(sheet.columns.len(), 3);
}

#[test]
fn remove_column_keeps_the_first_two_columns() {
    let mut sheet = two_column_sheet();
    sheet.add_line();
    sheet.remove_column(0);
    sheet.remove_column(1);
    assert_eq!(sheet.columns.len(), 2);
    assert_eq!(sheet.columns[0].name, "y");
    assert_eq!(sheet.columns[1].name, "x");
    assert_eq!(sheet.grid[0].len(), 2);
}

#[test]
fn remove_column_drops_the_cell_at_its_index() {
    let mut sheet = two_column_sheet();
    sheet.add_column("a".to_string());
    sheet.add_column("b".to_string());
    sheet.add_line();
    sheet.grid[0][2].raw_value = "2".to_string();
    sheet.grid[0][3].raw_value = "3".to_string();
    sheet.remove_column(2);
    assert_eq!(sheet.columns[2].name, "b");
    assert_eq!(sheet.grid[0].len(), 3);
    assert_eq!(sheet.grid[0][2].raw_value, "3");
}

#[test]
fn ensure_empty_line_adds_a_row_to_an_empty_grid() {
    let mut sheet = two_column_sheet();
    sheet.ensure_empty_line();
    assert_eq!(sheet.grid.len(), 1);
    assert!(!sheet.line_has_input(0));
}

#[test]
fn ensure_empty_line_appends_after_a_filled_last_row() {
    let mut sheet = two_column_sheet();
    sheet.add_line();
    sheet.grid[0][1].raw_value = "1".to_string();
    sheet.ensure_empty_line();
    assert_eq!(sheet.grid.len(), 2);
    assert!(sheet.line_has_input(0));
    assert!(!sheet.line_has_input(1));
    sheet.ensure_empty_line();
    assert_eq!(sheet.grid.len(), 2);
}

#[test]
fn ensure_empty_line_drops_extra_blank_rows() {
    let mut sheet = two_column_sheet();
    for _ in 0..5 {
        sheet.add_line();
    }
    sheet.grid[1][0].raw_uncertainty = "0.5".to_string();
    sheet.ensure_empty_line();
    assert_eq!(sheet.grid.len(), 3);
    assert!(sheet.line_has_input(1));
    assert!(!sheet.line_has_input(2));
}

#[test]
fn ensure_empty_line_ignores_text_in_derived_columns() {
    let mut sheet = two_column_sheet();
    sheet.columns[0].expression = "x*2".to_string();
    sheet.add_line();
    sheet.add_line();
    sheet.grid[0][0].raw_value = "7".to_string();
    sheet.ensure_empty_line();
    assert_eq!(sheet.grid.len(), 1);
    assert!(!sheet.line_has_input(0));
}

#[test]
fn ensure_empty_line_keeps_blank_rows_between_filled_ones() {
    let mut sheet = two_column_sheet();
    for _ in 0..4 {
        sheet.add_line();
    }
    sheet.grid[0][1].raw_value = "1".to_string();
    sheet.grid[2][1].raw_value = "3".to_string();
    sheet.ensure_empty_line();
    assert_eq!(sheet.grid.len(), 4);
    assert!(!sheet.line_has_input(1));
    assert!(!sheet.line_has_input(3));
}

#[test]
fn odometer_visits_every_combination_once() {
    let mut odometer = Odometer::new(3, 1);
    let mut seen: Vec<Vec<i64>> = Vec::new();
    loop {
        let current: Vec<i64> = (0..3).map(|k| odometer.offset(k)).collect();
        assert!(current.iter().all(|o| (-1..=1).contains(o)));
        assert!(!seen.contains(&current));
        seen.push(current);
        if !odometer.advance() {
            break;
        }
    }
    assert_eq!(seen.len(), 27);
    assert_eq!(seen[0], vec![-1, -1, -1]);
    assert_eq!(seen[1], vec![-1, -1, 0]);
    assert_eq!(seen[3], vec![-1, 0, -1]);
    assert_eq!(seen[26], vec![1, 1, 1]);
    assert_eq!(odometer.offsets, vec![1, 1, 1]);
}

#[test]
fn odometer_with_wider_half_width() {
    let mut odometer = Odometer::new(2, 10);
    let mut count: usize = 1;
    while odometer.advance() {
        count += 1;
    }
    assert_eq!(count, 21 * 21);
}

#[test]
fn odometer_without_dimensions_has_one_state() {
    let mut odometer = Odometer::new(0, 1);
    assert!(!odometer.advance());
    assert!(odometer.offsets.is_empty());
}
