use std::cell::RefCell;
use xl_diff::align::RowAlignment;
use xl_diff::cell::Data;
use xl_diff::compare::{align_rows, compare_sheet, diff_snapshots};
use xl_diff::delta::{compute_deltas_parallel, AlignedRow, CellDelta};
use xl_diff::fingerprint::SheetSnapshot;
use xl_diff::style::{CellStyleProfile, StyleCatalog};

fn text(s: &str) -> Data {
    Data::String(s.to_string())
}

fn row(cells: &[&str]) -> Vec<Data> {
    cells.iter().map(|s| if s.is_empty() { Data::Empty } else { text(s) }).collect()
}

fn strings(items: &[&str]) -> Vec<String> {
    items.iter().map(|s| s.to_string()).collect()
}

fn profile(style_id: u32, font: &str) -> CellStyleProfile {
    CellStyleProfile {
        style_id,
        number_format: "numFmtId=0".to_string(),
        font: font.to_string(),
        fill: "fillId=0".to_string(),
        border: "borderId=0".to_string(),
        alignment: "alignment=default".to_string(),
        protection: "protection=default".to_string(),
    }
}

fn aligned(alignment: RowAlignment) -> AlignedRow {
    AlignedRow { alignment, numbers_close: vec![] }
}

fn values_only(old: &[Vec<Data>], new: &[Vec<Data>], rows: &[AlignedRow]) -> Vec<CellDelta> {
    compute_deltas_parallel(old, new, None, None, None, None, rows)
}

#[test]
fn a_changed_value() {
    let old = vec![row(&["a", "b"])];
    let new = vec![row(&["a", "c"])];
    let deltas = values_only(&old, &new, &[aligned(RowAlignment::Matched(0, 0))]);
    assert_eq!(deltas.len(), 1);
    let d = &deltas[0];
    assert_eq!((d.row_idx_old, d.row_idx_new, d.col_idx), (Some(0), Some(0), 1));
    assert_eq!((d.old_value.as_str(), d.new_value.as_str()), ("b", "c"));
    assert_eq!(d.status, "ValueModified");
    assert_eq!((d.value_changed, d.formula_changed, d.style_changed), (true, false, false));
    assert_eq!((&d.old_formula, &d.new_formula), (&None, &None));
    assert_eq!((d.old_style_id, d.new_style_id), (None, None));
    assert_eq!(d.change_kinds, vec!["Value"]);
    assert!(!d.formatting_changed);
    assert!(d.formatting_changes.is_empty());
}

#[test]
fn a_changed_formula() {
    let values = vec![row(&["1"])];
    let old_formulas = vec![strings(&["A1"])];
    let new_formulas = vec![strings(&["A2"])];
    let deltas = compute_deltas_parallel(
        &values,
        &values,
        Some(&old_formulas),
        Some(&new_formulas),
        None,
        None,
        &[aligned(RowAlignment::Matched(0, 0))],
    );
    assert_eq!(deltas.len(), 1);
    assert_eq!(deltas[0].status, "FormulaModified");
    assert_eq!(deltas[0].old_formula.as_deref(), Some("A1"));
    assert_eq!(deltas[0].new_formula.as_deref(), Some("A2"));
    assert_eq!(deltas[0].change_kinds, vec!["Formula"]);
}

#[test]
fn a_changed_style() {
    let values = vec![row(&["1", "2", "3"])];
    let old_styles = vec![vec![Some(profile(1, "fontId=0")), Some(profile(2, "fontId=0")), None]];
    let new_styles =
        vec![vec![Some(profile(1, "fontId=5")), Some(profile(3, "fontId=0")), Some(profile(0, ""))]];
    let deltas = compute_deltas_parallel(
        &values,
        &values,
        None,
        None,
        Some(&old_styles),
        Some(&new_styles),
        &[aligned(RowAlignment::Matched(0, 0))],
    );
    assert_eq!(deltas.len(), 3);
    for d in &deltas {
        assert_eq!(d.status, "StyleModified");
        assert!(d.formatting_changed);
    }
    assert_eq!(deltas[0].formatting_changes, vec!["font"]);
    assert_eq!(deltas[0].change_kinds, vec!["Style", "Formatting"]);
    assert_eq!((deltas[0].old_style_id, deltas[0].new_style_id), (Some(1), Some(1)));
    assert_eq!(deltas[0].old_style_profile, Some(profile(1, "fontId=0")));
    assert_eq!(deltas[0].new_style_profile, Some(profile(1, "fontId=5")));
    assert!(deltas[1].formatting_changes.is_empty());
    assert_eq!(deltas[1].change_kinds, vec!["Style"]);
    assert_eq!(deltas[2].formatting_changes, vec!["style_presence"]);
    assert_eq!((deltas[2].old_style_id, deltas[2].new_style_id), (None, Some(0)));
}

#[test]
fn several_changes_in_one_cell() {
    let old = vec![row(&["1"])];
    let new = vec![row(&["2"])];
    let formulas = vec![strings(&["", "B1"])];
    let deltas = compute_deltas_parallel(
        &old,
        &new,
        None,
        Some(&formulas),
        None,
        None,
        &[aligned(RowAlignment::Matched(0, 0))],
    );
    assert_eq!(deltas.len(), 2);
    assert_eq!(deltas[0].status, "ValueModified");
    assert_eq!(deltas[1].status, "FormulaModified");
    assert_eq!(deltas[1].col_idx, 1);
    let formulas = vec![strings(&["B1"])];
    let deltas = compute_deltas_parallel(
        &old,
        &new,
        None,
        Some(&formulas),
        None,
        None,
        &[aligned(RowAlignment::Matched(0, 0))],
    );
    assert_eq!(deltas[0].status, "Modified");
    assert_eq!(deltas[0].change_kinds, vec!["Value", "Formula"]);
}

#[test]
fn a_deleted_row() {
    let old = vec![vec![text("a"), Data::Empty, Data::Int(3)]];
    let formulas = vec![strings(&["", "", "1+2"])];
    let styles = vec![vec![None, Some(profile(1, "")), Some(profile(7, ""))]];
    let deltas = compute_deltas_parallel(
        &old,
        &[],
        Some(&formulas),
        None,
        Some(&styles),
        None,
        &[aligned(RowAlignment::Deleted(0))],
    );
    assert_eq!(deltas.len(), 2);
    let d = &deltas[0];
    assert_eq!((d.row_idx_old, d.row_idx_new, d.col_idx), (Some(0), None, 0));
    assert_eq!((d.old_value.as_str(), d.new_value.as_str()), ("a", ""));
    assert_eq!(d.status, "Deleted");
    assert_eq!((d.value_changed, d.formula_changed, d.style_changed), (true, false, false));
    assert_eq!(d.change_kinds, vec!["Deleted"]);
    assert_eq!(d.formatting_changes, vec!["style_removed"]);
    let d = &deltas[1];
    assert_eq!(d.col_idx, 2);
    assert_eq!(d.change_kinds, vec!["Deleted", "Formula", "Style"]);
    assert_eq!(d.old_formula.as_deref(), Some("1+2"));
    assert_eq!(d.old_style_id, Some(7));
    assert_eq!(d.old_style_profile, Some(profile(7, "")));
    assert_eq!(d.new_style_profile, None);
    assert!(d.formatting_changed);
}

#[test]
fn an_added_row() {
    let new = vec![row(&["x"]), vec![text("a"), Data::Empty, Data::Int(3)]];
    let formulas = vec![vec![], strings(&["", "", "1+2"])];
    let styles = vec![vec![], vec![None, None, Some(profile(7, ""))]];
    let deltas = compute_deltas_parallel(
        &[],
        &new,
        None,
        Some(&formulas),
        None,
        Some(&styles),
        &[aligned(RowAlignment::Added(1))],
    );
    assert_eq!(deltas.len(), 2);
    assert_eq!((deltas[0].row_idx_old, deltas[0].row_idx_new), (None, Some(1)));
    assert_eq!((deltas[0].old_value.as_str(), deltas[0].new_value.as_str()), ("", "a"));
    assert_eq!(deltas[0].status, "Added");
    assert_eq!(deltas[0].change_kinds, vec!["Added"]);
    assert_eq!(deltas[0].formatting_changes, vec!["style_added"]);
    assert_eq!(deltas[1].change_kinds, vec!["Added", "Formula", "Style"]);
    assert_eq!(deltas[1].new_formula.as_deref(), Some("1+2"));
    assert_eq!(deltas[1].new_style_id, Some(7));
    assert_eq!(deltas[1].old_style_id, None);
}

#[test]
fn deltas_come_in_the_order_of_the_rows() {
    let n = 500;
    let old: Vec<Vec<Data>> = (0..n).map(|i| vec![Data::Int(i), Data::Int(0)]).collect();
    let new: Vec<Vec<Data>> = (0..n).map(|i| vec![Data::Int(i + 1), Data::Int(1)]).collect();
    let rows: Vec<AlignedRow> =
        (0..n as usize).map(|i| aligned(RowAlignment::Matched(i, i))).collect();
    let deltas = values_only(&old, &new, &rows);
    let places: Vec<(usize, usize)> =
        deltas.iter().map(|d| (d.row_idx_old.unwrap(), d.col_idx)).collect();
    let expected: Vec<(usize, usize)> =
        (0..n as usize).flat_map(|i| vec![(i, 0), (i, 1)]).collect();
    assert_eq!(places, expected);
}

#[test]
fn reversing_a_comparison_exchanges_the_sides() {
    let old = vec![row(&["a", "b", ""])];
    let new = vec![row(&["a", "c"])];
    let forth = values_only(&old, &new, &[aligned(RowAlignment::Matched(0, 0))]);
    let back = values_only(&new, &old, &[aligned(RowAlignment::Matched(0, 0))]);
    assert_eq!(forth.len(), back.len());
    for (f, b) in forth.iter().zip(&back) {
        assert_eq!((&f.old_value, &f.new_value), (&b.new_value, &b.old_value));
        assert_eq!((&f.status, &f.change_kinds), (&b.status, &b.change_kinds));
    }
}

fn snapshot(values: Vec<Vec<Data>>) -> SheetSnapshot {
    SheetSnapshot { values, formulas: vec![], style_ids: None }
}

#[test]
fn floats_are_asked_about() {
    let old = vec![vec![text("k"), Data::Float("1".to_string()), Data::Int(2), Data::Int(3)]];
    let new = vec![
        vec![text("n")],
        vec![
            text("k"),
            Data::Int(1),
            Data::Float("2.5".to_string()),
            Data::Int(3),
            Data::Float("9".to_string()),
        ],
    ];
    let asked = RefCell::new(Vec::new());
    let close = |o: usize, w: usize, c: usize| {
        asked.borrow_mut().push((o, w, c));
        c == 1
    };
    let rows = align_rows(&old, &new, Some(0), 0, &close);
    assert_eq!(*asked.borrow(), vec![(0, 1, 1), (0, 1, 2)]);
    assert_eq!(rows.len(), 2);
    assert_eq!(rows[0].alignment, RowAlignment::Added(0));
    assert_eq!(rows[1].alignment, RowAlignment::Matched(0, 1));
    let deltas = values_only(&old, &new, &rows);
    let cols: Vec<(Option<usize>, usize)> =
        deltas.iter().map(|d| (d.row_idx_old, d.col_idx)).collect();
    assert_eq!(cols, vec![(None, 0), (Some(0), 2), (Some(0), 4)]);
}

#[test]
fn a_sheet_does_not_differ_from_itself() {
    let mut sheet = snapshot(vec![
        vec![text("a"), Data::Float("0.1".to_string())],
        vec![],
        vec![Data::Empty, Data::Bool(true)],
    ]);
    sheet.formulas = vec![strings(&["", "B2"])];
    sheet.style_ids = Some(vec![vec![Some(3), None, Some(1)]]);
    let yes = |_: usize, _: usize, _: usize| true;
    for limit in [0, 100] {
        let deltas = diff_snapshots(&sheet, &sheet, None, None, None, limit, &yes);
        assert!(deltas.is_empty());
    }
    let keyed = snapshot(vec![row(&["1", "x"]), row(&["2", "x"]), row(&["3", ""])]);
    assert!(diff_snapshots(&keyed, &keyed, None, None, Some(0), 0, &yes).is_empty());
    assert!(!diff_snapshots(&keyed, &keyed, None, None, Some(1), 0, &yes).is_empty());
    let no = |_: usize, _: usize, _: usize| false;
    let deltas = diff_snapshots(&sheet, &sheet, None, None, None, 100, &no);
    assert_eq!(deltas.len(), 1);
    assert_eq!((deltas[0].row_idx_old, deltas[0].col_idx), (Some(0), 1));
}

#[test]
fn shuffled_rows_with_keys_show_no_change() {
    let old = snapshot(vec![row(&["1", "x"]), row(&["2", "y"]), row(&["3", "z"])]);
    let new = snapshot(vec![row(&["3", "z"]), row(&["1", "x"]), row(&["2", " y "])]);
    let yes = |_: usize, _: usize, _: usize| true;
    assert!(diff_snapshots(&old, &new, None, None, Some(0), 0, &yes).is_empty());
    assert!(!diff_snapshots(&old, &new, None, None, None, 100, &yes).is_empty());
}

#[test]
fn a_compared_sheet_has_its_row_counts() {
    let old = snapshot(vec![row(&["a"]), row(&["b"])]);
    let new = snapshot(vec![row(&["a"])]);
    let yes = |_: usize, _: usize, _: usize| true;
    let sheet = compare_sheet("S", &old, &new, None, None, None, 100, &yes);
    assert_eq!(sheet.sheet_name, "S");
    assert_eq!((sheet.row_count_old, sheet.row_count_new), (2, 1));
    assert_eq!(sheet.cell_deltas.len(), 1);
    let copy = sheet.cell_deltas[0].clone();
    assert_eq!(copy.status, "Deleted");
    assert_eq!(copy.old_value, "b");
}

#[test]
fn styles_are_looked_up_in_each_catalog() {
    let mut old = snapshot(vec![row(&["a", "b"])]);
    old.style_ids = Some(vec![vec![Some(0), Some(5)]]);
    let mut new = snapshot(vec![row(&["a", "b"])]);
    new.style_ids = Some(vec![vec![Some(0), Some(5)]]);
    let old_catalog = StyleCatalog { styles: vec![profile(0, "fontId=1")] };
    let new_catalog = StyleCatalog { styles: vec![profile(0, "fontId=2")] };
    let yes = |_: usize, _: usize, _: usize| true;
    let deltas =
        diff_snapshots(&old, &new, Some(&old_catalog), Some(&new_catalog), None, 100, &yes);
    assert_eq!(deltas.len(), 1);
    assert_eq!(deltas[0].formatting_changes, vec!["font"]);
    let deltas = diff_snapshots(&old, &new, Some(&old_catalog), None, None, 100, &yes);
    assert_eq!(deltas.len(), 1);
    assert_eq!(
        deltas[0].formatting_changes,
        vec!["font", "fill", "border", "alignment", "protection"]
    );
}
