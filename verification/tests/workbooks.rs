use std::collections::HashSet;
use xl_diff::cell::Data;
use xl_diff::delta::{report_deleted_cell, CellSide};
use xl_diff::fingerprint::{sheet_signature, SheetSnapshot};
use xl_diff::plan::{plan_sheets, selected_sheet_filter, should_compare_sheet};
use xl_diff::rename::{find_renames, match_sheets, sheet_entry, signature_order, SheetEntry};
use xl_diff::report::{workbook_report, ComparedSheet};
use xl_diff::settings::{
    env_u64, env_usize, is_xlsx_like_extension, is_xlsx_like_path, worker_threads,
    DEFAULT_LCS_MAX_PAIRWISE, DEFAULT_MAX_CELL_COUNT, DEFAULT_MAX_INPUT_BYTES,
};

fn strings(items: &[&str]) -> Vec<String> {
    items.iter().map(|s| s.to_string()).collect()
}

#[test]
fn test_sheet_name_selection_and_classification() {
    let old = vec!["Sheet1".to_string(), "Sheet2".to_string()];
    let new = vec!["Sheet2".to_string(), "Sheet3".to_string()];

    let old_set: HashSet<String> = old.iter().cloned().collect();
    let new_set: HashSet<String> = new.iter().cloned().collect();

    let deleted: Vec<_> = old.iter().filter(|s| !new_set.contains(*s)).cloned().collect();
    let added: Vec<_> = new.iter().filter(|s| !old_set.contains(*s)).cloned().collect();

    assert_eq!(deleted, vec!["Sheet1".to_string()]);
    assert_eq!(added, vec!["Sheet3".to_string()]);

    let selected = selected_sheet_filter(Some(vec!["Sheet2".to_string()]));
    assert!(should_compare_sheet("Sheet2", selected.as_ref()));
    assert!(!should_compare_sheet("Sheet1", selected.as_ref()));

    let plan = plan_sheets(&old, &new, &selected);
    assert_eq!(plan.deleted, deleted);
    assert_eq!(plan.added, added);
    assert_eq!(plan.compared, vec!["Sheet2".to_string()]);
}

#[test]
fn without_a_selection_every_sheet_is_compared() {
    let none = selected_sheet_filter(None);
    assert!(should_compare_sheet("any", none.as_ref()));
    let names = strings(&["b", "a", "c"]);
    let plan = plan_sheets(&names, &names, &none);
    assert_eq!(plan.compared, names);
    assert!(plan.deleted.is_empty() && plan.added.is_empty());
}

#[test]
fn the_selection_bears_on_common_sheets_only() {
    let selected = selected_sheet_filter(Some(vec![]));
    let plan = plan_sheets(&strings(&["a", "b"]), &strings(&["b", "c"]), &selected);
    assert_eq!(plan.deleted, strings(&["a"]));
    assert_eq!(plan.added, strings(&["c"]));
    assert!(plan.compared.is_empty());
}

fn entry(name: &str, signature: &str, row_count: usize) -> SheetEntry {
    SheetEntry { name: name.to_string(), signature: signature.to_string(), row_count }
}

fn names(entries: &[SheetEntry]) -> Vec<&str> {
    entries.iter().map(|e| e.name.as_str()).collect()
}

#[test]
fn sheets_with_the_same_contents_are_renamed() {
    let deleted = vec![entry("a", "1", 3), entry("b", "2", 4), entry("c", "1", 5)];
    let added = vec![entry("x", "3", 6), entry("y", "1", 7), entry("z", "2", 8)];
    let matches = find_renames(&deleted, &added);
    let pairs: Vec<(&str, &str)> =
        matches.renamed.iter().map(|(d, a)| (d.name.as_str(), a.name.as_str())).collect();
    assert_eq!(pairs, vec![("a", "y"), ("b", "z")]);
    assert_eq!(names(&matches.deleted), vec!["c"]);
    assert_eq!(names(&matches.added), vec!["x"]);
}

#[test]
fn the_order_of_signatures_decides_only_on_order() {
    let deleted = vec![entry("a", "1", 3), entry("b", "2", 4)];
    let added = vec![entry("y", "1", 7), entry("z", "2", 8)];
    assert_eq!(signature_order(&deleted, &added), strings(&["1", "2"]));
    let matches = match_sheets(&deleted, &added, &strings(&["2", "1"]));
    let pairs: Vec<(&str, &str)> =
        matches.renamed.iter().map(|(d, a)| (d.name.as_str(), a.name.as_str())).collect();
    assert_eq!(pairs, vec![("b", "z"), ("a", "y")]);
}

#[test]
fn entries_of_sheets() {
    let snapshot = SheetSnapshot {
        values: vec![vec![Data::Int(1)], vec![]],
        formulas: vec![],
        style_ids: None,
    };
    let e = sheet_entry("S", &snapshot);
    assert_eq!((e.name.as_str(), e.row_count), ("S", 2));
    assert_eq!(e.signature, sheet_signature(&snapshot));
}

#[test]
fn a_report_on_two_workbooks() {
    let value = Data::Int(4);
    let cell = CellSide { value: &value, formula: "2+2", style: None };
    let changed = ComparedSheet {
        sheet_name: "main".to_string(),
        row_count_old: 2,
        row_count_new: 1,
        cell_deltas: vec![
            report_deleted_cell(1, 0, cell).unwrap(),
            report_deleted_cell(1, 1, CellSide { formula: "", ..cell }).unwrap(),
        ],
    };
    let same = ComparedSheet {
        sheet_name: "same".to_string(),
        row_count_old: 9,
        row_count_new: 9,
        cell_deltas: vec![],
    };
    let deleted = vec![entry("gone", "1", 3), entry("before", "2", 4)];
    let added = vec![entry("after", "2", 4), entry("fresh", "3", 6)];
    let report = workbook_report(
        "old.xlsx",
        "new.xlsx",
        strings(&["main", "same"]),
        4,
        5,
        vec![changed, same],
        &deleted,
        &added,
    );
    assert_eq!((report.old_file.as_str(), report.new_file.as_str()), ("old.xlsx", "new.xlsx"));
    assert_eq!(report.selected_sheets, strings(&["main", "same"]));
    let rows: Vec<(&str, &str, Option<usize>, Option<usize>)> = report
        .sheets
        .iter()
        .map(|s| (s.sheet_name.as_str(), s.status.as_str(), s.row_count_old, s.row_count_new))
        .collect();
    assert_eq!(
        rows,
        vec![
            ("after", "Renamed", Some(4), Some(4)),
            ("main", "Compared", Some(2), Some(1)),
            ("same", "Unchanged", Some(9), Some(9)),
            ("gone", "Deleted", Some(3), None),
            ("fresh", "Added", None, Some(6)),
        ]
    );
    assert_eq!(report.sheets[0].renamed_from.as_deref(), Some("before"));
    assert_eq!(report.sheets[0].renamed_to.as_deref(), Some("after"));
    assert_eq!(report.sheets[1].value_changed_cells, 2);
    assert_eq!(report.sheets[1].formula_changed_cells, 1);
    assert_eq!(report.sheets[1].style_changed_cells, 0);
    let s = report.summary;
    assert_eq!((s.total_sheets_old, s.total_sheets_new), (4, 5));
    assert_eq!((s.compared_sheets, s.changed_sheets), (2, 1));
    assert_eq!((s.renamed_sheets, s.deleted_sheets, s.added_sheets), (1, 1, 1));
    assert_eq!(s.changed_cells, 2);
    assert_eq!(
        (s.value_changed_cells, s.formula_changed_cells, s.style_changed_cells),
        (2, 1, 0)
    );
}

#[test]
fn every_sheet_is_reported_once() {
    let old = strings(&["a", "b", "c", "d"]);
    let new = strings(&["d", "x", "b", "y", "z"]);
    let plan = plan_sheets(&old, &new, &None);
    let compared = plan
        .compared
        .iter()
        .map(|name| ComparedSheet {
            sheet_name: name.clone(),
            row_count_old: 1,
            row_count_new: 1,
            cell_deltas: vec![],
        })
        .collect();
    let deleted: Vec<SheetEntry> =
        plan.deleted.iter().map(|name| entry(name, if name == "a" { "1" } else { "2" }, 1)).collect();
    let added: Vec<SheetEntry> =
        plan.added.iter().map(|name| entry(name, if name == "y" { "2" } else { "3" }, 1)).collect();
    let report =
        workbook_report("o", "n", vec![], old.len(), new.len(), compared, &deleted, &added);
    let s = report.summary;
    assert_eq!((s.compared_sheets, s.renamed_sheets), (2, 1));
    assert_eq!(s.compared_sheets + s.deleted_sheets + s.renamed_sheets, s.total_sheets_old);
    assert_eq!(s.compared_sheets + s.added_sheets + s.renamed_sheets, s.total_sheets_new);
    assert_eq!(
        report.sheets.len(),
        s.compared_sheets + s.added_sheets + s.deleted_sheets + s.renamed_sheets
    );
    let mut old_names: Vec<String> = report
        .sheets
        .iter()
        .filter(|r| r.row_count_old.is_some())
        .map(|r| r.renamed_from.clone().unwrap_or(r.sheet_name.clone()))
        .collect();
    old_names.sort();
    assert_eq!(old_names, old);
    let mut new_names: Vec<String> = report
        .sheets
        .iter()
        .filter(|r| r.row_count_new.is_some())
        .map(|r| r.sheet_name.clone())
        .collect();
    new_names.sort();
    assert_eq!(new_names, strings(&["b", "d", "x", "y", "z"]));
}

#[test]
fn the_names_of_the_files_do_not_matter() {
    let deleted = vec![entry("a", "1", 3)];
    let added = vec![entry("b", "1", 3)];
    let report = |old: &str, new: &str| {
        workbook_report(old, new, vec![], 1, 1, vec![], &deleted, &added)
    };
    let x = report("x.xlsx", "y.xlsx");
    let y = report("u.xlsx", "v.xlsx").clone();
    assert_eq!(x.summary, y.summary);
    assert_eq!(format!("{:?}", x.sheets), format!("{:?}", y.sheets));
    assert_eq!((y.old_file.as_str(), y.new_file.as_str()), ("u.xlsx", "v.xlsx"));
}

#[test]
fn an_empty_cell_of_a_deleted_row_is_not_reported() {
    let value = Data::Empty;
    let cell = CellSide { value: &value, formula: "A1", style: None };
    assert!(report_deleted_cell(0, 0, cell).is_none());
}

#[test]
fn settings_fall_back() {
    assert_eq!(env_u64(None, 5), 5);
    assert_eq!(env_u64(Some("17"), 5), 17);
    assert_eq!(env_u64(Some("+17"), 5), 17);
    assert_eq!(env_u64(Some("x"), 5), 5);
    assert_eq!(env_u64(Some(""), 5), 5);
    assert_eq!(env_u64(Some("18446744073709551616"), 5), 5);
    assert_eq!(env_usize(Some("0"), 5), 0);
    assert_eq!(env_usize(Some("-1"), 5), 5);
    assert_eq!(env_usize(None, 5), 5);
    assert_eq!(DEFAULT_MAX_INPUT_BYTES, 200 * 1024 * 1024);
    assert_eq!(DEFAULT_MAX_CELL_COUNT, 10_000_000);
    assert_eq!(DEFAULT_LCS_MAX_PAIRWISE, 5_000_000);
}

#[test]
fn workbooks_by_extension() {
    for path in ["a.xlsx", "dir/b.XLSM", "/x/y.z/c.Xlam", "d.xlsx/", "e.xlsx/.", "..xlsx", ".b.xlsm"] {
        assert!(is_xlsx_like_path(path), "{}", path);
    }
    for path in ["", "a", "a.xls", "a.xlsb", ".xlsx", "a.xlsx.zip", "a.xlsx/..", "a.xlsx/b", "xlsx"] {
        assert!(!is_xlsx_like_path(path), "{}", path);
    }
    for path in ["C:/x/book.xlsx", "C:\\x.y\\book.XLSX", "d:book.xlsm", "a\\b:c.xlam"] {
        assert!(is_xlsx_like_path(path), "{}", path);
    }
    for path in ["C:/x/.xlsx", "C:/a.xlsx/b", "C:\\x\\book.xls", "C:\\xlsx", "\\\\host\\xlsx", "C:/x/.."] {
        assert!(!is_xlsx_like_path(path), "{}", path);
    }
    assert!(is_xlsx_like_extension(Some("xLsX")));
    assert!(!is_xlsx_like_extension(Some("xlsx ")));
    assert!(!is_xlsx_like_extension(None));
}

#[test]
fn one_processor_is_left_free() {
    assert_eq!(worker_threads(0), 1);
    assert_eq!(worker_threads(1), 1);
    assert_eq!(worker_threads(2), 1);
    assert_eq!(worker_threads(8), 7);
}
