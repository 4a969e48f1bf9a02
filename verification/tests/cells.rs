use xl_diff::cell::{cell_to_string, data_equal_with_tolerance, CellErrorType, Data};
use xl_diff::grid::{
    check_input_size, checked_sheet_rows, ensure_matrix_slot, store_style,
    trim_trailing_empty_rows, trim_trailing_none_rows,
};
use xl_diff::reference::{
    excel_cell_ref_to_indices, excel_column_to_index, locate_cell, CellPlace,
};
use xl_diff::text::{i64_text, parse_index, parse_numeral, trim, u64_text, white_space};

fn text(s: &str) -> Data {
    Data::String(s.to_string())
}

fn float(x: f64) -> Data {
    Data::Float(x.to_string())
}

fn equal_within(a: &Data, b: &Data, x: f64, y: f64, eps: f64) -> bool {
    data_equal_with_tolerance(a, b, (x - y).abs() <= eps)
}

#[test]
fn test_trim_trailing_empty_rows() {
    let rows = vec![vec![text("a")], vec![Data::Empty], vec![Data::Empty]];
    let trimmed = trim_trailing_empty_rows(rows);
    assert_eq!(trimmed.len(), 1);
}

#[test]
fn test_data_equality_tolerance() {
    let a = Data::Int(100);
    let b = float(100.0);
    assert!(equal_within(&a, &b, 100.0, 100.0, 1e-9));

    let x = float(1.000000001);
    let y = float(1.000000002);
    assert!(equal_within(&x, &y, 1.000000001, 1.000000002, 1e-8));
}

#[test]
fn floats_outside_the_tolerance_differ() {
    assert!(!equal_within(&float(1.0), &float(1.5), 1.0, 1.5, 1e-9));
    assert!(!equal_within(&Data::Int(1), &float(1.5), 1.0, 1.5, 1e-9));
    assert!(!equal_within(&float(1.5), &Data::Int(1), 1.5, 1.0, 1e-9));
}

#[test]
fn closeness_is_read_for_floats_only() {
    assert!(!data_equal_with_tolerance(&Data::Int(1), &Data::Int(2), true));
    assert!(data_equal_with_tolerance(&Data::Int(2), &Data::Int(2), false));
    assert!(data_equal_with_tolerance(&text("1.5"), &float(1.5), false));
}

#[test]
fn cells_of_other_kinds_are_equal_by_text() {
    assert!(data_equal_with_tolerance(&text(" a "), &text("a"), false));
    assert!(!data_equal_with_tolerance(&text("A"), &text("a"), false));
    assert!(data_equal_with_tolerance(&Data::Bool(true), &text("true"), false));
    assert!(!data_equal_with_tolerance(&Data::Bool(true), &Data::Bool(false), false));
    assert!(data_equal_with_tolerance(&Data::Int(5), &text("5"), false));
    assert!(data_equal_with_tolerance(&Data::Empty, &text("  "), false));
    assert!(data_equal_with_tolerance(&Data::Empty, &Data::Empty, false));
    assert!(data_equal_with_tolerance(&Data::Error(CellErrorType::NA), &text("NA"), false));
}

#[test]
fn equality_does_not_depend_on_the_order() {
    let cells = vec![
        Data::Int(3),
        float(3.0),
        text("3"),
        Data::Bool(false),
        Data::DateTime("45000.5".to_string()),
        Data::DateTimeIso("2024-01-01".to_string()),
        Data::DurationIso("PT1H".to_string()),
        Data::Error(CellErrorType::Div0),
        Data::Empty,
    ];
    for a in &cells {
        assert!(data_equal_with_tolerance(a, a, true));
        for b in &cells {
            for close in [false, true] {
                assert_eq!(
                    data_equal_with_tolerance(a, b, close),
                    data_equal_with_tolerance(b, a, close)
                );
            }
        }
    }
}

#[test]
fn texts_of_cells() {
    assert_eq!(cell_to_string(&Data::Int(-42)), "-42");
    assert_eq!(cell_to_string(&Data::Int(i64::MIN)), i64::MIN.to_string());
    assert_eq!(cell_to_string(&Data::Int(0)), "0");
    assert_eq!(cell_to_string(&float(2.5)), "2.5");
    assert_eq!(cell_to_string(&text(" \t x y\n")), "x y");
    assert_eq!(cell_to_string(&Data::Bool(true)), "true");
    assert_eq!(cell_to_string(&Data::Bool(false)), "false");
    assert_eq!(cell_to_string(&Data::DateTime("45000".to_string())), "45000");
    assert_eq!(cell_to_string(&Data::DateTimeIso(" iso ".to_string())), " iso ");
    assert_eq!(cell_to_string(&Data::DurationIso("PT5M".to_string())), "PT5M");
    assert_eq!(cell_to_string(&Data::Empty), "");
}

#[test]
fn texts_of_errors() {
    let names = vec![
        (CellErrorType::Div0, "Div0"),
        (CellErrorType::NA, "NA"),
        (CellErrorType::Name, "Name"),
        (CellErrorType::Null, "Null"),
        (CellErrorType::Num, "Num"),
        (CellErrorType::Ref, "Ref"),
        (CellErrorType::Value, "Value"),
        (CellErrorType::GettingData, "GettingData"),
    ];
    for (error, name) in names {
        assert_eq!(cell_to_string(&Data::Error(error)), name);
        assert_eq!(format!("{:?}", error), name);
    }
}

#[test]
fn white_space_is_that_of_char() {
    for code in 0..0x110000u32 {
        if let Some(c) = char::from_u32(code) {
            assert_eq!(white_space(c), c.is_whitespace(), "{:x}", code);
        }
    }
}

#[test]
fn trim_is_that_of_str() {
    for s in ["", " ", "a", " a", "a ", "\u{3000}a b\u{a0}", "\u{200b}x", "\r\n\t"] {
        assert_eq!(trim(s), s.trim());
        assert_eq!(trim(&trim(s)), trim(s));
    }
}

#[test]
fn numbers_in_decimal() {
    for n in [0u64, 7, 10, 99, 1234567890, u64::MAX] {
        assert_eq!(u64_text(n), n.to_string());
        assert_eq!(parse_numeral(&u64_text(n), u64::MAX), Some(n));
    }
    for n in [0i64, -1, 55, i64::MIN, i64::MAX] {
        assert_eq!(i64_text(n), n.to_string());
    }
}

#[test]
fn numerals_are_read_like_std() {
    for s in ["", "+", "-1", "+7", "007", "12a", " 5", "4294967295", "4294967296", "\u{661}"] {
        assert_eq!(parse_index(s), s.parse::<usize>().ok(), "{}", s);
        assert_eq!(
            parse_numeral(s, u32::MAX as u64),
            s.parse::<u32>().ok().map(|n| n as u64),
            "{}",
            s
        );
    }
    assert_eq!(parse_index("18446744073709551616"), None);
}

#[test]
fn blank_rows_inside_are_kept() {
    let rows = vec![vec![], vec![Data::Empty], vec![Data::Empty, Data::Int(1)], vec![]];
    assert_eq!(trim_trailing_empty_rows(rows).len(), 3);
    assert_eq!(trim_trailing_empty_rows(vec![vec![], vec![]]).len(), 0);
    assert_eq!(trim_trailing_empty_rows(vec![vec![text("")]]).len(), 1);
}

#[test]
fn blank_rows_at_the_end_make_no_difference() {
    let rows = || vec![vec![Data::Int(1)], vec![Data::Empty], vec![text("x")]];
    let mut longer = rows();
    longer.push(vec![Data::Empty, Data::Empty]);
    longer.push(vec![]);
    assert_eq!(
        format!("{:?}", trim_trailing_empty_rows(longer)),
        format!("{:?}", trim_trailing_empty_rows(rows()))
    );
}

#[test]
fn rows_without_styles_are_dropped_at_the_end() {
    let rows = vec![vec![None], vec![None, Some(3)], vec![None, None], vec![]];
    assert_eq!(trim_trailing_none_rows(rows), vec![vec![None], vec![None, Some(3)]]);
    assert_eq!(trim_trailing_none_rows(vec![vec![None]]), Vec::<Vec<Option<u32>>>::new());
}

#[test]
fn a_slot_is_made_once() {
    let mut matrix: Vec<Vec<Option<u32>>> = vec![vec![Some(9)]];
    ensure_matrix_slot(&mut matrix, 2, 1);
    assert_eq!(matrix, vec![vec![Some(9)], vec![], vec![None, None]]);
    ensure_matrix_slot(&mut matrix, 0, 0);
    assert_eq!(matrix, vec![vec![Some(9)], vec![], vec![None, None]]);
}

#[test]
fn a_stored_style_is_read_back() {
    let mut matrix: Vec<Vec<Option<u32>>> = vec![vec![Some(9)]];
    store_style(&mut matrix, 1, 2, Some(5));
    assert_eq!(matrix, vec![vec![Some(9)], vec![None, None, Some(5)]]);
    store_style(&mut matrix, 1, 2, None);
    assert_eq!(matrix[1][2], None);
    assert_eq!(matrix[0][0], Some(9));
}

#[test]
fn columns_by_letter() {
    assert_eq!(excel_column_to_index("A"), Some(0));
    assert_eq!(excel_column_to_index("Z"), Some(25));
    assert_eq!(excel_column_to_index("AA"), Some(26));
    assert_eq!(excel_column_to_index("XFD"), Some(16383));
    assert_eq!(excel_column_to_index("xfd"), Some(16383));
    assert_eq!(excel_column_to_index(""), None);
    assert_eq!(excel_column_to_index("A1"), None);
    assert_eq!(excel_column_to_index("\u{c4}"), None);
}

#[test]
fn cell_references() {
    assert_eq!(excel_cell_ref_to_indices("A1"), Some((0, 0)));
    assert_eq!(excel_cell_ref_to_indices("$C$10"), Some((9, 2)));
    assert_eq!(excel_cell_ref_to_indices("B0"), Some((0, 1)));
    assert_eq!(excel_cell_ref_to_indices("1A2"), Some((11, 0)));
    assert_eq!(excel_cell_ref_to_indices("A"), None);
    assert_eq!(excel_cell_ref_to_indices("12"), None);
    assert_eq!(excel_cell_ref_to_indices(""), None);
}

#[test]
fn columns_beyond_an_index() {
    let far = format!("{}1", "Z".repeat(20));
    assert!(matches!(locate_cell(&far), CellPlace::TooFar));
    let no_row = "Z".repeat(20);
    assert!(matches!(locate_cell(&no_row), CellPlace::Nowhere));
    assert!(matches!(locate_cell("C4"), CellPlace::At(3, 2)));
}

#[test]
fn large_files_are_refused() {
    assert_eq!(check_input_size(Some(10), 10), Ok(()));
    assert_eq!(check_input_size(None, 0), Ok(()));
    assert_eq!(
        check_input_size(Some(11), 10),
        Err("Input file too large (> 10 bytes)".to_string())
    );
}

#[test]
fn unread_sheets_are_an_error() {
    let error = checked_sheet_rows(None, "Data", 10).err();
    assert_eq!(error, Some("Sheet 'Data' not found or failed to parse.".to_string()));
}

#[test]
fn large_sheets_are_refused() {
    let rows = || vec![vec![Data::Int(1)], vec![Data::Empty, Data::Empty, Data::Empty]];
    let error = checked_sheet_rows(Some(rows()), "S", 5).err();
    assert_eq!(error, Some("Sheet has too many cells (6) > limit 5".to_string()));
    let kept = checked_sheet_rows(Some(rows()), "S", 6).unwrap();
    assert_eq!(kept.len(), 1);
    assert_eq!(checked_sheet_rows(Some(vec![]), "S", 0).unwrap().len(), 0);
}
