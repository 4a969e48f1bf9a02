use xl_diff::align::{align_by_fingerprints, align_matrices, RowAlignment};
use xl_diff::cell::Data;
use xl_diff::fingerprint::{
    combine_row_signatures, digest_text, row_digest_input, row_fingerprint_hex,
    row_signature_input, sheet_signature, short_digest_text, SheetSnapshot,
};
use xl_diff::lcs::lcs_matches;
use xl_diff::settings::DEFAULT_LCS_MAX_PAIRWISE;

fn text(s: &str) -> Data {
    Data::String(s.to_string())
}

fn row(cells: &[&str]) -> Vec<Data> {
    cells.iter().map(|s| if s.is_empty() { Data::Empty } else { text(s) }).collect()
}

fn strings(items: &[&str]) -> Vec<String> {
    items.iter().map(|s| s.to_string()).collect()
}

#[test]
fn test_align_lcs_small() {
    let old = vec![
        vec![text("k1"), text("a")],
        vec![text("k2"), text("b")],
        vec![text("kx"), text("x")],
    ];
    let new = vec![
        vec![text("k1"), text("a")],
        vec![text("k2"), text("b")],
        vec![text("k3"), text("c")],
    ];
    let align = align_matrices(&old, &new, None, DEFAULT_LCS_MAX_PAIRWISE);
    let matched = align.iter().filter(|a| matches!(a, RowAlignment::Matched(_, _))).count();
    assert!(matched >= 2);
    assert_eq!(
        align,
        vec![
            RowAlignment::Matched(0, 0),
            RowAlignment::Matched(1, 1),
            RowAlignment::Deleted(2),
            RowAlignment::Added(2),
        ]
    );
}

#[test]
fn an_inserted_row_shifts_the_others() {
    let old = vec![row(&["a"]), row(&["b"])];
    let new = vec![row(&["x"]), row(&["a"]), row(&["b"])];
    assert_eq!(
        align_matrices(&old, &new, None, 100),
        vec![
            RowAlignment::Added(0),
            RowAlignment::Matched(0, 1),
            RowAlignment::Matched(1, 2),
        ]
    );
}

#[test]
fn rows_are_matched_by_position_where_pairs_are_too_many() {
    let old = vec![row(&["a"]), row(&["b"]), row(&["c"])];
    let new = vec![row(&["b"]), row(&["c"])];
    assert_eq!(
        align_matrices(&old, &new, None, 5),
        vec![
            RowAlignment::Matched(0, 0),
            RowAlignment::Matched(1, 1),
            RowAlignment::Deleted(2),
        ]
    );
    assert_eq!(
        align_matrices(&old, &new, None, 6),
        vec![
            RowAlignment::Deleted(0),
            RowAlignment::Matched(1, 0),
            RowAlignment::Matched(2, 1),
        ]
    );
    assert_eq!(
        align_matrices(&new, &old, None, 5),
        vec![
            RowAlignment::Matched(0, 0),
            RowAlignment::Matched(1, 1),
            RowAlignment::Added(2),
        ]
    );
}

#[test]
fn an_empty_side_needs_no_pairs() {
    let rows = vec![row(&["a"]), row(&["b"])];
    assert_eq!(
        align_matrices(&rows, &[], None, 0),
        vec![RowAlignment::Deleted(0), RowAlignment::Deleted(1)]
    );
    assert_eq!(
        align_matrices(&[], &rows, None, 0),
        vec![RowAlignment::Added(0), RowAlignment::Added(1)]
    );
    assert_eq!(align_matrices(&[], &[], Some(0), 0), vec![]);
}

#[test]
fn rows_match_themselves() {
    let rows = vec![row(&["a"]), row(&["a"]), row(&["b", ""])];
    let diagonal = vec![
        RowAlignment::Matched(0, 0),
        RowAlignment::Matched(1, 1),
        RowAlignment::Matched(2, 2),
    ];
    assert_eq!(align_matrices(&rows, &rows, None, 0), diagonal);
    assert_eq!(align_matrices(&rows, &rows, None, 1000), diagonal);
}

#[test]
fn every_row_is_aligned_once() {
    let old = strings(&["a", "b", "c", "d", "b"]);
    let new = strings(&["b", "d", "x", "b", "c"]);
    for limit in [0, 24, 25, 1000] {
        let align = align_by_fingerprints(&old, &new, limit);
        let mut old_rows = Vec::new();
        let mut new_rows = Vec::new();
        for a in &align {
            match *a {
                RowAlignment::Matched(o, w) => {
                    old_rows.push(o);
                    new_rows.push(w);
                }
                RowAlignment::Deleted(o) => old_rows.push(o),
                RowAlignment::Added(w) => new_rows.push(w),
            }
        }
        assert_eq!(old_rows, vec![0, 1, 2, 3, 4]);
        assert_eq!(new_rows, vec![0, 1, 2, 3, 4]);
    }
}

#[test]
fn keys_find_moved_rows() {
    let old = vec![row(&["1", "a"]), row(&["2", "b"]), row(&["3", "c"])];
    let new = vec![row(&["3", "c"]), row(&["4", "d"]), row(&["1", "x"])];
    assert_eq!(
        align_matrices(&old, &new, Some(0), 0),
        vec![
            RowAlignment::Matched(2, 0),
            RowAlignment::Added(1),
            RowAlignment::Matched(0, 2),
            RowAlignment::Deleted(1),
        ]
    );
}

#[test]
fn keys_that_occur_twice() {
    let old = vec![row(&["k", "a"]), row(&["k", "b"])];
    let new = vec![row(&["k", "c"]), row(&[" k ", "d"])];
    assert_eq!(
        align_matrices(&old, &new, Some(0), 0),
        vec![
            RowAlignment::Matched(1, 0),
            RowAlignment::Matched(1, 1),
            RowAlignment::Deleted(0),
        ]
    );
}

#[test]
fn missing_and_empty_keys_match_nothing() {
    let old = vec![row(&["", "a"]), row(&["x"])];
    let new = vec![row(&["", "a"]), row(&[])];
    assert_eq!(
        align_matrices(&old, &new, Some(0), 0),
        vec![
            RowAlignment::Added(0),
            RowAlignment::Added(1),
            RowAlignment::Deleted(0),
            RowAlignment::Deleted(1),
        ]
    );
    assert_eq!(
        align_matrices(&old, &old, Some(7), 0),
        vec![
            RowAlignment::Added(0),
            RowAlignment::Added(1),
            RowAlignment::Deleted(0),
            RowAlignment::Deleted(1),
        ]
    );
}

#[test]
fn longest_common_subsequences() {
    let a = strings(&["a", "b", "c", "b", "d", "a", "b"]);
    let b = strings(&["b", "d", "c", "a", "b", "a"]);
    let pairs = lcs_matches(&a, &b, 1000).unwrap();
    assert_eq!(pairs.len(), 4);
    for window in pairs.windows(2) {
        assert!(window[0].0 < window[1].0 && window[0].1 < window[1].1);
    }
    for (i, j) in &pairs {
        assert_eq!(a[*i], b[*j]);
    }
    assert_eq!(lcs_matches(&a, &b, 41), None);
    assert_eq!(lcs_matches(&a, &b, 42).map(|p| p.len()), Some(4));
    assert_eq!(lcs_matches(&a, &[], 0), Some(vec![]));
    assert_eq!(lcs_matches(&a[0..1], &a[1..2], 1), Some(vec![]));
    assert_eq!(
        lcs_matches(&a[0..3], &a[0..3], 9),
        Some(vec![(0, 0), (1, 1), (2, 2)])
    );
}

#[test]
fn fingerprints_are_digests_of_texts() {
    assert_eq!(row_fingerprint_hex(&[]), "af1349b9f5f9a1a6");
    let cells = vec![text(" k1 "), Data::Int(7), Data::Empty];
    let bytes = b"k1\x1f7\x1f\x1f";
    assert_eq!(row_digest_input(&cells), bytes.to_vec());
    let expected = blake3::hash(bytes).to_hex().as_str()[0..16].to_string();
    assert_eq!(row_fingerprint_hex(&cells), expected);
    assert_ne!(row_fingerprint_hex(&row(&["a"])), row_fingerprint_hex(&row(&["b"])));
}

#[test]
fn rows_with_the_same_texts_have_the_same_fingerprint() {
    let a = vec![text("5"), Data::Bool(true)];
    let b = vec![Data::Int(5), text(" true")];
    assert_eq!(row_fingerprint_hex(&a), row_fingerprint_hex(&b));
}

#[test]
fn digests_in_hexadecimal() {
    assert_eq!(digest_text(&[0x00, 0x0f, 0xa5, 0xff]), "000fa5ff");
    let bytes: Vec<u8> = (0xf6..=0xff).collect();
    assert_eq!(short_digest_text(&bytes), "f6f7f8f9fafbfcfd");
}

#[test]
fn signatures_of_rows() {
    let empty = "af1349b9f5f9a1a6a0404dea36dcc9499bcb25c9adc112b7cc9a93cae41f3262";
    assert_eq!(combine_row_signatures(0, &[], &[], None), empty);
    let values = vec![vec![], vec![Data::Int(1)]];
    let formulas = vec![vec![], vec!["".to_string(), "A1+1".to_string()]];
    let styles = vec![vec![], vec![Some(4), None, Some(0)]];
    let bytes = b"1\x1f\x1f4\x1f\x1fA1+1\x1f\x1f\x1f\x1f0\x1f";
    assert_eq!(row_signature_input(1, &values, &formulas, Some(&styles)), bytes.to_vec());
    assert_eq!(
        combine_row_signatures(1, &values, &formulas, Some(&styles)),
        hex::encode(blake3::hash(bytes).as_bytes())
    );
    assert_eq!(row_signature_input(2, &values, &formulas, Some(&styles)), Vec::<u8>::new());
    assert_eq!(row_signature_input(1, &values, &formulas, None), b"1\x1f\x1f\x1f\x1fA1+1\x1f\x1f");
}

#[test]
fn signatures_depend_on_columns_alone() {
    let a = combine_row_signatures(0, &[vec![Data::Int(5), Data::Empty]], &[], None);
    let b = combine_row_signatures(
        1,
        &[vec![], vec![text(" 5")]],
        &[vec![], strings(&["", ""])],
        Some(&[vec![], vec![None]]),
    );
    assert_eq!(a, b);
    assert_eq!(a.len(), 64);
    assert!(a.chars().all(|c| matches!(c, '0'..='9' | 'a'..='f')));
    let wider = combine_row_signatures(0, &[row(&["5", "", ""])], &[], None);
    assert_ne!(a, wider);
}

#[test]
fn sheets_with_the_same_rows_have_the_same_signature() {
    let x = SheetSnapshot {
        values: vec![vec![Data::Int(1)]],
        formulas: vec![vec![], strings(&["A1"])],
        style_ids: None,
    };
    let y = SheetSnapshot {
        values: vec![row(&["1"]), row(&[""])],
        formulas: vec![strings(&[""]), strings(&["A1"])],
        style_ids: Some(vec![]),
    };
    assert_eq!(sheet_signature(&x), sheet_signature(&y));
    assert_eq!(sheet_signature(&x).len(), 64);
    assert!(sheet_signature(&x).chars().all(|c| matches!(c, '0'..='9' | 'a'..='f')));
}

#[test]
fn signatures_of_sheets() {
    let snapshot = |cell: &str, style_ids| SheetSnapshot {
        values: vec![row(&[cell])],
        formulas: vec![],
        style_ids,
    };
    let a = snapshot("a", None);
    let expected = {
        let row_text = hex::encode(blake3::hash(b"a\x1f\x1f\x1f").as_bytes());
        let mut bytes = row_text.into_bytes();
        bytes.push(0x1f);
        hex::encode(blake3::hash(&bytes).as_bytes())
    };
    assert_eq!(sheet_signature(&a), expected);
    assert_ne!(sheet_signature(&a), sheet_signature(&snapshot("b", None)));
    assert_eq!(sheet_signature(&a), sheet_signature(&snapshot("a", Some(vec![]))));
    assert_ne!(sheet_signature(&a), sheet_signature(&snapshot("a", Some(vec![vec![Some(1)]]))));
    assert_ne!(sheet_signature(&a), sheet_signature(&snapshot("a", Some(vec![vec![], vec![]]))));
}
