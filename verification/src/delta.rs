//! The changes of single cells.

use crate::align::{
    alignment_in_bounds, fully_keyed, law_sheet_aligns_with_itself, row_alignment, RowAlignment,
};
use crate::cell::{
    cell_text, cell_to_string, cells_equal, data_equal_with_tolerance, float_pair,
    law_equality_is_symmetric, Data, DataView,
};
use crate::grid::{
    get_grid_row, get_item, greater, grid_row, grid_view, item_at, longer, row_width, width,
};
use crate::parallel::par_flat_map;
use crate::style::{
    compare_style_profiles, law_style_comparison_is_symmetric, law_style_unchanged, listed, note,
    noted, style_comparison, CellStyleProfile, StyleView,
};
use crate::text::same_text;
use vstd::prelude::*;

verus! {

/// What became of a cell.
#[derive(Debug)]
pub struct CellDelta {
    pub row_idx_old: Option<usize>,
    pub row_idx_new: Option<usize>,
    pub col_idx: usize,
    pub old_value: String,
    pub new_value: String,
    pub status: String,
    pub value_changed: bool,
    pub formula_changed: bool,
    pub style_changed: bool,
    pub old_formula: Option<String>,
    pub new_formula: Option<String>,
    pub old_style_id: Option<u32>,
    pub new_style_id: Option<u32>,
    pub change_kinds: Vec<String>,
    pub formatting_changed: bool,
    pub formatting_changes: Vec<String>,
    pub old_style_profile: Option<CellStyleProfile>,
    pub new_style_profile: Option<CellStyleProfile>,
}

#[verifier::ext_equal]
pub struct DeltaView {
    pub row_idx_old: Option<usize>,
    pub row_idx_new: Option<usize>,
    pub col_idx: usize,
    pub old_value: Seq<char>,
    pub new_value: Seq<char>,
    pub status: Seq<char>,
    pub value_changed: bool,
    pub formula_changed: bool,
    pub style_changed: bool,
    pub old_formula: Option<Seq<char>>,
    pub new_formula: Option<Seq<char>>,
    pub old_style_id: Option<u32>,
    pub new_style_id: Option<u32>,
    pub change_kinds: Seq<Seq<char>>,
    pub formatting_changed: bool,
    pub formatting_changes: Seq<Seq<char>>,
    pub old_style_profile: Option<StyleView>,
    pub new_style_profile: Option<StyleView>,
}

impl DeepView for CellDelta {
    type V = DeltaView;

    open spec fn deep_view(&self) -> DeltaView {
        DeltaView {
            row_idx_old: self.row_idx_old,
            row_idx_new: self.row_idx_new,
            col_idx: self.col_idx,
            old_value: self.old_value@,
            new_value: self.new_value@,
            status: self.status@,
            value_changed: self.value_changed,
            formula_changed: self.formula_changed,
            style_changed: self.style_changed,
            old_formula: self.old_formula.deep_view(),
            new_formula: self.new_formula.deep_view(),
            old_style_id: self.old_style_id,
            new_style_id: self.new_style_id,
            change_kinds: self.change_kinds.deep_view(),
            formatting_changed: self.formatting_changed,
            formatting_changes: self.formatting_changes.deep_view(),
            old_style_profile: self.old_style_profile.deep_view(),
            new_style_profile: self.new_style_profile.deep_view(),
        }
    }
}

impl Clone for CellDelta {
    fn clone(&self) -> (r: Self)
        ensures
            r.deep_view() == self.deep_view(),
    {
        let r = CellDelta {
            row_idx_old: self.row_idx_old,
            row_idx_new: self.row_idx_new,
            col_idx: self.col_idx,
            old_value: self.old_value.clone(),
            new_value: self.new_value.clone(),
            status: self.status.clone(),
            value_changed: self.value_changed,
            formula_changed: self.formula_changed,
            style_changed: self.style_changed,
            old_formula: self.old_formula.clone(),
            new_formula: self.new_formula.clone(),
            old_style_id: self.old_style_id,
            new_style_id: self.new_style_id,
            change_kinds: self.change_kinds.clone(),
            formatting_changed: self.formatting_changed,
            formatting_changes: self.formatting_changes.clone(),
            old_style_profile: self.old_style_profile.clone(),
            new_style_profile: self.new_style_profile.clone(),
        };
        proof {
            assert(r.change_kinds.deep_view() =~= self.change_kinds.deep_view());
            assert(r.formatting_changes.deep_view() =~= self.formatting_changes.deep_view());
        }
        r
    }
}

/// One side of a comparison: the value, formula and format of a cell.
#[derive(Clone, Copy)]
pub struct CellSide<'a> {
    pub value: &'a Data,
    pub formula: &'a str,
    pub style: Option<&'a CellStyleProfile>,
}

#[verifier::ext_equal]
pub struct CellView {
    pub value: DataView,
    pub formula: Seq<char>,
    pub style: Option<StyleView>,
}

impl<'a> DeepView for CellSide<'a> {
    type V = CellView;

    open spec fn deep_view(&self) -> CellView {
        CellView {
            value: self.value.deep_view(),
            formula: self.formula@,
            style: self.style.deep_view(),
        }
    }
}

/// A text, or `None` if it is empty.
pub open spec fn non_empty(text: Seq<char>) -> Option<Seq<char>> {
    if text.len() == 0 {
        None
    } else {
        Some(text)
    }
}

/// The number of a format.
pub open spec fn style_id_of(style: Option<StyleView>) -> Option<u32> {
    match style {
        Some(s) => Some(s.style_id),
        None => None,
    }
}

/// The status of a changed cell.
pub open spec fn change_status(value: bool, formula: bool, style: bool) -> Seq<char> {
    if formula && !value && !style {
        "FormulaModified"@
    } else if style && !value && !formula {
        "StyleModified"@
    } else if value && !formula && !style {
        "ValueModified"@
    } else {
        "Modified"@
    }
}

/// The kinds of a cell's changes.
pub open spec fn change_kinds(value: bool, formula: bool, style: bool, formatting: bool) -> Seq<
    Seq<char>,
> {
    let kinds = Seq::<Seq<char>>::empty();
    let kinds = noted(kinds, value, "Value"@);
    let kinds = noted(kinds, formula, "Formula"@);
    let kinds = noted(kinds, style, "Style"@);
    noted(kinds, formatting, "Formatting"@)
}

/// What became of a cell that is on both sides; `None` if nothing changed.
pub open spec fn matched_delta(
    old_idx: usize,
    new_idx: usize,
    col: usize,
    a: CellView,
    b: CellView,
    numbers_close: bool,
) -> Option<DeltaView> {
    let value_changed = !cells_equal(a.value, b.value, numbers_close);
    let formula_changed = a.formula != b.formula;
    let (style_changed, parts) = style_comparison(a.style, b.style);
    if value_changed || formula_changed || style_changed {
        Some(
            DeltaView {
                row_idx_old: Some(old_idx),
                row_idx_new: Some(new_idx),
                col_idx: col,
                old_value: cell_text(a.value),
                new_value: cell_text(b.value),
                status: change_status(value_changed, formula_changed, style_changed),
                value_changed,
                formula_changed,
                style_changed,
                old_formula: non_empty(a.formula),
                new_formula: non_empty(b.formula),
                old_style_id: style_id_of(a.style),
                new_style_id: style_id_of(b.style),
                change_kinds: change_kinds(
                    value_changed,
                    formula_changed,
                    style_changed,
                    parts.len() > 0,
                ),
                formatting_changed: style_changed,
                formatting_changes: parts,
                old_style_profile: a.style,
                new_style_profile: b.style,
            },
        )
    } else {
        None
    }
}

/// The kinds of the changes of a cell that is on one side only.
pub open spec fn lone_kinds(status: Seq<char>, cell: CellView) -> Seq<Seq<char>> {
    noted(
        noted(seq![status], cell.formula.len() > 0, "Formula"@),
        cell.style is Some,
        "Style"@,
    )
}

/// What became of a cell of a deleted row; `None` if it was empty.
pub open spec fn deleted_delta(old_idx: usize, col: usize, cell: CellView) -> Option<DeltaView> {
    if cell.value == DataView::Empty {
        None
    } else {
        Some(
            DeltaView {
                row_idx_old: Some(old_idx),
                row_idx_new: None,
                col_idx: col,
                old_value: cell_text(cell.value),
                new_value: Seq::empty(),
                status: "Deleted"@,
                value_changed: true,
                formula_changed: cell.formula.len() > 0,
                style_changed: cell.style is Some,
                old_formula: non_empty(cell.formula),
                new_formula: None,
                old_style_id: style_id_of(cell.style),
                new_style_id: None,
                change_kinds: lone_kinds("Deleted"@, cell),
                formatting_changed: cell.style is Some,
                formatting_changes: seq!["style_removed"@],
                old_style_profile: cell.style,
                new_style_profile: None,
            },
        )
    }
}

/// What became of a cell of an added row; `None` if it is empty.
pub open spec fn added_delta(new_idx: usize, col: usize, cell: CellView) -> Option<DeltaView> {
    if cell.value == DataView::Empty {
        None
    } else {
        Some(
            DeltaView {
                row_idx_old: None,
                row_idx_new: Some(new_idx),
                col_idx: col,
                old_value: Seq::empty(),
                new_value: cell_text(cell.value),
                status: "Added"@,
                value_changed: true,
                formula_changed: cell.formula.len() > 0,
                style_changed: cell.style is Some,
                old_formula: None,
                new_formula: non_empty(cell.formula),
                old_style_id: None,
                new_style_id: style_id_of(cell.style),
                change_kinds: lone_kinds("Added"@, cell),
                formatting_changed: cell.style is Some,
                formatting_changes: seq!["style_added"@],
                old_style_profile: None,
                new_style_profile: cell.style,
            },
        )
    }
}

/// An alignment of rows, with, for matched rows, whether the numbers in each
/// column are close.
#[derive(Debug)]
pub struct AlignedRow {
    pub alignment: RowAlignment,
    pub numbers_close: Vec<bool>,
}

#[verifier::ext_equal]
pub struct AlignedView {
    pub alignment: RowAlignment,
    pub numbers_close: Seq<bool>,
}

impl DeepView for AlignedRow {
    type V = AlignedView;

    open spec fn deep_view(&self) -> AlignedView {
        AlignedView { alignment: self.alignment, numbers_close: self.numbers_close@ }
    }
}

/// The grids of values, formulas and formats of one sheet.
pub struct SheetGrids<'a> {
    pub values: &'a [Vec<Data>],
    pub formulas: Option<&'a [Vec<String>]>,
    pub styles: Option<&'a [Vec<Option<CellStyleProfile>>]>,
}

#[verifier::ext_equal]
pub struct GridsView {
    pub values: Seq<Seq<DataView>>,
    pub formulas: Option<Seq<Seq<Seq<char>>>>,
    pub styles: Option<Seq<Seq<Option<StyleView>>>>,
}

impl<'a> DeepView for SheetGrids<'a> {
    type V = GridsView;

    open spec fn deep_view(&self) -> GridsView {
        GridsView {
            values: self.values.deep_view(),
            formulas: grid_view(self.formulas),
            styles: grid_view(self.styles),
        }
    }
}

/// The cell in row `row` and column `col`; what a grid lacks is empty.
pub open spec fn cell_at(grids: GridsView, row: int, col: int) -> CellView {
    CellView {
        value: item_at(Some(grids.values[row]), col, DataView::Empty),
        formula: item_at(grid_row(grids.formulas, row), col, Seq::empty()),
        style: item_at(grid_row(grids.styles, row), col, None),
    }
}

/// The number of columns in which a row holds anything.
pub open spec fn row_columns(grids: GridsView, row: int) -> nat {
    longer(
        longer(grids.values[row].len(), width(grid_row(grids.formulas, row))),
        width(grid_row(grids.styles, row)),
    )
}

/// `deltas` with `delta` added, if there is one.
pub open spec fn with_delta(deltas: Seq<DeltaView>, delta: Option<DeltaView>) -> Seq<DeltaView> {
    match delta {
        Some(d) => deltas.push(d),
        None => deltas,
    }
}

/// Whether the numbers in column `col` of two matched rows are close.
pub open spec fn close_at(numbers_close: Seq<bool>, col: int) -> bool {
    0 <= col < numbers_close.len() && numbers_close[col]
}

/// The change in column `col` of one alignment, if there is one.
pub open spec fn delta_at(old: GridsView, new: GridsView, row: AlignedView, col: int) -> Option<
    DeltaView,
> {
    match row.alignment {
        RowAlignment::Matched(o, w) => matched_delta(
            o,
            w,
            col as usize,
            cell_at(old, o as int, col),
            cell_at(new, w as int, col),
            close_at(row.numbers_close, col),
        ),
        RowAlignment::Deleted(o) => deleted_delta(o, col as usize, cell_at(old, o as int, col)),
        RowAlignment::Added(w) => added_delta(w, col as usize, cell_at(new, w as int, col)),
    }
}

/// The changes in the first `n` columns of one alignment.
pub open spec fn deltas_up_to(old: GridsView, new: GridsView, row: AlignedView, n: nat) -> Seq<
    DeltaView,
>
    decreases n,
{
    if n == 0 {
        Seq::empty()
    } else {
        with_delta(
            deltas_up_to(old, new, row, (n - 1) as nat),
            delta_at(old, new, row, n - 1),
        )
    }
}

/// The number of columns that are looked at for one alignment.
pub open spec fn compared_columns(old: GridsView, new: GridsView, row: AlignedView) -> nat {
    match row.alignment {
        RowAlignment::Matched(o, w) => longer(
            row_columns(old, o as int),
            row_columns(new, w as int),
        ),
        RowAlignment::Deleted(o) => old.values[o as int].len(),
        RowAlignment::Added(w) => new.values[w as int].len(),
    }
}

/// The changes of the cells of one alignment, column by column.
pub open spec fn row_deltas(old: GridsView, new: GridsView, row: AlignedView) -> Seq<DeltaView> {
    deltas_up_to(old, new, row, compared_columns(old, new, row))
}

/// The changes of all cells, alignment by alignment.
pub open spec fn sheet_deltas(old: GridsView, new: GridsView, rows: Seq<AlignedView>) -> Seq<
    DeltaView,
> {
    rows.map_values(|row: AlignedView| row_deltas(old, new, row)).flatten()
}

/// Whether the alignments speak only of rows that the sheets have.
pub open spec fn rows_in_bounds(rows: Seq<AlignedView>, n: nat, m: nat) -> bool {
    forall|k: int|
        0 <= k < rows.len() ==> alignment_in_bounds((#[trigger] rows[k]).alignment, n, m)
}

fn optional_text(text: &str) -> (r: Option<String>)
    ensures
        r.deep_view() == non_empty(text@),
{
    if text.is_empty() {
        None
    } else {
        Some(text.to_owned())
    }
}

fn optional_id(style: Option<&CellStyleProfile>) -> (r: Option<u32>)
    ensures
        r == style_id_of(style.deep_view()),
{
    match style {
        Some(profile) => Some(profile.style_id),
        None => None,
    }
}

fn optional_profile(style: Option<&CellStyleProfile>) -> (r: Option<CellStyleProfile>)
    ensures
        r.deep_view() == style.deep_view(),
{
    match style {
        Some(profile) => Some(profile.clone()),
        None => None,
    }
}

fn status_text(value: bool, formula: bool, style: bool) -> (r: String)
    ensures
        r@ == change_status(value, formula, style),
{
    if formula && !value && !style {
        "FormulaModified".to_owned()
    } else if style && !value && !formula {
        "StyleModified".to_owned()
    } else if value && !formula && !style {
        "ValueModified".to_owned()
    } else {
        "Modified".to_owned()
    }
}

/// Compares a cell that is on both sides.
pub fn compare_matched_cell(
    old_idx: usize,
    new_idx: usize,
    col: usize,
    old_cell: CellSide,
    new_cell: CellSide,
    numbers_close: bool,
) -> (r: Option<CellDelta>)
    ensures
        r.deep_view() == matched_delta(
            old_idx,
            new_idx,
            col,
            old_cell.deep_view(),
            new_cell.deep_view(),
            numbers_close,
        ),
{
    let value_changed = !data_equal_with_tolerance(old_cell.value, new_cell.value, numbers_close);
    let formula_changed = !same_text(old_cell.formula, new_cell.formula);
    let (style_changed, formatting_changes) = compare_style_profiles(
        old_cell.style,
        new_cell.style,
    );
    if !value_changed && !formula_changed && !style_changed {
        return None;
    }
    let mut kinds: Vec<String> = Vec::new();
    assert(kinds.deep_view() =~= Seq::empty());
    note(&mut kinds, value_changed, "Value");
    note(&mut kinds, formula_changed, "Formula");
    note(&mut kinds, style_changed, "Style");
    note(&mut kinds, formatting_changes.len() > 0, "Formatting");
    Some(
        CellDelta {
            row_idx_old: Some(old_idx),
            row_idx_new: Some(new_idx),
            col_idx: col,
            old_value: cell_to_string(old_cell.value),
            new_value: cell_to_string(new_cell.value),
            status: status_text(value_changed, formula_changed, style_changed),
            value_changed,
            formula_changed,
            style_changed,
            old_formula: optional_text(old_cell.formula),
            new_formula: optional_text(new_cell.formula),
            old_style_id: optional_id(old_cell.style),
            new_style_id: optional_id(new_cell.style),
            change_kinds: kinds,
            formatting_changed: style_changed,
            formatting_changes,
            old_style_profile: optional_profile(old_cell.style),
            new_style_profile: optional_profile(new_cell.style),
        },
    )
}

fn kinds_of_lone_cell(status: &str, cell: CellSide) -> (r: Vec<String>)
    ensures
        r.deep_view() == lone_kinds(status@, cell.deep_view()),
{
    let mut kinds: Vec<String> = Vec::new();
    kinds.push(status.to_owned());
    assert(kinds.deep_view() =~= seq![status@]);
    note(&mut kinds, !cell.formula.is_empty(), "Formula");
    note(&mut kinds, cell.style.is_some(), "Style");
    kinds
}

/// Reports a cell of a deleted row.
pub fn report_deleted_cell(old_idx: usize, col: usize, cell: CellSide) -> (r: Option<CellDelta>)
    ensures
        r.deep_view() == deleted_delta(old_idx, col, cell.deep_view()),
{
    if let Data::Empty = cell.value {
        return None;
    }
    let mut formatting_changes: Vec<String> = Vec::new();
    formatting_changes.push("style_removed".to_owned());
    assert(formatting_changes.deep_view() =~= seq!["style_removed"@]);
    let new_value = String::new();
    assert(new_value@ =~= Seq::empty());
    Some(
        CellDelta {
            row_idx_old: Some(old_idx),
            row_idx_new: None,
            col_idx: col,
            old_value: cell_to_string(cell.value),
            new_value,
            status: "Deleted".to_owned(),
            value_changed: true,
            formula_changed: !cell.formula.is_empty(),
            style_changed: cell.style.is_some(),
            old_formula: optional_text(cell.formula),
            new_formula: None,
            old_style_id: optional_id(cell.style),
            new_style_id: None,
            change_kinds: kinds_of_lone_cell("Deleted", cell),
            formatting_changed: cell.style.is_some(),
            formatting_changes,
            old_style_profile: optional_profile(cell.style),
            new_style_profile: None,
        },
    )
}

/// Reports a cell of an added row.
pub fn report_added_cell(new_idx: usize, col: usize, cell: CellSide) -> (r: Option<CellDelta>)
    ensures
        r.deep_view() == added_delta(new_idx, col, cell.deep_view()),
{
    if let Data::Empty = cell.value {
        return None;
    }
    let mut formatting_changes: Vec<String> = Vec::new();
    formatting_changes.push("style_added".to_owned());
    assert(formatting_changes.deep_view() =~= seq!["style_added"@]);
    let old_value = String::new();
    assert(old_value@ =~= Seq::empty());
    Some(
        CellDelta {
            row_idx_old: None,
            row_idx_new: Some(new_idx),
            col_idx: col,
            old_value,
            new_value: cell_to_string(cell.value),
            status: "Added".to_owned(),
            value_changed: true,
            formula_changed: !cell.formula.is_empty(),
            style_changed: cell.style.is_some(),
            old_formula: None,
            new_formula: optional_text(cell.formula),
            old_style_id: None,
            new_style_id: optional_id(cell.style),
            change_kinds: kinds_of_lone_cell("Added", cell),
            formatting_changed: cell.style.is_some(),
            formatting_changes,
            old_style_profile: None,
            new_style_profile: optional_profile(cell.style),
        },
    )
}

fn side_at<'a>(grids: &SheetGrids<'a>, row: usize, col: usize, empty: &'a Data) -> (r: CellSide<
    'a,
>)
    requires
        row < grids.values@.len(),
        empty.deep_view() == DataView::Empty,
    ensures
        r.deep_view() == cell_at(grids.deep_view(), row as int, col as int),
{
    let value: &'a Data = match get_item(Some(&grids.values[row]), col) {
        Some(value) => value,
        None => empty,
    };
    let formula: &'a str = match get_item(get_grid_row(grids.formulas, row), col) {
        Some(formula) => formula.as_str(),
        None => "",
    };
    let style: Option<&'a CellStyleProfile> = match get_item(get_grid_row(grids.styles, row), col) {
        Some(style) => style.as_ref(),
        None => None,
    };
    proof {
        reveal_strlit("");
        let g = grids.deep_view();
        assert(g.values[row as int] == grids.values@[row as int].deep_view());
        assert(value.deep_view() == item_at(
            Some(g.values[row as int]),
            col as int,
            DataView::Empty,
        ));
        assert(formula@ =~= item_at(grid_row(g.formulas, row as int), col as int, Seq::empty()));
        assert(style.deep_view() == item_at(grid_row(g.styles, row as int), col as int, None));
    }
    CellSide { value, formula, style }
}

fn columns_of(grids: &SheetGrids, row: usize) -> (r: usize)
    requires
        row < grids.values@.len(),
    ensures
        r == row_columns(grids.deep_view(), row as int),
{
    assert(grids.deep_view().values[row as int] == grids.values@[row as int].deep_view());
    greater(
        greater(grids.values[row].len(), row_width(get_grid_row(grids.formulas, row))),
        row_width(get_grid_row(grids.styles, row)),
    )
}

fn add_delta(deltas: &mut Vec<CellDelta>, delta: Option<CellDelta>)
    ensures
        final(deltas).deep_view() == with_delta(old(deltas).deep_view(), delta.deep_view()),
{
    if let Some(delta) = delta {
        deltas.push(delta);
    }
    assert(deltas.deep_view() =~= with_delta(old(deltas).deep_view(), delta.deep_view()));
}

/// The changes of the cells of one alignment.
pub fn compare_row(old_grids: &SheetGrids, new_grids: &SheetGrids, row: &AlignedRow) -> (r: Vec<
    CellDelta,
>)
    requires
        alignment_in_bounds(row.alignment, old_grids.values@.len(), new_grids.values@.len()),
    ensures
        r.deep_view() == row_deltas(old_grids.deep_view(), new_grids.deep_view(), row.deep_view()),
{
    let ghost a = old_grids.deep_view();
    let ghost b = new_grids.deep_view();
    let empty = Data::Empty;
    let mut deltas: Vec<CellDelta> = Vec::new();
    assert(deltas.deep_view() =~= Seq::empty());
    let mut c: usize = 0;
    match row.alignment {
        RowAlignment::Matched(o, w) => {
            let max_cols: usize = greater(columns_of(old_grids, o), columns_of(new_grids, w));
            while c < max_cols
                invariant
                    c <= max_cols,
                    o < old_grids.values@.len(),
                    w < new_grids.values@.len(),
                    a == old_grids.deep_view(),
                    b == new_grids.deep_view(),
                    empty.deep_view() == DataView::Empty,
                    row.alignment == RowAlignment::Matched(o, w),
                    deltas.deep_view() == deltas_up_to(a, b, row.deep_view(), c as nat),
                decreases max_cols - c,
            {
                let close = c < row.numbers_close.len() && row.numbers_close[c];
                let delta = compare_matched_cell(
                    o,
                    w,
                    c,
                    side_at(old_grids, o, c, &empty),
                    side_at(new_grids, w, c, &empty),
                    close,
                );
                add_delta(&mut deltas, delta);
                c = c + 1;
            }
        },
        RowAlignment::Deleted(o) => {
            let cols: usize = old_grids.values[o].len();
            while c < cols
                invariant
                    c <= cols,
                    o < old_grids.values@.len(),
                    a == old_grids.deep_view(),
                    empty.deep_view() == DataView::Empty,
                    row.alignment == RowAlignment::Deleted(o),
                    deltas.deep_view() == deltas_up_to(a, b, row.deep_view(), c as nat),
                decreases cols - c,
            {
                let delta = report_deleted_cell(o, c, side_at(old_grids, o, c, &empty));
                add_delta(&mut deltas, delta);
                c = c + 1;
            }
        },
        RowAlignment::Added(w) => {
            let cols: usize = new_grids.values[w].len();
            while c < cols
                invariant
                    c <= cols,
                    w < new_grids.values@.len(),
                    b == new_grids.deep_view(),
                    empty.deep_view() == DataView::Empty,
                    row.alignment == RowAlignment::Added(w),
                    deltas.deep_view() == deltas_up_to(a, b, row.deep_view(), c as nat),
                decreases cols - c,
            {
                let delta = report_added_cell(w, c, side_at(new_grids, w, c, &empty));
                add_delta(&mut deltas, delta);
                c = c + 1;
            }
        },
    }
    deltas
}

/// The deep views of the items of a sequence.
spec fn delta_views(deltas: Seq<CellDelta>) -> Seq<DeltaView> {
    deltas.map_values(|d: CellDelta| d.deep_view())
}

proof fn lemma_views_of_flattened(parts: Seq<Vec<CellDelta>>, views: Seq<Seq<DeltaView>>)
    requires
        parts.len() == views.len(),
        forall|i: int| 0 <= i < parts.len() ==> (#[trigger] parts[i]).deep_view() == views[i],
    ensures
        delta_views(parts.map_values(|part: Vec<CellDelta>| part@).flatten()) == views.flatten(),
    decreases parts.len(),
{
    let inner = parts.map_values(|part: Vec<CellDelta>| part@);
    if parts.len() > 0 {
        let p = parts.drop_first();
        let v = views.drop_first();
        assert forall|i: int| 0 <= i < p.len() implies (#[trigger] p[i]).deep_view() == v[i] by {
            assert(p[i] == parts[i + 1]);
        }
        lemma_views_of_flattened(p, v);
        assert(inner.drop_first() =~= p.map_values(|part: Vec<CellDelta>| part@));
        assert(inner.first() == parts[0]@);
        assert(delta_views(parts[0]@) =~= parts[0].deep_view());
        assert(delta_views(inner.flatten()) =~= delta_views(inner.first()) + delta_views(
            inner.drop_first().flatten(),
        ));
    } else {
        assert(delta_views(inner.flatten()) =~= views.flatten());
    }
}

/// The changes of all cells of two sheets, given which row belongs to which. The
/// rows are compared in parallel.
pub fn compute_deltas_parallel(
    old_grid: &[Vec<Data>],
    new_grid: &[Vec<Data>],
    old_formula_grid: Option<&[Vec<String>]>,
    new_formula_grid: Option<&[Vec<String>]>,
    old_style_grid: Option<&[Vec<Option<CellStyleProfile>>]>,
    new_style_grid: Option<&[Vec<Option<CellStyleProfile>>]>,
    alignments: &[AlignedRow],
) -> (r: Vec<CellDelta>)
    requires
        rows_in_bounds(alignments.deep_view(), old_grid@.len(), new_grid@.len()),
    ensures
        r.deep_view() == sheet_deltas(
            (GridsView {
                values: old_grid.deep_view(),
                formulas: grid_view(old_formula_grid),
                styles: grid_view(old_style_grid),
            }),
            (GridsView {
                values: new_grid.deep_view(),
                formulas: grid_view(new_formula_grid),
                styles: grid_view(new_style_grid),
            }),
            alignments.deep_view(),
        ),
{
    let old_grids = SheetGrids {
        values: old_grid,
        formulas: old_formula_grid,
        styles: old_style_grid,
    };
    let new_grids = SheetGrids {
        values: new_grid,
        formulas: new_formula_grid,
        styles: new_style_grid,
    };
    let ghost a = old_grids.deep_view();
    let ghost b = new_grids.deep_view();
    let compare = |row: &AlignedRow| -> (deltas: Vec<CellDelta>)
        requires
            alignment_in_bounds(row.alignment, old_grids.values@.len(), new_grids.values@.len()),
        ensures
            deltas.deep_view() == row_deltas(
                old_grids.deep_view(),
                new_grids.deep_view(),
                row.deep_view(),
            ),
        { compare_row(&old_grids, &new_grids, row) };
    assert forall|i: int| 0 <= i < alignments@.len() implies call_requires(
        compare,
        (&#[trigger] alignments@[i],),
    ) by {
        assert(alignments.deep_view()[i].alignment == alignments@[i].alignment);
    }
    let deltas = par_flat_map(alignments, compare);
    proof {
        let rows = alignments.deep_view();
        let views = rows.map_values(|row: AlignedView| row_deltas(a, b, row));
        let parts = choose|parts: Seq<Vec<CellDelta>>|
            #![trigger parts.len()]
            {
                &&& parts.len() == alignments@.len()
                &&& forall|i: int|
                    0 <= i < alignments@.len() ==> call_ensures(
                        compare,
                        (&alignments@[i],),
                        #[trigger] parts[i],
                    )
                &&& deltas@ == parts.map_values(|part: Vec<CellDelta>| part@).flatten()
            };
        assert forall|i: int| 0 <= i < parts.len() implies (#[trigger] parts[i]).deep_view()
            == views[i] by {
            assert(call_ensures(compare, (&alignments@[i],), parts[i]));
            assert(rows[i] == alignments@[i].deep_view());
        }
        lemma_views_of_flattened(parts, views);
        assert(deltas.deep_view() =~= delta_views(deltas@));
    }
    deltas
}

/// The delta of the comparison in the other direction.
pub open spec fn reversed(delta: DeltaView) -> DeltaView {
    DeltaView {
        row_idx_old: delta.row_idx_new,
        row_idx_new: delta.row_idx_old,
        old_value: delta.new_value,
        new_value: delta.old_value,
        old_formula: delta.new_formula,
        new_formula: delta.old_formula,
        old_style_id: delta.new_style_id,
        new_style_id: delta.old_style_id,
        old_style_profile: delta.new_style_profile,
        new_style_profile: delta.old_style_profile,
        ..delta
    }
}

/// Comparing a cell in the other direction finds the same change, with old and new
/// exchanged.
pub proof fn law_comparison_can_be_reversed(
    old_idx: usize,
    new_idx: usize,
    col: usize,
    a: CellView,
    b: CellView,
    numbers_close: bool,
)
    ensures
        matched_delta(new_idx, old_idx, col, b, a, numbers_close) == (match matched_delta(
            old_idx,
            new_idx,
            col,
            a,
            b,
            numbers_close,
        ) {
            Some(delta) => Some(reversed(delta)),
            None => None,
        }),
{
    law_equality_is_symmetric(a.value, b.value, numbers_close);
    law_style_comparison_is_symmetric(a.style, b.style);
}

proof fn lemma_columns_reversed(old: GridsView, new: GridsView, o: usize, w: usize, close: Seq<
    bool,
>, n: nat)
    ensures
        deltas_up_to(
            new,
            old,
            (AlignedView { alignment: RowAlignment::Matched(w, o), numbers_close: close }),
            n,
        ) == deltas_up_to(
            old,
            new,
            (AlignedView { alignment: RowAlignment::Matched(o, w), numbers_close: close }),
            n,
        ).map_values(|delta: DeltaView| reversed(delta)),
    decreases n,
{
    let forth = AlignedView { alignment: RowAlignment::Matched(o, w), numbers_close: close };
    let back = AlignedView { alignment: RowAlignment::Matched(w, o), numbers_close: close };
    if n > 0 {
        lemma_columns_reversed(old, new, o, w, close, (n - 1) as nat);
        law_comparison_can_be_reversed(
            o,
            w,
            (n - 1) as usize,
            cell_at(old, o as int, n - 1),
            cell_at(new, w as int, n - 1),
            close_at(close, n - 1),
        );
    }
    assert(deltas_up_to(new, old, back, n) =~= deltas_up_to(old, new, forth, n).map_values(
        |delta: DeltaView| reversed(delta),
    ));
}

/// Comparing matched rows in the other direction finds the same changes in the same
/// order, with old and new exchanged.
pub proof fn law_row_comparison_can_be_reversed(
    old: GridsView,
    new: GridsView,
    o: usize,
    w: usize,
    numbers_close: Seq<bool>,
)
    ensures
        row_deltas(
            new,
            old,
            (AlignedView { alignment: RowAlignment::Matched(w, o), numbers_close }),
        ) == row_deltas(
            old,
            new,
            (AlignedView { alignment: RowAlignment::Matched(o, w), numbers_close }),
        ).map_values(|delta: DeltaView| reversed(delta)),
{
    let forth = AlignedView { alignment: RowAlignment::Matched(o, w), numbers_close };
    lemma_columns_reversed(old, new, o, w, numbers_close, compared_columns(old, new, forth));
}

/// Whether a delta tells of a change, and its status says which rows it has.
pub open spec fn tells_of_change(delta: DeltaView) -> bool {
    &&& delta.value_changed || delta.formula_changed || delta.style_changed
    &&& delta.row_idx_new is None <==> delta.status == "Deleted"@
    &&& delta.row_idx_old is None <==> delta.status == "Added"@
    &&& delta.formatting_changed == delta.style_changed
    &&& delta.old_style_id == style_id_of(delta.old_style_profile)
    &&& delta.new_style_id == style_id_of(delta.new_style_profile)
}

/// Whether a delta belongs to an alignment of rows.
pub open spec fn belongs_to(delta: DeltaView, alignment: RowAlignment) -> bool {
    match alignment {
        RowAlignment::Matched(o, w) => delta.row_idx_old == Some(o) && delta.row_idx_new == Some(w),
        RowAlignment::Deleted(o) => delta.row_idx_old == Some(o) && delta.row_idx_new is None,
        RowAlignment::Added(w) => delta.row_idx_old is None && delta.row_idx_new == Some(w),
    }
}

proof fn lemma_delta_tells_of_change(old: GridsView, new: GridsView, row: AlignedView, col: int)
    requires
        0 <= col <= usize::MAX,
    ensures
        delta_at(old, new, row, col) matches Some(delta) ==> tells_of_change(delta) && belongs_to(
            delta,
            row.alignment,
        ) && delta.col_idx == col,
{
    reveal_strlit("Deleted");
    reveal_strlit("Added");
    reveal_strlit("FormulaModified");
    reveal_strlit("StyleModified");
    reveal_strlit("ValueModified");
    reveal_strlit("Modified");
    assert("Deleted"@.len() == 7 && "Added"@.len() == 5 && "Modified"@.len() == 8);
    assert("FormulaModified"@.len() == 15 && "StyleModified"@.len() == 13
        && "ValueModified"@.len() == 13);
}

proof fn lemma_deltas_are_ordered(old: GridsView, new: GridsView, row: AlignedView, n: nat)
    requires
        n <= usize::MAX,
    ensures
        ({
            let deltas = deltas_up_to(old, new, row, n);
            &&& forall|i: int|
                0 <= i < deltas.len() ==> {
                    let delta = #[trigger] deltas[i];
                    &&& tells_of_change(delta)
                    &&& belongs_to(delta, row.alignment)
                    &&& delta.col_idx < n
                    &&& delta_at(old, new, row, delta.col_idx as int) == Some(delta)
                }
            &&& forall|i: int, j: int|
                0 <= i < j < deltas.len() ==> (#[trigger] deltas[i]).col_idx < (
                #[trigger] deltas[j]).col_idx
            &&& forall|c: int|
                0 <= c < n && (#[trigger] delta_at(old, new, row, c)) is Some ==> deltas.contains(
                    delta_at(old, new, row, c)->0,
                )
        }),
    decreases n,
{
    if n > 0 {
        let before = deltas_up_to(old, new, row, (n - 1) as nat);
        let deltas = deltas_up_to(old, new, row, n);
        lemma_deltas_are_ordered(old, new, row, (n - 1) as nat);
        lemma_delta_tells_of_change(old, new, row, n - 1);
        assert forall|c: int|
            0 <= c < n && (#[trigger] delta_at(old, new, row, c)) is Some implies deltas.contains(
            delta_at(old, new, row, c)->0,
        ) by {
            let delta = delta_at(old, new, row, c)->0;
            if c < n - 1 {
                let k = choose|k: int| 0 <= k < before.len() && before[k] == delta;
                assert(deltas[k] == delta);
            } else {
                assert(deltas[deltas.len() - 1] == delta);
            }
        }
        assert forall|i: int| 0 <= i < deltas.len() implies {
            let delta = #[trigger] deltas[i];
            &&& tells_of_change(delta)
            &&& belongs_to(delta, row.alignment)
            &&& delta.col_idx < n
            &&& delta_at(old, new, row, delta.col_idx as int) == Some(delta)
        } by {
            if i < before.len() {
                assert(deltas[i] == before[i]);
            }
        }
    }
}

/// The deltas of an alignment tell of changes of its rows, one for each column in
/// which something changed, from left to right.
pub proof fn law_row_deltas(old: GridsView, new: GridsView, row: AlignedView)
    requires
        compared_columns(old, new, row) <= usize::MAX,
    ensures
        ({
            let deltas = row_deltas(old, new, row);
            &&& forall|i: int|
                0 <= i < deltas.len() ==> {
                    let delta = #[trigger] deltas[i];
                    &&& tells_of_change(delta)
                    &&& belongs_to(delta, row.alignment)
                    &&& delta.col_idx < compared_columns(old, new, row)
                    &&& delta_at(old, new, row, delta.col_idx as int) == Some(delta)
                }
            &&& forall|i: int, j: int|
                0 <= i < j < deltas.len() ==> (#[trigger] deltas[i]).col_idx < (
                #[trigger] deltas[j]).col_idx
            &&& forall|c: int|
                0 <= c < compared_columns(old, new, row) && (#[trigger] delta_at(
                    old,
                    new,
                    row,
                    c,
                )) is Some ==> deltas.contains(delta_at(old, new, row, c)->0)
        }),
{
    lemma_deltas_are_ordered(old, new, row, compared_columns(old, new, row));
}

/// A column of matched rows of which no delta is reported holds equal values, the
/// same formula and the same format on both sides.
pub proof fn law_unreported_cell_is_unchanged(
    old: GridsView,
    new: GridsView,
    row: AlignedView,
    o: usize,
    w: usize,
    col: int,
)
    requires
        compared_columns(old, new, row) <= usize::MAX,
        row.alignment == RowAlignment::Matched(o, w),
        0 <= col < compared_columns(old, new, row),
        forall|i: int|
            0 <= i < row_deltas(old, new, row).len() ==> (#[trigger] row_deltas(
                old,
                new,
                row,
            )[i]).col_idx != col,
    ensures
        ({
            let a = cell_at(old, o as int, col);
            let b = cell_at(new, w as int, col);
            &&& cells_equal(a.value, b.value, close_at(row.numbers_close, col))
            &&& a.formula == b.formula
            &&& a.style == b.style
        }),
{
    law_row_deltas(old, new, row);
    let deltas = row_deltas(old, new, row);
    if delta_at(old, new, row, col) is Some {
        let delta = delta_at(old, new, row, col)->0;
        lemma_delta_tells_of_change(old, new, row, col);
        let i = choose|i: int| 0 <= i < deltas.len() && deltas[i] == delta;
        assert(deltas[i].col_idx == col);
    }
    let a = cell_at(old, o as int, col);
    let b = cell_at(new, w as int, col);
    if a.style is Some && b.style is Some {
        assert(a.style->0 == b.style->0);
    }
}

proof fn lemma_flatten_contains(parts: Seq<Seq<DeltaView>>, delta: DeltaView)
    ensures
        parts.flatten().contains(delta) <==> exists|k: int|
            0 <= k < parts.len() && (#[trigger] parts[k]).contains(delta),
    decreases parts.len(),
{
    if parts.len() > 0 {
        let rest = parts.drop_first();
        let head = parts.first();
        let all = parts.flatten();
        lemma_flatten_contains(rest, delta);
        assert(all =~= head + rest.flatten());
        if all.contains(delta) {
            let i = choose|i: int| 0 <= i < all.len() && all[i] == delta;
            if i < head.len() {
                assert(head[i] == delta);
                assert(parts[0].contains(delta));
            } else {
                assert(rest.flatten()[i - head.len()] == delta);
                let k = choose|k: int| 0 <= k < rest.len() && (#[trigger] rest[k]).contains(delta);
                assert(parts[k + 1].contains(delta));
            }
        }
        if exists|k: int| 0 <= k < parts.len() && (#[trigger] parts[k]).contains(delta) {
            let k = choose|k: int| 0 <= k < parts.len() && (#[trigger] parts[k]).contains(delta);
            if k == 0 {
                let i = choose|i: int| 0 <= i < head.len() && head[i] == delta;
                assert(all[i] == delta);
            } else {
                assert(rest[k - 1].contains(delta));
                let tail = rest.flatten();
                let i = choose|i: int| 0 <= i < tail.len() && tail[i] == delta;
                assert(all[head.len() + i] == delta);
            }
        }
    }
}

/// The deltas of two sheets are those of their alignments, and no others.
pub proof fn law_sheet_deltas_are_those_of_its_rows(
    old: GridsView,
    new: GridsView,
    rows: Seq<AlignedView>,
    delta: DeltaView,
)
    ensures
        sheet_deltas(old, new, rows).contains(delta) <==> exists|k: int|
            0 <= k < rows.len() && row_deltas(old, new, #[trigger] rows[k]).contains(delta),
{
    let parts = rows.map_values(|row: AlignedView| row_deltas(old, new, row));
    lemma_flatten_contains(parts, delta);
    if exists|k: int| 0 <= k < parts.len() && (#[trigger] parts[k]).contains(delta) {
        let k = choose|k: int| 0 <= k < parts.len() && (#[trigger] parts[k]).contains(delta);
        assert(row_deltas(old, new, rows[k]).contains(delta));
    }
    if exists|k: int|
        0 <= k < rows.len() && row_deltas(old, new, #[trigger] rows[k]).contains(delta) {
        let k = choose|k: int|
            0 <= k < rows.len() && row_deltas(old, new, #[trigger] rows[k]).contains(delta);
        assert(parts[k].contains(delta));
    }
}

/// Whether every number of a row is close to itself.
pub open spec fn numbers_close_to_themselves(
    values: Seq<DataView>,
    numbers_close: Seq<bool>,
) -> bool {
    forall|c: int|
        0 <= c < values.len() && float_pair(#[trigger] values[c], values[c]) ==> close_at(
            numbers_close,
            c,
        )
}

proof fn lemma_row_unchanged(grids: GridsView, i: usize, numbers_close: Seq<bool>, n: nat)
    requires
        numbers_close_to_themselves(grids.values[i as int], numbers_close),
    ensures
        deltas_up_to(
            grids,
            grids,
            (AlignedView { alignment: RowAlignment::Matched(i, i), numbers_close }),
            n,
        ) == Seq::<DeltaView>::empty(),
    decreases n,
{
    if n > 0 {
        lemma_row_unchanged(grids, i, numbers_close, (n - 1) as nat);
        let cell = cell_at(grids, i as int, n - 1);
        law_style_unchanged(cell.style);
        if n - 1 < grids.values[i as int].len() {
            assert(cell.value == grids.values[i as int][n - 1]);
        }
        assert(cells_equal(cell.value, cell.value, close_at(numbers_close, n - 1)));
    }
}

proof fn lemma_flatten_of_empty_parts(parts: Seq<Seq<DeltaView>>)
    requires
        forall|i: int| 0 <= i < parts.len() ==> (#[trigger] parts[i]).len() == 0,
    ensures
        parts.flatten() == Seq::<DeltaView>::empty(),
    decreases parts.len(),
{
    if parts.len() > 0 {
        let rest = parts.drop_first();
        assert forall|i: int| 0 <= i < rest.len() implies (#[trigger] rest[i]).len() == 0 by {
            assert(rest[i] == parts[i + 1]);
        }
        lemma_flatten_of_empty_parts(rest);
        assert(parts.first() == parts[0]);
        assert(parts.flatten() =~= Seq::empty());
    }
}

/// A sheet compared with itself, row for row, shows no change, as far as its
/// numbers are close to themselves.
pub proof fn law_unchanged_sheet_has_no_deltas(grids: GridsView, rows: Seq<AlignedView>)
    requires
        forall|k: int|
            0 <= k < rows.len() ==> {
                &&& (#[trigger] rows[k]).alignment matches RowAlignment::Matched(o, w)
                &&& o == w
                &&& numbers_close_to_themselves(grids.values[o as int], rows[k].numbers_close)
            },
    ensures
        sheet_deltas(grids, grids, rows) == Seq::<DeltaView>::empty(),
{
    let parts = rows.map_values(|row: AlignedView| row_deltas(grids, grids, row));
    assert forall|i: int| 0 <= i < parts.len() implies (#[trigger] parts[i]).len() == 0 by {
        let row = rows[i];
        if let RowAlignment::Matched(o, w) = row.alignment {
            lemma_row_unchanged(grids, o, row.numbers_close, compared_columns(grids, grids, row));
            assert(row == (AlignedView {
                alignment: RowAlignment::Matched(o, o),
                numbers_close: row.numbers_close,
            }));
        }
    }
    lemma_flatten_of_empty_parts(parts);
}

/// A sheet compared with itself shows no change, as far as its numbers are close to
/// themselves. With a key column this takes a key in each row, and no key twice.
pub proof fn law_same_sheet_has_no_deltas(
    grids: GridsView,
    key_index: Option<usize>,
    pairwise_limit: usize,
    rows: Seq<AlignedView>,
)
    requires
        grids.values.len() <= usize::MAX,
        key_index matches Some(index) ==> fully_keyed(grids.values, index),
        rows.map_values(|row: AlignedView| row.alignment) == row_alignment(
            grids.values,
            grids.values,
            key_index,
            pairwise_limit,
        ),
        forall|k: int|
            0 <= k < rows.len() && k < grids.values.len() ==> numbers_close_to_themselves(
                grids.values[k],
                (#[trigger] rows[k]).numbers_close,
            ),
    ensures
        sheet_deltas(grids, grids, rows) == Seq::<DeltaView>::empty(),
{
    let alignments = rows.map_values(|row: AlignedView| row.alignment);
    law_sheet_aligns_with_itself(grids.values, key_index, pairwise_limit);
    assert(alignments =~= row_alignment(grids.values, grids.values, key_index, pairwise_limit));
    assert(rows.len() == alignments.len() && alignments.len() == grids.values.len());
    assert forall|k: int| 0 <= k < rows.len() implies {
        &&& (#[trigger] rows[k]).alignment matches RowAlignment::Matched(o, w)
        &&& o == w
        &&& numbers_close_to_themselves(grids.values[o as int], rows[k].numbers_close)
    } by {
        assert(alignments[k] == rows[k].alignment);
        assert(alignments[k] == RowAlignment::Matched(k as usize, k as usize));
        assert(numbers_close_to_themselves(grids.values[k], rows[k].numbers_close));
    }
    law_unchanged_sheet_has_no_deltas(grids, rows);
}

/// The views of deltas, alignments, grids and sides of a cell hold every field.
pub proof fn law_delta_views_keep_every_field(
    delta: CellDelta,
    row: AlignedRow,
    grids: SheetGrids<'_>,
    side: CellSide<'_>,
)
    ensures
        ({
            let v = delta.deep_view();
            &&& v.row_idx_old == delta.row_idx_old && v.row_idx_new == delta.row_idx_new
            &&& v.col_idx == delta.col_idx
            &&& v.old_value == delta.old_value@ && v.new_value == delta.new_value@
            &&& v.status == delta.status@
            &&& v.value_changed == delta.value_changed
            &&& v.formula_changed == delta.formula_changed
            &&& v.style_changed == delta.style_changed
            &&& v.old_formula == delta.old_formula.deep_view()
            &&& v.new_formula == delta.new_formula.deep_view()
            &&& v.old_style_id == delta.old_style_id && v.new_style_id == delta.new_style_id
            &&& v.change_kinds == delta.change_kinds.deep_view()
            &&& v.formatting_changed == delta.formatting_changed
            &&& v.formatting_changes == delta.formatting_changes.deep_view()
            &&& v.old_style_profile == delta.old_style_profile.deep_view()
            &&& v.new_style_profile == delta.new_style_profile.deep_view()
        }),
        row.deep_view().alignment == row.alignment,
        row.deep_view().numbers_close == row.numbers_close@,
        grids.deep_view().values == grids.values.deep_view(),
        grids.deep_view().formulas == (match grids.formulas {
            Some(rows) => Some(rows.deep_view()),
            None => None,
        }),
        grids.deep_view().styles == (match grids.styles {
            Some(rows) => Some(rows.deep_view()),
            None => None,
        }),
        side.deep_view().value == side.value.deep_view(),
        side.deep_view().formula == side.formula@,
        side.deep_view().style == side.style.deep_view(),
{
}

/// A cell of a sheet is what the grids hold at its row and column; what a grid lacks
/// there is empty. The columns of a row reach as far as any of the grids does.
pub proof fn law_cell_is_what_the_grids_hold(grids: GridsView, r: int, c: int)
    requires
        0 <= r < grids.values.len(),
        0 <= c,
    ensures
        cell_at(grids, r, c).value == (if c < grids.values[r].len() {
            grids.values[r][c]
        } else {
            DataView::Empty
        }),
        c < grids.values[r].len() ==> c < row_columns(grids, r),
        ({
            let held = grids.formulas is Some && r < grids.formulas->0.len() && c
                < grids.formulas->0[r].len();
            &&& held ==> cell_at(grids, r, c).formula == grids.formulas->0[r][c] && c
                < row_columns(grids, r)
            &&& !held ==> cell_at(grids, r, c).formula.len() == 0
        }),
        ({
            let held = grids.styles is Some && r < grids.styles->0.len() && c
                < grids.styles->0[r].len();
            &&& held ==> cell_at(grids, r, c).style == grids.styles->0[r][c] && c < row_columns(
                grids,
                r,
            )
            &&& !held ==> cell_at(grids, r, c).style is None
        }),
{
}

/// A cell on both sides is reported exactly if its value, formula or format changed,
/// and the delta tells of each: what it was, what it is, which of the three changed,
/// in what kinds, and in which parts the formats differ. The status names the one
/// thing that changed, or says only that the cell is modified if several did.
pub proof fn law_matched_cell_is_reported_as_changed(
    o: usize,
    w: usize,
    col: usize,
    a: CellView,
    b: CellView,
    close: bool,
)
    ensures
        ({
            let v = !cells_equal(a.value, b.value, close);
            let f = a.formula != b.formula;
            let s = a.style != b.style;
            let parts = style_comparison(a.style, b.style).1;
            &&& matched_delta(o, w, col, a, b, close) is Some <==> v || f || s
            &&& matched_delta(o, w, col, a, b, close) matches Some(d) ==> {
                &&& d.row_idx_old == Some(o) && d.row_idx_new == Some(w) && d.col_idx == col
                &&& d.old_value == cell_text(a.value) && d.new_value == cell_text(b.value)
                &&& d.value_changed == v && d.formula_changed == f && d.style_changed == s
                &&& d.formatting_changed == s
                &&& d.formatting_changes == parts
                &&& d.old_formula == (if a.formula.len() > 0 {
                    Some(a.formula)
                } else {
                    None
                })
                &&& d.new_formula == (if b.formula.len() > 0 {
                    Some(b.formula)
                } else {
                    None
                })
                &&& d.old_style_profile == a.style && d.new_style_profile == b.style
                &&& a.style matches Some(x) ==> d.old_style_id == Some(x.style_id)
                &&& a.style is None ==> d.old_style_id is None
                &&& b.style matches Some(y) ==> d.new_style_id == Some(y.style_id)
                &&& b.style is None ==> d.new_style_id is None
                &&& d.change_kinds == listed(v, "Value"@) + listed(f, "Formula"@) + listed(
                    s,
                    "Style"@,
                ) + listed(parts.len() > 0, "Formatting"@)
                &&& v && !f && !s ==> d.status == "ValueModified"@
                &&& f && !v && !s ==> d.status == "FormulaModified"@
                &&& s && !v && !f ==> d.status == "StyleModified"@
                &&& (v && f) || (v && s) || (f && s) ==> d.status == "Modified"@
            }
        }),
{
    let v = !cells_equal(a.value, b.value, close);
    let f = a.formula != b.formula;
    let s = a.style != b.style;
    let parts = style_comparison(a.style, b.style).1;
    assert(style_comparison(a.style, b.style).0 == s);
    assert(change_kinds(v, f, s, parts.len() > 0) =~= listed(v, "Value"@) + listed(f, "Formula"@)
        + listed(s, "Style"@) + listed(parts.len() > 0, "Formatting"@));
}

/// A cell of a deleted or an added row is reported exactly if it is not empty, with
/// its value, formula and format on its side and nothing on the other.
pub proof fn law_cell_on_one_side_is_reported(row: usize, col: usize, cell: CellView)
    ensures
        deleted_delta(row, col, cell) is Some <==> !(cell.value is Empty),
        added_delta(row, col, cell) is Some <==> !(cell.value is Empty),
        deleted_delta(row, col, cell) matches Some(d) ==> {
            &&& d.row_idx_old == Some(row) && d.row_idx_new is None && d.col_idx == col
            &&& d.old_value == cell_text(cell.value) && d.new_value.len() == 0
            &&& d.status == "Deleted"@
            &&& d.value_changed && (d.formula_changed <==> cell.formula.len() > 0)
            &&& d.style_changed <==> cell.style is Some
            &&& d.formatting_changed <==> cell.style is Some
            &&& d.formatting_changes == seq!["style_removed"@]
            &&& d.old_formula == (if cell.formula.len() > 0 {
                Some(cell.formula)
            } else {
                None
            })
            &&& d.new_formula is None
            &&& d.old_style_profile == cell.style && d.new_style_profile is None
            &&& cell.style matches Some(x) ==> d.old_style_id == Some(x.style_id)
            &&& cell.style is None ==> d.old_style_id is None
            &&& d.new_style_id is None
            &&& d.change_kinds == seq!["Deleted"@] + listed(cell.formula.len() > 0, "Formula"@)
                + listed(cell.style is Some, "Style"@)
        },
        added_delta(row, col, cell) matches Some(d) ==> {
            &&& d.row_idx_old is None && d.row_idx_new == Some(row) && d.col_idx == col
            &&& d.old_value.len() == 0 && d.new_value == cell_text(cell.value)
            &&& d.status == "Added"@
            &&& d.value_changed && (d.formula_changed <==> cell.formula.len() > 0)
            &&& d.style_changed <==> cell.style is Some
            &&& d.formatting_changed <==> cell.style is Some
            &&& d.formatting_changes == seq!["style_added"@]
            &&& d.new_formula == (if cell.formula.len() > 0 {
                Some(cell.formula)
            } else {
                None
            })
            &&& d.old_formula is None
            &&& d.new_style_profile == cell.style && d.old_style_profile is None
            &&& cell.style matches Some(x) ==> d.new_style_id == Some(x.style_id)
            &&& cell.style is None ==> d.new_style_id is None
            &&& d.old_style_id is None
            &&& d.change_kinds == seq!["Added"@] + listed(cell.formula.len() > 0, "Formula"@)
                + listed(cell.style is Some, "Style"@)
        },
{
    assert(lone_kinds("Deleted"@, cell) =~= seq!["Deleted"@] + listed(
        cell.formula.len() > 0,
        "Formula"@,
    ) + listed(cell.style is Some, "Style"@));
    assert(lone_kinds("Added"@, cell) =~= seq!["Added"@] + listed(
        cell.formula.len() > 0,
        "Formula"@,
    ) + listed(cell.style is Some, "Style"@));
}

/// Whether a sequence of deltas has one on the given rows and column.
pub open spec fn reports_cell(
    deltas: Seq<DeltaView>,
    row_idx_old: Option<usize>,
    row_idx_new: Option<usize>,
    col: int,
) -> bool {
    exists|i: int|
        {
            &&& 0 <= i < deltas.len()
            &&& (#[trigger] deltas[i]).row_idx_old == row_idx_old
            &&& deltas[i].row_idx_new == row_idx_new
            &&& deltas[i].col_idx == col
        }
}

proof fn lemma_delta_is_in_the_sheet(
    old: GridsView,
    new: GridsView,
    rows: Seq<AlignedView>,
    k: int,
    col: int,
)
    requires
        0 <= k < rows.len(),
        compared_columns(old, new, rows[k]) <= usize::MAX,
        0 <= col < compared_columns(old, new, rows[k]),
        delta_at(old, new, rows[k], col) is Some,
    ensures
        sheet_deltas(old, new, rows).contains(delta_at(old, new, rows[k], col)->0),
        belongs_to(delta_at(old, new, rows[k], col)->0, rows[k].alignment),
        delta_at(old, new, rows[k], col)->0.col_idx == col,
{
    let delta = delta_at(old, new, rows[k], col)->0;
    law_row_deltas(old, new, rows[k]);
    lemma_delta_tells_of_change(old, new, rows[k], col);
    law_sheet_deltas_are_those_of_its_rows(old, new, rows, delta);
    assert(row_deltas(old, new, rows[k]).contains(delta));
}

/// Every cell of matched rows whose value, formula or format changed is reported,
/// whatever its column: where one side lacks the cell, it is compared with an empty
/// one.
pub proof fn law_every_changed_cell_is_reported(
    old: GridsView,
    new: GridsView,
    rows: Seq<AlignedView>,
    k: int,
    o: usize,
    w: usize,
    col: int,
)
    requires
        0 <= k < rows.len(),
        rows[k].alignment == RowAlignment::Matched(o, w),
        o < old.values.len(),
        w < new.values.len(),
        compared_columns(old, new, rows[k]) <= usize::MAX,
        0 <= col,
        ({
            let a = cell_at(old, o as int, col);
            let b = cell_at(new, w as int, col);
            let close = col < rows[k].numbers_close.len() && rows[k].numbers_close[col];
            !cells_equal(a.value, b.value, close) || a.formula != b.formula || a.style != b.style
        }),
    ensures
        reports_cell(sheet_deltas(old, new, rows), Some(o), Some(w), col),
{
    let a = cell_at(old, o as int, col);
    let b = cell_at(new, w as int, col);
    law_cell_is_what_the_grids_hold(old, o as int, col);
    law_cell_is_what_the_grids_hold(new, w as int, col);
    law_matched_cell_is_reported_as_changed(
        o,
        w,
        col as usize,
        a,
        b,
        close_at(rows[k].numbers_close, col),
    );
    assert(col < compared_columns(old, new, rows[k])) by {
        if col >= compared_columns(old, new, rows[k]) {
            assert(a.value == DataView::Empty && b.value == DataView::Empty);
            assert(a.formula =~= b.formula);
        }
    }
    lemma_delta_is_in_the_sheet(old, new, rows, k, col);
    let deltas = sheet_deltas(old, new, rows);
    let delta = delta_at(old, new, rows[k], col)->0;
    let i = choose|i: int| 0 <= i < deltas.len() && deltas[i] == delta;
    assert(deltas[i].row_idx_old == Some(o));
}

/// Every cell of a deleted row that was not empty is reported, and so is every cell
/// of an added row that is not empty, whatever its column.
pub proof fn law_every_cell_of_a_lone_row_is_reported(
    old: GridsView,
    new: GridsView,
    rows: Seq<AlignedView>,
    k: int,
    row: usize,
    col: int,
)
    requires
        0 <= k < rows.len(),
        compared_columns(old, new, rows[k]) <= usize::MAX,
        0 <= col,
    ensures
        rows[k].alignment == RowAlignment::Deleted(row) && row < old.values.len() && col
            < old.values[row as int].len() && !(old.values[row as int][col] is Empty)
            ==> reports_cell(sheet_deltas(old, new, rows), Some(row), None, col),
        rows[k].alignment == RowAlignment::Added(row) && row < new.values.len() && col
            < new.values[row as int].len() && !(new.values[row as int][col] is Empty)
            ==> reports_cell(sheet_deltas(old, new, rows), None, Some(row), col),
{
    let deltas = sheet_deltas(old, new, rows);
    if rows[k].alignment == RowAlignment::Deleted(row) && row < old.values.len() && col
        < old.values[row as int].len() && !(old.values[row as int][col] is Empty) {
        law_cell_is_what_the_grids_hold(old, row as int, col);
        lemma_delta_is_in_the_sheet(old, new, rows, k, col);
        let delta = delta_at(old, new, rows[k], col)->0;
        let i = choose|i: int| 0 <= i < deltas.len() && deltas[i] == delta;
        assert(deltas[i].row_idx_old == Some(row));
    }
    if rows[k].alignment == RowAlignment::Added(row) && row < new.values.len() && col
        < new.values[row as int].len() && !(new.values[row as int][col] is Empty) {
        law_cell_is_what_the_grids_hold(new, row as int, col);
        lemma_delta_is_in_the_sheet(old, new, rows, k, col);
        let delta = delta_at(old, new, rows[k], col)->0;
        let i = choose|i: int| 0 <= i < deltas.len() && deltas[i] == delta;
        assert(deltas[i].row_idx_new == Some(row));
    }
}

/// Nothing is reported but changes: each delta of two sheets is on the rows of one of
/// their alignments and tells what became of the cell there.
pub proof fn law_only_changes_are_reported(
    old: GridsView,
    new: GridsView,
    rows: Seq<AlignedView>,
    i: int,
)
    requires
        0 <= i < sheet_deltas(old, new, rows).len(),
        forall|k: int|
            0 <= k < rows.len() ==> compared_columns(old, new, #[trigger] rows[k]) <= usize::MAX,
    ensures
        ({
            let d = sheet_deltas(old, new, rows)[i];
            let c = d.col_idx as int;
            exists|k: int|
                0 <= k < rows.len() && (match (#[trigger] rows[k]).alignment {
                    RowAlignment::Matched(o, w) => Some(d) == matched_delta(
                        o,
                        w,
                        d.col_idx,
                        cell_at(old, o as int, c),
                        cell_at(new, w as int, c),
                        c < rows[k].numbers_close.len() && rows[k].numbers_close[c],
                    ),
                    RowAlignment::Deleted(o) => Some(d) == deleted_delta(
                        o,
                        d.col_idx,
                        cell_at(old, o as int, c),
                    ),
                    RowAlignment::Added(w) => Some(d) == added_delta(
                        w,
                        d.col_idx,
                        cell_at(new, w as int, c),
                    ),
                })
        }),
{
    let d = sheet_deltas(old, new, rows)[i];
    law_sheet_deltas_are_those_of_its_rows(old, new, rows, d);
    assert(sheet_deltas(old, new, rows).contains(d));
    let k = choose|k: int|
        0 <= k < rows.len() && row_deltas(old, new, #[trigger] rows[k]).contains(d);
    law_row_deltas(old, new, rows[k]);
    let deltas = row_deltas(old, new, rows[k]);
    let x = choose|x: int| 0 <= x < deltas.len() && deltas[x] == d;
    assert(delta_at(old, new, rows[k], deltas[x].col_idx as int) == Some(deltas[x]));
}

/// The deltas come alignment by alignment: a further alignment adds its own behind
/// those of the others, and without alignments there are none.
pub proof fn law_deltas_come_row_by_row(
    old: GridsView,
    new: GridsView,
    rows: Seq<AlignedView>,
    row: AlignedView,
)
    ensures
        sheet_deltas(old, new, Seq::empty()).len() == 0,
        sheet_deltas(old, new, rows.push(row)) == sheet_deltas(old, new, rows) + row_deltas(
            old,
            new,
            row,
        ),
{
    let parts = rows.map_values(|r: AlignedView| row_deltas(old, new, r));
    let more = rows.push(row).map_values(|r: AlignedView| row_deltas(old, new, r));
    assert(more =~= parts.push(row_deltas(old, new, row)));
    parts.lemma_flatten_push(row_deltas(old, new, row));
    assert(Seq::<AlignedView>::empty().map_values(|r: AlignedView| row_deltas(old, new, r))
        =~= Seq::empty());
}

} // verus!
