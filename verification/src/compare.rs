//! The comparison of two sheets, from their contents to the changes of their cells.

use crate::align::{
    align_matrices, fully_keyed, in_bounds, law_sheet_aligns_with_itself, row_alignment,
    RowAlignment,
};
use crate::cell::{float_pair, Data, DataView};
use crate::delta::{
    close_at, compute_deltas_parallel, law_same_sheet_has_no_deltas, numbers_close_to_themselves,
    rows_in_bounds, sheet_deltas, AlignedRow, AlignedView, CellDelta, DeltaView, GridsView,
};
use crate::fingerprint::{SheetSnapshot, SnapshotView};
use crate::grid::item_at;
use crate::report::ComparedSheet;
use crate::style::{
    resolve_style_matrix, resolved_style, resolved_styles, StyleCatalog, StyleView,
};
use vstd::prelude::*;

verus! {

fn is_float_pair(a: &Data, b: &Data) -> (r: bool)
    ensures
        r == float_pair(a.deep_view(), b.deep_view()),
{
    match (a, b) {
        (Data::Float(_), Data::Float(_)) => true,
        (Data::Float(_), Data::Int(_)) => true,
        (Data::Int(_), Data::Float(_)) => true,
        _ => false,
    }
}

/// Whether `close` was asked about each column in which the rows `o` and `w` hold
/// numbers of which one is a floating-point number, and answered as noted.
pub open spec fn row_answers_noted<F: Fn(usize, usize, usize) -> bool>(
    close: F,
    old_row: Seq<DataView>,
    new_row: Seq<DataView>,
    o: usize,
    w: usize,
    numbers_close: Seq<bool>,
) -> bool {
    forall|c: usize|
        float_pair(
            item_at(Some(old_row), c as int, DataView::Empty),
            item_at(Some(new_row), c as int, DataView::Empty),
        ) ==> call_ensures(close, (o, w, c), #[trigger] close_at(numbers_close, c as int))
}

/// Whether the answers of `close` on matched rows are as noted.
pub open spec fn answers_noted<F: Fn(usize, usize, usize) -> bool>(
    close: F,
    old: Seq<Seq<DataView>>,
    new: Seq<Seq<DataView>>,
    row: AlignedView,
) -> bool {
    match row.alignment {
        RowAlignment::Matched(o, w) => row_answers_noted(
            close,
            old[o as int],
            new[w as int],
            o,
            w,
            row.numbers_close,
        ),
        _ => true,
    }
}

/// Whether `rows` is the alignment of two sheets' rows with the answers of `close`.
pub open spec fn aligned_with<F: Fn(usize, usize, usize) -> bool>(
    close: F,
    old: Seq<Seq<DataView>>,
    new: Seq<Seq<DataView>>,
    key_index: Option<usize>,
    pairwise_limit: usize,
    rows: Seq<AlignedView>,
) -> bool {
    &&& rows.map_values(|row: AlignedView| row.alignment) == row_alignment(
        old,
        new,
        key_index,
        pairwise_limit,
    )
    &&& forall|k: int|
        0 <= k < rows.len() ==> answers_noted(close, old, new, #[trigger] rows[k])
}

fn ask_row<F: Fn(usize, usize, usize) -> bool>(
    close: &F,
    old_row: &Vec<Data>,
    new_row: &Vec<Data>,
    o: usize,
    w: usize,
) -> (r: Vec<bool>)
    requires
        forall|x: usize, y: usize, z: usize| call_requires(*close, (x, y, z)),
    ensures
        row_answers_noted(*close, old_row.deep_view(), new_row.deep_view(), o, w, r@),
{
    let mut answers: Vec<bool> = Vec::new();
    let mut c: usize = 0;
    while c < old_row.len() && c < new_row.len()
        invariant
            c <= old_row.len(),
            c <= new_row.len(),
            answers.len() == c,
            forall|x: usize, y: usize, z: usize| call_requires(*close, (x, y, z)),
            forall|k: usize|
                k < c && float_pair(
                    old_row.deep_view()[k as int],
                    new_row.deep_view()[k as int],
                ) ==> call_ensures(*close, (o, w, k), #[trigger] close_at(answers@, k as int)),
        decreases old_row.len() - c,
    {
        let ghost before = answers@;
        let answer = if is_float_pair(&old_row[c], &new_row[c]) {
            close(o, w, c)
        } else {
            false
        };
        answers.push(answer);
        assert forall|k: usize|
            k < c + 1 && float_pair(
                old_row.deep_view()[k as int],
                new_row.deep_view()[k as int],
            ) implies call_ensures(*close, (o, w, k), #[trigger] close_at(answers@, k as int)) by {
            if k < c {
                assert(call_ensures(*close, (o, w, k), close_at(before, k as int)));
                assert(close_at(answers@, k as int) == close_at(before, k as int));
            } else {
                assert(close_at(answers@, k as int) == answer);
                assert(old_row.deep_view()[c as int] == old_row@[c as int].deep_view());
                assert(new_row.deep_view()[c as int] == new_row@[c as int].deep_view());
            }
        }
        c = c + 1;
    }
    answers
}

/// Aligns the rows of two sheets and asks `close` about the floating-point numbers
/// of matched rows: by old row, new row and column, whether the numbers there are
/// within the tolerance of each other.
pub fn align_rows<F: Fn(usize, usize, usize) -> bool>(
    old_grid: &[Vec<Data>],
    new_grid: &[Vec<Data>],
    key_index: Option<usize>,
    pairwise_limit: usize,
    close: &F,
) -> (r: Vec<AlignedRow>)
    requires
        forall|x: usize, y: usize, z: usize| call_requires(*close, (x, y, z)),
    ensures
        aligned_with(
            *close,
            old_grid.deep_view(),
            new_grid.deep_view(),
            key_index,
            pairwise_limit,
            r.deep_view(),
        ),
        rows_in_bounds(r.deep_view(), old_grid@.len(), new_grid@.len()),
{
    let ghost old = old_grid.deep_view();
    let ghost new = new_grid.deep_view();
    let alignments = align_matrices(old_grid, new_grid, key_index, pairwise_limit);
    let mut rows: Vec<AlignedRow> = Vec::new();
    let mut i: usize = 0;
    while i < alignments.len()
        invariant
            i <= alignments.len(),
            rows.len() == i,
            old == old_grid.deep_view(),
            new == new_grid.deep_view(),
            in_bounds(alignments@, old_grid@.len(), new_grid@.len()),
            forall|x: usize, y: usize, z: usize| call_requires(*close, (x, y, z)),
            forall|k: int|
                0 <= k < i ==> {
                    &&& (#[trigger] rows@[k]).alignment == alignments@[k]
                    &&& answers_noted(*close, old, new, rows@[k].deep_view())
                },
        decreases alignments.len() - i,
    {
        let alignment = alignments[i];
        let numbers_close: Vec<bool> = match alignment {
            RowAlignment::Matched(o, w) => {
                assert(old[o as int] == old_grid@[o as int].deep_view());
                assert(new[w as int] == new_grid@[w as int].deep_view());
                ask_row(close, &old_grid[o], &new_grid[w], o, w)
            },
            _ => Vec::new(),
        };
        rows.push(AlignedRow { alignment, numbers_close });
        i = i + 1;
    }
    proof {
        let views = rows.deep_view();
        assert(views.map_values(|row: AlignedView| row.alignment) =~= alignments@);
        assert forall|k: int| 0 <= k < views.len() implies answers_noted(
            *close,
            old,
            new,
            #[trigger] views[k],
        ) by {
            assert(views[k] == rows@[k].deep_view());
        }
    }
    rows
}

/// The grids of a sheet with its style numbers looked up in the catalog.
pub open spec fn snapshot_grids(
    snapshot: SnapshotView,
    catalog: Option<Seq<StyleView>>,
) -> GridsView {
    GridsView {
        values: snapshot.values,
        formulas: Some(snapshot.formulas),
        styles: match snapshot.style_ids {
            Some(ids) => Some(resolved_styles(catalog, ids)),
            None => None,
        },
    }
}

/// The changes of the cells of two sheets, given which row belongs to which.
pub fn snapshot_deltas(
    old_snapshot: &SheetSnapshot,
    new_snapshot: &SheetSnapshot,
    old_catalog: Option<&StyleCatalog>,
    new_catalog: Option<&StyleCatalog>,
    rows: &[AlignedRow],
) -> (r: Vec<CellDelta>)
    requires
        rows_in_bounds(rows.deep_view(), old_snapshot.values@.len(), new_snapshot.values@.len()),
    ensures
        r.deep_view() == sheet_deltas(
            snapshot_grids(old_snapshot.deep_view(), old_catalog.deep_view()),
            snapshot_grids(new_snapshot.deep_view(), new_catalog.deep_view()),
            rows.deep_view(),
        ),
{
    let old_ids: Option<&[Vec<Option<u32>>]> = match &old_snapshot.style_ids {
        Some(ids) => Some(ids.as_slice()),
        None => None,
    };
    let new_ids: Option<&[Vec<Option<u32>>]> = match &new_snapshot.style_ids {
        Some(ids) => Some(ids.as_slice()),
        None => None,
    };
    let old_profiles = resolve_style_matrix(old_catalog, old_ids);
    let new_profiles = resolve_style_matrix(new_catalog, new_ids);
    let old_styles = match &old_profiles {
        Some(profiles) => Some(profiles.as_slice()),
        None => None,
    };
    let new_styles = match &new_profiles {
        Some(profiles) => Some(profiles.as_slice()),
        None => None,
    };
    compute_deltas_parallel(
        old_snapshot.values.as_slice(),
        new_snapshot.values.as_slice(),
        Some(old_snapshot.formulas.as_slice()),
        Some(new_snapshot.formulas.as_slice()),
        old_styles,
        new_styles,
        rows,
    )
}

/// Whether `deltas` are the changes from one sheet to another, with the answers of
/// `close` on floating-point numbers.
pub open spec fn are_snapshot_deltas<F: Fn(usize, usize, usize) -> bool>(
    close: F,
    old: SnapshotView,
    new: SnapshotView,
    old_catalog: Option<Seq<StyleView>>,
    new_catalog: Option<Seq<StyleView>>,
    key_index: Option<usize>,
    pairwise_limit: usize,
    deltas: Seq<DeltaView>,
) -> bool {
    exists|rows: Seq<AlignedView>|
        {
            &&& #[trigger] aligned_with(
                close,
                old.values,
                new.values,
                key_index,
                pairwise_limit,
                rows,
            )
            &&& deltas == sheet_deltas(
                snapshot_grids(old, old_catalog),
                snapshot_grids(new, new_catalog),
                rows,
            )
        }
}

/// Compares two sheets: aligns their rows, and lists the changes of the cells.
pub fn diff_snapshots<F: Fn(usize, usize, usize) -> bool>(
    old_snapshot: &SheetSnapshot,
    new_snapshot: &SheetSnapshot,
    old_catalog: Option<&StyleCatalog>,
    new_catalog: Option<&StyleCatalog>,
    key_index: Option<usize>,
    pairwise_limit: usize,
    close: &F,
) -> (r: Vec<CellDelta>)
    requires
        forall|x: usize, y: usize, z: usize| call_requires(*close, (x, y, z)),
    ensures
        are_snapshot_deltas(
            *close,
            old_snapshot.deep_view(),
            new_snapshot.deep_view(),
            old_catalog.deep_view(),
            new_catalog.deep_view(),
            key_index,
            pairwise_limit,
            r.deep_view(),
        ),
{
    let rows = align_rows(
        old_snapshot.values.as_slice(),
        new_snapshot.values.as_slice(),
        key_index,
        pairwise_limit,
        close,
    );
    snapshot_deltas(old_snapshot, new_snapshot, old_catalog, new_catalog, rows.as_slice())
}

/// Compares a sheet that both workbooks have.
pub fn compare_sheet<F: Fn(usize, usize, usize) -> bool>(
    sheet_name: &str,
    old_snapshot: &SheetSnapshot,
    new_snapshot: &SheetSnapshot,
    old_catalog: Option<&StyleCatalog>,
    new_catalog: Option<&StyleCatalog>,
    key_index: Option<usize>,
    pairwise_limit: usize,
    close: &F,
) -> (r: ComparedSheet)
    requires
        forall|x: usize, y: usize, z: usize| call_requires(*close, (x, y, z)),
    ensures
        r.sheet_name@ == sheet_name@,
        r.row_count_old == old_snapshot.values@.len(),
        r.row_count_new == new_snapshot.values@.len(),
        are_snapshot_deltas(
            *close,
            old_snapshot.deep_view(),
            new_snapshot.deep_view(),
            old_catalog.deep_view(),
            new_catalog.deep_view(),
            key_index,
            pairwise_limit,
            r.cell_deltas.deep_view(),
        ),
{
    ComparedSheet {
        sheet_name: sheet_name.to_owned(),
        row_count_old: old_snapshot.values.len(),
        row_count_new: new_snapshot.values.len(),
        cell_deltas: diff_snapshots(
            old_snapshot,
            new_snapshot,
            old_catalog,
            new_catalog,
            key_index,
            pairwise_limit,
            close,
        ),
    }
}

/// A sheet compared with itself shows no change, if every number counts as close to
/// itself. With a key column this takes a key in each row, and no key twice.
pub proof fn law_sheet_does_not_differ_from_itself<F: Fn(usize, usize, usize) -> bool>(
    close: F,
    snapshot: SnapshotView,
    catalog: Option<Seq<StyleView>>,
    key_index: Option<usize>,
    pairwise_limit: usize,
    deltas: Seq<DeltaView>,
)
    requires
        snapshot.values.len() <= usize::MAX,
        key_index matches Some(index) ==> fully_keyed(snapshot.values, index),
        forall|i: int|
            0 <= i < snapshot.values.len() ==> (#[trigger] snapshot.values[i]).len()
                <= usize::MAX,
        forall|i: usize, c: usize, answer: bool|
            #[trigger] call_ensures(close, (i, i, c), answer) ==> answer,
        are_snapshot_deltas(
            close,
            snapshot,
            snapshot,
            catalog,
            catalog,
            key_index,
            pairwise_limit,
            deltas,
        ),
    ensures
        deltas.len() == 0,
{
    let values = snapshot.values;
    let grids = snapshot_grids(snapshot, catalog);
    let rows = choose|rows: Seq<AlignedView>|
        {
            &&& #[trigger] aligned_with(close, values, values, key_index, pairwise_limit, rows)
            &&& deltas == sheet_deltas(grids, grids, rows)
        };
    law_sheet_aligns_with_itself(values, key_index, pairwise_limit);
    let alignments = rows.map_values(|row: AlignedView| row.alignment);
    assert forall|k: int|
        0 <= k < rows.len() && k < grids.values.len() implies numbers_close_to_themselves(
        grids.values[k],
        (#[trigger] rows[k]).numbers_close,
    ) by {
        assert(alignments[k] == RowAlignment::Matched(k as usize, k as usize));
        assert(rows[k].alignment == RowAlignment::Matched(k as usize, k as usize));
        assert(answers_noted(close, values, values, rows[k]));
        let cells = snapshot.values[k];
        assert(cells.len() <= usize::MAX);
        assert forall|c: int|
            0 <= c < cells.len() && float_pair(#[trigger] cells[c], cells[c]) implies close_at(
            rows[k].numbers_close,
            c,
        ) by {
            let col = c as usize;
            assert(col as int == c);
            assert(item_at(Some(cells), col as int, DataView::Empty) == cells[c]);
            let index = k as usize;
            assert(index as int == k);
            assert(rows[k].alignment == RowAlignment::Matched(index, index));
            assert(float_pair(
                item_at(Some(values[index as int]), col as int, DataView::Empty),
                item_at(Some(values[index as int]), col as int, DataView::Empty),
            ));
            assert(call_ensures(
                close,
                (index, index, col),
                close_at(rows[k].numbers_close, col as int),
            ));
        }
    }
    law_same_sheet_has_no_deltas(grids, key_index, pairwise_limit, rows);
}

/// The grids of a sheet are its values, its formulas, and the formats that its style
/// numbers have in the catalog.
pub proof fn law_grids_of_a_sheet(
    snapshot: SnapshotView,
    catalog: Option<Seq<StyleView>>,
    r: int,
    c: int,
)
    ensures
        ({
            let grids = snapshot_grids(snapshot, catalog);
            &&& grids.values == snapshot.values
            &&& grids.formulas == Some(snapshot.formulas)
            &&& grids.styles is Some <==> snapshot.style_ids is Some
            &&& snapshot.style_ids matches Some(ids) ==> {
                &&& grids.styles->0.len() == ids.len()
                &&& 0 <= r < ids.len() ==> grids.styles->0[r].len() == ids[r].len()
                &&& 0 <= r < ids.len() && 0 <= c < ids[r].len() ==> grids.styles->0[r][c]
                    == resolved_style(catalog, ids[r][c])
            }
        }),
{
}

/// The changes from one sheet to another are those of the alignment of their rows,
/// and in it every pair of numbers in matched rows of which one is a floating-point
/// number is as close as `close` says.
pub proof fn law_changes_follow_alignment_and_closeness<F: Fn(usize, usize, usize) -> bool>(
    close: F,
    old: SnapshotView,
    new: SnapshotView,
    old_catalog: Option<Seq<StyleView>>,
    new_catalog: Option<Seq<StyleView>>,
    key_index: Option<usize>,
    pairwise_limit: usize,
    deltas: Seq<DeltaView>,
) -> (rows: Seq<AlignedView>)
    requires
        are_snapshot_deltas(
            close,
            old,
            new,
            old_catalog,
            new_catalog,
            key_index,
            pairwise_limit,
            deltas,
        ),
    ensures
        deltas == sheet_deltas(
            snapshot_grids(old, old_catalog),
            snapshot_grids(new, new_catalog),
            rows,
        ),
        rows.map_values(|row: AlignedView| row.alignment) == row_alignment(
            old.values,
            new.values,
            key_index,
            pairwise_limit,
        ),
        forall|k: int, o: usize, w: usize, c: usize|
            #![trigger rows[k], old.values[o as int], new.values[w as int][c as int]]
            {
                &&& 0 <= k < rows.len()
                &&& rows[k].alignment == RowAlignment::Matched(o, w)
                &&& c < old.values[o as int].len() && c < new.values[w as int].len()
                &&& old.values[o as int][c as int] is Float || old.values[o as int][c as int] is Int
                &&& new.values[w as int][c as int] is Float || new.values[w as int][c as int] is Int
                &&& old.values[o as int][c as int] is Float || new.values[w as int][c as int] is Float
            } ==> call_ensures(
                close,
                (o, w, c),
                c < rows[k].numbers_close.len() && rows[k].numbers_close[c as int],
            ),
{
    let rows = choose|rows: Seq<AlignedView>|
        {
            &&& #[trigger] aligned_with(
                close,
                old.values,
                new.values,
                key_index,
                pairwise_limit,
                rows,
            )
            &&& deltas == sheet_deltas(
                snapshot_grids(old, old_catalog),
                snapshot_grids(new, new_catalog),
                rows,
            )
        };
    assert forall|k: int, o: usize, w: usize, c: usize|
        #![trigger rows[k], old.values[o as int], new.values[w as int][c as int]]
        {
            &&& 0 <= k < rows.len()
            &&& rows[k].alignment == RowAlignment::Matched(o, w)
            &&& c < old.values[o as int].len() && c < new.values[w as int].len()
            &&& old.values[o as int][c as int] is Float || old.values[o as int][c as int] is Int
            &&& new.values[w as int][c as int] is Float || new.values[w as int][c as int] is Int
            &&& old.values[o as int][c as int] is Float || new.values[w as int][c as int] is Float
        } implies call_ensures(
        close,
        (o, w, c),
        c < rows[k].numbers_close.len() && rows[k].numbers_close[c as int],
    ) by {
        assert(answers_noted(close, old.values, new.values, rows[k]));
        assert(close_at(rows[k].numbers_close, c as int) == (c < rows[k].numbers_close.len()
            && rows[k].numbers_close[c as int]));
    }
    rows
}

} // verus!
