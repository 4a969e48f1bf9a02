//! Rows of cells: trailing blanks, room for a cell, and size limits.

use crate::cell::{Data, DataView};
use crate::text::{decimal_text, joined, result_view, u64_text};
use vstd::prelude::*;

verus! {

/// The row with the index `i`, if there is one.
pub open spec fn row_at<A>(rows: Seq<Seq<A>>, i: int) -> Option<Seq<A>> {
    if 0 <= i < rows.len() {
        Some(rows[i])
    } else {
        None
    }
}

/// The contents of an optional grid.
pub open spec fn grid_view<T: DeepView>(grid: Option<&[Vec<T>]>) -> Option<Seq<Seq<T::V>>> {
    match grid {
        Some(rows) => Some(rows.deep_view()),
        None => None,
    }
}

/// The row with the index `i` of an optional grid, if there is one.
pub open spec fn grid_row<A>(grid: Option<Seq<Seq<A>>>, i: int) -> Option<Seq<A>> {
    match grid {
        Some(rows) => row_at(rows, i),
        None => None,
    }
}

/// The item with the index `i` of a row, or `default` where there is none.
pub open spec fn item_at<A>(row: Option<Seq<A>>, i: int, default: A) -> A {
    match row {
        Some(items) if 0 <= i < items.len() => items[i],
        _ => default,
    }
}

/// The number of items of a row, if there is one.
pub open spec fn width<A>(row: Option<Seq<A>>) -> nat {
    match row {
        Some(items) => items.len(),
        None => 0,
    }
}

/// The greater of two lengths.
pub open spec fn longer(a: nat, b: nat) -> nat {
    if a >= b {
        a
    } else {
        b
    }
}

/// The row with the index `i`, if there is one.
pub fn get_row<T: DeepView>(rows: &[Vec<T>], i: usize) -> (r: Option<&Vec<T>>)
    ensures
        r.deep_view() == row_at(rows.deep_view(), i as int),
        match r {
            Some(row) => i < rows@.len() && *row == rows@[i as int],
            None => i >= rows@.len(),
        },
{
    if i < rows.len() {
        Some(&rows[i])
    } else {
        None
    }
}

/// The row with the index `i` of an optional grid, if there is one.
pub fn get_grid_row<T: DeepView>(grid: Option<&[Vec<T>]>, i: usize) -> (r: Option<&Vec<T>>)
    ensures
        r.deep_view() == grid_row(grid_view(grid), i as int),
{
    match grid {
        Some(rows) => get_row(rows, i),
        None => None,
    }
}

/// The item with the index `i` of a row, if there is one.
pub fn get_item<T>(row: Option<&Vec<T>>, i: usize) -> (r: Option<&T>)
    ensures
        match r {
            Some(item) => row is Some && i < row->0@.len() && *item == row->0@[i as int],
            None => row is Some ==> i >= row->0@.len(),
        },
{
    match row {
        Some(items) => if i < items.len() {
            Some(&items[i])
        } else {
            None
        },
        None => None,
    }
}

/// The number of items of a row, if there is one.
pub fn row_width<T: DeepView>(row: Option<&Vec<T>>) -> (r: usize)
    ensures
        r == width(row.deep_view()),
{
    match row {
        Some(items) => items.len(),
        None => 0,
    }
}

/// The greater of two lengths.
pub fn greater(a: usize, b: usize) -> (r: usize)
    ensures
        r == longer(a as nat, b as nat),
{
    if a >= b {
        a
    } else {
        b
    }
}

/// Whether every cell of a row is blank.
pub open spec fn blank_row<A>(row: Seq<A>, blank: A) -> bool {
    forall|i: int| 0 <= i < row.len() ==> #[trigger] row[i] == blank
}

/// The rows without the blank ones at the end.
pub open spec fn without_blank_end<A>(rows: Seq<Seq<A>>, blank: A) -> Seq<Seq<A>>
    decreases rows.len(),
{
    if rows.len() > 0 && blank_row(rows.last(), blank) {
        without_blank_end(rows.drop_last(), blank)
    } else {
        rows
    }
}

/// What is kept is the start of the rows, up to the last row that is not blank;
/// what is cut off is blank.
pub proof fn law_without_blank_end<A>(rows: Seq<Seq<A>>, blank: A)
    ensures
        ({
            let kept = without_blank_end(rows, blank);
            &&& kept.len() <= rows.len()
            &&& kept == rows.take(kept.len() as int)
            &&& kept.len() > 0 ==> !blank_row(kept.last(), blank)
            &&& forall|i: int|
                kept.len() <= i < rows.len() ==> blank_row(#[trigger] rows[i], blank)
        }),
    decreases rows.len(),
{
    if rows.len() > 0 && blank_row(rows.last(), blank) {
        let shorter = rows.drop_last();
        law_without_blank_end(shorter, blank);
        let kept = without_blank_end(shorter, blank);
        assert(shorter.take(kept.len() as int) =~= rows.take(kept.len() as int));
        assert forall|i: int| kept.len() <= i < rows.len() implies blank_row(
            #[trigger] rows[i],
            blank,
        ) by {
            if i < shorter.len() {
                assert(shorter[i] == rows[i]);
            }
        }
    } else {
        assert(rows.take(rows.len() as int) =~= rows);
    }
}

/// Blank rows at the end make no difference.
pub proof fn law_blank_end_is_ignored<A>(rows: Seq<Seq<A>>, more: Seq<Seq<A>>, blank: A)
    requires
        forall|i: int| 0 <= i < more.len() ==> blank_row(#[trigger] more[i], blank),
    ensures
        without_blank_end(rows + more, blank) == without_blank_end(rows, blank),
    decreases more.len(),
{
    if more.len() == 0 {
        assert(rows + more =~= rows);
    } else {
        let fewer = more.drop_last();
        assert forall|i: int| 0 <= i < fewer.len() implies blank_row(
            #[trigger] fewer[i],
            blank,
        ) by {
            assert(fewer[i] == more[i]);
        }
        law_blank_end_is_ignored(rows, fewer, blank);
        assert((rows + more).drop_last() =~= rows + fewer);
        assert(blank_row(more[more.len() - 1], blank));
    }
}

fn is_blank(row: &Vec<Data>) -> (r: bool)
    ensures
        r == blank_row(row.deep_view(), DataView::Empty),
{
    let mut i: usize = 0;
    while i < row.len()
        invariant
            i <= row.len(),
            forall|k: int| 0 <= k < i ==> (#[trigger] row@[k]).deep_view() == DataView::Empty,
        decreases row.len() - i,
    {
        match &row[i] {
            Data::Empty => {},
            _ => {
                assert(row.deep_view()[i as int] != DataView::Empty);
                return false;
            },
        }
        i = i + 1;
    }
    true
}

/// Drops the rows at the end in which every cell is empty.
pub fn trim_trailing_empty_rows(rows: Vec<Vec<Data>>) -> (r: Vec<Vec<Data>>)
    ensures
        r.deep_view() == without_blank_end(rows.deep_view(), DataView::Empty),
{
    let mut kept = rows;
    let ghost all = rows.deep_view();
    loop
        invariant
            without_blank_end(kept.deep_view(), DataView::Empty) == without_blank_end(
                all,
                DataView::Empty,
            ),
        ensures
            kept.deep_view() == without_blank_end(all, DataView::Empty),
        decreases kept.len(),
    {
        let n: usize = kept.len();
        let ghost before = kept.deep_view();
        if n == 0 {
            break;
        }
        assert(before.last() == kept@[n - 1].deep_view());
        if !is_blank(&kept[n - 1]) {
            break;
        }
        kept.pop();
        assert(kept.deep_view() =~= before.drop_last());
    }
    kept
}

fn is_unstyled(row: &Vec<Option<u32>>) -> (r: bool)
    ensures
        r == blank_row(row.deep_view(), None),
{
    let mut i: usize = 0;
    while i < row.len()
        invariant
            i <= row.len(),
            forall|k: int| 0 <= k < i ==> #[trigger] row@[k] is None,
        decreases row.len() - i,
    {
        if row[i].is_some() {
            assert(row.deep_view()[i as int] is Some);
            return false;
        }
        i = i + 1;
    }
    true
}

/// Drops the rows at the end in which no cell has a style.
pub fn trim_trailing_none_rows(rows: Vec<Vec<Option<u32>>>) -> (r: Vec<Vec<Option<u32>>>)
    ensures
        r.deep_view() == without_blank_end(rows.deep_view(), None),
{
    let mut kept = rows;
    let ghost all = rows.deep_view();
    loop
        invariant
            without_blank_end(kept.deep_view(), None) == without_blank_end(all, None),
        ensures
            kept.deep_view() == without_blank_end(all, None),
        decreases kept.len(),
    {
        let n: usize = kept.len();
        let ghost before = kept.deep_view();
        if n == 0 {
            break;
        }
        assert(before.last() == kept@[n - 1].deep_view());
        if !is_unstyled(&kept[n - 1]) {
            break;
        }
        kept.pop();
        assert(kept.deep_view() =~= before.drop_last());
    }
    kept
}

/// `s` with `fill` added at the end until there are at least `n` items.
pub open spec fn padded<A>(s: Seq<A>, n: nat, fill: A) -> Seq<A> {
    if s.len() < n {
        s + Seq::new((n - s.len()) as nat, |i: int| fill)
    } else {
        s
    }
}

/// The matrix with room for the cell in row `row` and column `col`.
pub open spec fn with_slot(
    matrix: Seq<Seq<Option<u32>>>,
    row: usize,
    col: usize,
) -> Seq<Seq<Option<u32>>> {
    let rows = padded(matrix, (row + 1) as nat, Seq::empty());
    rows.update(row as int, padded(rows[row as int], (col + 1) as nat, None))
}

/// Adds empty rows until there are at least `n`.
pub fn ensure_rows(matrix: &mut Vec<Vec<Option<u32>>>, n: usize)
    ensures
        final(matrix).deep_view() == padded(old(matrix).deep_view(), n as nat, Seq::empty()),
{
    let ghost before = matrix.deep_view();
    while matrix.len() < n
        invariant
            before.len() <= matrix.len(),
            before.len() < n ==> matrix.len() <= n,
            before.len() >= n ==> matrix.len() == before.len(),
            matrix.deep_view() == padded(before, matrix.len() as nat, Seq::empty()),
        decreases n - matrix.len(),
    {
        let ghost step = matrix.deep_view();
        let row: Vec<Option<u32>> = Vec::new();
        assert(row.deep_view() =~= Seq::empty());
        matrix.push(row);
        assert(matrix.deep_view() =~= step.push(Seq::empty()));
        assert(matrix.deep_view() =~= padded(before, matrix.len() as nat, Seq::empty()));
    }
}

/// Makes room for the cell in row `row` and column `col`.
pub fn ensure_matrix_slot(matrix: &mut Vec<Vec<Option<u32>>>, row: usize, col: usize)
    requires
        row < usize::MAX,
        col < usize::MAX,
    ensures
        final(matrix).deep_view() == with_slot(old(matrix).deep_view(), row, col),
{
    ensure_rows(matrix, row + 1);
    let ghost rows = matrix.deep_view();
    assert(rows.len() == matrix.len());
    assert(rows[row as int] == matrix@[row as int].deep_view());
    if matrix[row].len() <= col {
        matrix[row].resize(col + 1, None);
    }
    assert(matrix.deep_view()[row as int] =~= padded(rows[row as int], (col + 1) as nat, None));
    assert(matrix.deep_view() =~= with_slot(old(matrix).deep_view(), row, col));
}

/// The matrix with `style` in row `row` and column `col`.
pub open spec fn with_style(
    matrix: Seq<Seq<Option<u32>>>,
    row: usize,
    col: usize,
    style: Option<u32>,
) -> Seq<Seq<Option<u32>>> {
    let roomy = with_slot(matrix, row, col);
    roomy.update(row as int, roomy[row as int].update(col as int, style))
}

/// Stores a style number, making room for it where needed.
pub fn store_style(
    matrix: &mut Vec<Vec<Option<u32>>>,
    row: usize,
    col: usize,
    style: Option<u32>,
)
    requires
        row < usize::MAX,
        col < usize::MAX,
    ensures
        final(matrix).deep_view() == with_style(old(matrix).deep_view(), row, col, style),
{
    ensure_matrix_slot(matrix, row, col);
    let ghost roomy = matrix.deep_view();
    assert(roomy.len() == matrix.len());
    assert(roomy[row as int] == matrix@[row as int].deep_view());
    matrix[row][col] = style;
    assert(matrix.deep_view()[row as int] =~= roomy[row as int].update(col as int, style));
    assert(matrix.deep_view() =~= with_style(old(matrix).deep_view(), row, col, style));
}

/// The style number in row `row` and column `col`; `None` outside the matrix.
pub open spec fn style_at(matrix: Seq<Seq<Option<u32>>>, row: int, col: int) -> Option<u32> {
    if 0 <= row < matrix.len() && 0 <= col < matrix[row].len() {
        matrix[row][col]
    } else {
        None
    }
}

/// A stored style number is read back where it was stored, and every other cell
/// keeps its own.
pub proof fn law_stored_style_is_read_back(
    matrix: Seq<Seq<Option<u32>>>,
    row: usize,
    col: usize,
    style: Option<u32>,
    r: int,
    c: int,
)
    ensures
        style_at(with_style(matrix, row, col, style), r, c) == (if r == row && c == col {
            style
        } else {
            style_at(matrix, r, c)
        }),
{
}

/// Dropping the rows without styles changes no cell's style number.
pub proof fn law_trimmed_matrix_keeps_styles(matrix: Seq<Seq<Option<u32>>>, r: int, c: int)
    ensures
        style_at(without_blank_end(matrix, None), r, c) == style_at(matrix, r, c),
{
    law_without_blank_end(matrix, None);
    let kept = without_blank_end(matrix, None);
    if 0 <= r < kept.len() {
        assert(kept[r] == matrix[r]);
    } else if kept.len() <= r < matrix.len() {
        assert(blank_row(matrix[r], None));
    }
}

/// Whether a file of `length` bytes, where its length is known, is over the limit.
pub open spec fn too_large(length: Option<u64>, max_input_bytes: u64) -> bool {
    length matches Some(n) && n > max_input_bytes
}

/// Refuses a file whose length is known to be over the limit.
pub fn check_input_size(length: Option<u64>, max_input_bytes: u64) -> (r: Result<(), String>)
    ensures
        match r {
            Ok(_) => !too_large(length, max_input_bytes),
            Err(message) => too_large(length, max_input_bytes) && message@
                == "Input file too large (> "@ + decimal_text(max_input_bytes as nat)
                + " bytes)"@,
        },
{
    if let Some(n) = length {
        if n > max_input_bytes {
            let mut message = joined(
                "Input file too large (> ",
                u64_text(max_input_bytes).as_str(),
            );
            message.append(" bytes)");
            return Err(message);
        }
    }
    Ok(())
}

/// The length of the longest row.
pub open spec fn widest<A>(rows: Seq<Seq<A>>) -> nat
    decreases rows.len(),
{
    if rows.len() == 0 {
        0
    } else {
        let before = widest(rows.drop_last());
        if rows.last().len() > before {
            rows.last().len()
        } else {
            before
        }
    }
}

/// The number of cells of the rectangle that holds the rows, at most the largest
/// index.
pub open spec fn cell_count<A>(rows: Seq<Seq<A>>) -> nat {
    if rows.len() * widest(rows) > usize::MAX {
        usize::MAX as nat
    } else {
        rows.len() * widest(rows)
    }
}

/// The rows of a sheet as they are compared, or why they are not: the sheet could
/// not be read, or it has more cells than allowed.
pub open spec fn checked_rows(
    rows: Option<Seq<Seq<DataView>>>,
    sheet_name: Seq<char>,
    max_cell_count: usize,
) -> Result<Seq<Seq<DataView>>, Seq<char>> {
    match rows {
        None => Err("Sheet '"@ + sheet_name + "' not found or failed to parse."@),
        Some(rows) => if cell_count(rows) > max_cell_count {
            Err(
                "Sheet has too many cells ("@ + decimal_text(cell_count(rows)) + ") > limit "@
                    + decimal_text(max_cell_count as nat),
            )
        } else {
            Ok(without_blank_end(rows, DataView::Empty))
        },
    }
}

fn max_columns(rows: &Vec<Vec<Data>>) -> (r: usize)
    ensures
        r == widest(rows.deep_view()),
{
    let ghost all = rows.deep_view();
    let mut max: usize = 0;
    let mut i: usize = 0;
    assert(all.take(0) =~= Seq::empty());
    while i < rows.len()
        invariant
            i <= rows.len(),
            all == rows.deep_view(),
            max == widest(all.take(i as int)),
        decreases rows.len() - i,
    {
        proof {
            assert(all.take(i + 1).drop_last() =~= all.take(i as int));
            assert(all.take(i + 1).last() == rows@[i as int].deep_view());
        }
        if rows[i].len() > max {
            max = rows[i].len();
        }
        i = i + 1;
    }
    assert(all.take(all.len() as int) =~= all);
    max
}

/// Checks the rows that were read from a sheet, `None` if that failed, and drops
/// the empty ones at the end.
pub fn checked_sheet_rows(
    rows: Option<Vec<Vec<Data>>>,
    sheet_name: &str,
    max_cell_count: usize,
) -> (r: Result<Vec<Vec<Data>>, String>)
    ensures
        result_view(r) == checked_rows(rows.deep_view(), sheet_name@, max_cell_count),
{
    match rows {
        None => {
            let mut message = joined("Sheet '", sheet_name);
            message.append("' not found or failed to parse.");
            Err(message)
        },
        Some(rows) => {
            let count: usize = match rows.len().checked_mul(max_columns(&rows)) {
                Some(count) => count,
                None => usize::MAX,
            };
            assert(count == cell_count(rows.deep_view()));
            if count > max_cell_count {
                let mut message = joined(
                    "Sheet has too many cells (",
                    u64_text(count as u64).as_str(),
                );
                message.append(") > limit ");
                message.append(u64_text(max_cell_count as u64).as_str());
                return Err(message);
            }
            Ok(trim_trailing_empty_rows(rows))
        },
    }
}

/// A row, and an item of a row, is what is held at its index; beyond the end there is
/// no row, and an item is the default. A row that there is not has no items.
pub proof fn law_rows_and_items_are_found_by_index<A>(rows: Seq<Seq<A>>, i: int, c: int, default: A)
    ensures
        0 <= i < rows.len() ==> row_at(rows, i) == Some(rows[i]) && grid_row(Some(rows), i) == Some(
            rows[i],
        ),
        i >= rows.len() ==> row_at(rows, i) is None && grid_row(Some(rows), i) is None,
        grid_row(None::<Seq<Seq<A>>>, i) is None,
        0 <= i < rows.len() && 0 <= c < rows[i].len() ==> item_at(Some(rows[i]), c, default)
            == rows[i][c],
        0 <= i < rows.len() && c >= rows[i].len() ==> item_at(Some(rows[i]), c, default) == default,
        item_at(None, c, default) == default,
        0 <= i < rows.len() ==> width(Some(rows[i])) == rows[i].len(),
        width(None::<Seq<A>>) == 0,
{
}

/// The greater of two lengths is one of the two, and neither is greater.
pub proof fn law_greater_length(a: nat, b: nat)
    ensures
        longer(a, b) >= a,
        longer(a, b) >= b,
        longer(a, b) == a || longer(a, b) == b,
{
}

/// Only blank rows are cut off, and only at the end: the rows that are kept are
/// unchanged and in place, the last of them has a cell that is not blank, and in the
/// rows behind it every cell is blank.
pub proof fn law_rows_are_cut_behind_the_last_filled_cell<A>(rows: Seq<Seq<A>>, blank: A)
    ensures
        ({
            let kept = without_blank_end(rows, blank);
            &&& kept.len() <= rows.len()
            &&& forall|r: int| 0 <= r < kept.len() ==> #[trigger] kept[r] == rows[r]
            &&& kept.len() > 0 ==> exists|c: int|
                0 <= c < rows[kept.len() - 1].len() && #[trigger] rows[kept.len() - 1][c] != blank
            &&& forall|r: int, c: int|
                kept.len() <= r < rows.len() && 0 <= c < rows[r].len() ==> #[trigger] rows[r][c]
                    == blank
        }),
{
    law_without_blank_end(rows, blank);
    let kept = without_blank_end(rows, blank);
    assert forall|r: int, c: int|
        kept.len() <= r < rows.len() && 0 <= c < rows[r].len() implies #[trigger] rows[r][c]
        == blank by {
        assert(blank_row(rows[r], blank));
    }
}

/// Making room for a cell keeps every cell that there was and adds no more than is
/// needed: empty rows up to that of the cell, and in that row cells without a style up
/// to the cell.
pub proof fn law_room_is_made_up_to_the_cell(
    matrix: Seq<Seq<Option<u32>>>,
    row: usize,
    col: usize,
    r: int,
    c: int,
)
    ensures
        ({
            let roomy = with_slot(matrix, row, col);
            &&& roomy.len() == (if matrix.len() > row {
                matrix.len() as int
            } else {
                row + 1
            })
            &&& 0 <= r < matrix.len() && r != row ==> roomy[r] == matrix[r]
            &&& matrix.len() <= r < roomy.len() && r != row ==> roomy[r].len() == 0
            &&& row < matrix.len() && matrix[row as int].len() > col ==> roomy[row as int]
                == matrix[row as int]
            &&& row < matrix.len() && matrix[row as int].len() <= col ==> roomy[row as int].len()
                == col + 1
            &&& row >= matrix.len() ==> roomy[row as int].len() == col + 1
            &&& row < matrix.len() && 0 <= c < matrix[row as int].len() ==> roomy[row as int][c]
                == matrix[row as int][c]
            &&& 0 <= c < roomy[row as int].len() && (row >= matrix.len() || c
                >= matrix[row as int].len()) ==> roomy[row as int][c] is None
        }),
{
}

/// Adding rows keeps those that there were and adds empty ones, no more than are
/// missing.
pub proof fn law_missing_rows_are_added_empty(matrix: Seq<Seq<Option<u32>>>, n: nat, r: int)
    ensures
        ({
            let rows = padded(matrix, n, Seq::empty());
            &&& rows.len() == longer(matrix.len(), n)
            &&& 0 <= r < matrix.len() ==> rows[r] == matrix[r]
            &&& matrix.len() <= r < n ==> rows[r].len() == 0
        }),
{
}

/// A file is refused exactly if its length is known and greater than the limit.
pub proof fn law_only_known_lengths_are_refused(length: u64, max_input_bytes: u64)
    ensures
        !too_large(None, max_input_bytes),
        too_large(Some(length), max_input_bytes) <==> length > max_input_bytes,
{
}

proof fn lemma_widest<A>(rows: Seq<Seq<A>>)
    ensures
        forall|r: int| 0 <= r < rows.len() ==> (#[trigger] rows[r]).len() <= widest(rows),
        rows.len() == 0 ==> widest(rows) == 0,
        rows.len() > 0 ==> exists|r: int|
            0 <= r < rows.len() && (#[trigger] rows[r]).len() == widest(rows),
    decreases rows.len(),
{
    if rows.len() > 0 {
        let shorter = rows.drop_last();
        lemma_widest(shorter);
        assert forall|r: int| 0 <= r < rows.len() implies (#[trigger] rows[r]).len() <= widest(
            rows,
        ) by {
            if r < shorter.len() {
                assert(shorter[r] == rows[r]);
            }
        }
        if rows.last().len() > widest(shorter) || shorter.len() == 0 {
            assert(rows[rows.len() - 1].len() == widest(rows));
        } else {
            let r = choose|r: int|
                0 <= r < shorter.len() && (#[trigger] shorter[r]).len() == widest(shorter);
            assert(rows[r].len() == widest(rows));
        }
    }
}

/// The cells of a sheet are counted as those of the rectangle of its rows and the
/// columns of its longest row, or the largest index where there are more.
pub proof fn law_cells_are_counted_by_the_longest_row<A>(rows: Seq<Seq<A>>, columns: nat)
    requires
        forall|r: int| 0 <= r < rows.len() ==> (#[trigger] rows[r]).len() <= columns,
        rows.len() > 0 ==> exists|r: int|
            0 <= r < rows.len() && (#[trigger] rows[r]).len() == columns,
    ensures
        rows.len() * columns <= usize::MAX ==> cell_count(rows) == rows.len() * columns,
        rows.len() * columns > usize::MAX ==> cell_count(rows) == usize::MAX,
{
    lemma_widest(rows);
    if rows.len() > 0 {
        assert(widest(rows) == columns);
    } else {
        assert(rows.len() * columns == 0) by (nonlinear_arith)
            requires
                rows.len() == 0,
        ;
        assert(rows.len() * widest(rows) == 0) by (nonlinear_arith)
            requires
                rows.len() == 0,
        ;
    }
}

/// The rows of a sheet are refused if it could not be read, with a message that names
/// it, and if it has more cells than the limit, with a message that gives both
/// numbers; else they are compared, without the empty rows at the end.
pub proof fn law_sheets_within_the_limit_are_compared(
    rows: Seq<Seq<DataView>>,
    sheet_name: Seq<char>,
    max_cell_count: usize,
)
    ensures
        checked_rows(None, sheet_name, max_cell_count) == Err::<Seq<Seq<DataView>>, Seq<char>>(
            "Sheet '"@ + sheet_name + "' not found or failed to parse."@,
        ),
        cell_count(rows) <= max_cell_count ==> checked_rows(Some(rows), sheet_name, max_cell_count)
            == Ok::<Seq<Seq<DataView>>, Seq<char>>(without_blank_end(rows, DataView::Empty)),
        cell_count(rows) > max_cell_count ==> checked_rows(Some(rows), sheet_name, max_cell_count)
            == Err::<Seq<Seq<DataView>>, Seq<char>>(
            "Sheet has too many cells ("@ + decimal_text(cell_count(rows)) + ") > limit "@
                + decimal_text(max_cell_count as nat),
        ),
{
}

} // verus!
