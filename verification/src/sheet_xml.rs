//! The style numbers of a worksheet's cells, read from its XML.

use crate::grid::{
    ensure_rows, law_stored_style_is_read_back, law_trimmed_matrix_keeps_styles, padded,
    store_style, style_at, trim_trailing_none_rows, with_style, without_blank_end,
};
use crate::reference::{cell_place, locate_cell, CellPlace};
use crate::text::{bounded_numeral, parse_index, parse_numeral, result_view, same_text};
use crate::xml::{
    attr_value, document_events, find_attribute, read_events, AttributeView, Element, ElementView,
    EventView, XmlEvent,
};
use vstd::prelude::*;

verus! {

/// Why the style numbers of a sheet cannot be read.
#[derive(Debug)]
pub enum SheetXmlError {
    /// The document is malformed.
    Xml(String),
    /// A cell lies outside what an index can reach.
    TooFar,
}

pub enum SheetXmlErrorView {
    Xml(Seq<char>),
    TooFar,
}

impl DeepView for SheetXmlError {
    type V = SheetXmlErrorView;

    open spec fn deep_view(&self) -> SheetXmlErrorView {
        match self {
            SheetXmlError::Xml(message) => SheetXmlErrorView::Xml(message@),
            SheetXmlError::TooFar => SheetXmlErrorView::TooFar,
        }
    }
}

/// Where in the sheet the reader stands.
#[derive(Clone, Copy, Debug, PartialEq, Eq, Structural)]
pub enum Position {
    /// Outside of cells.
    Outside,
    /// Just behind the tag that opens a cell. A broken document is not noticed here.
    CellOpened,
    /// Further inside a cell.
    InCell,
}

/// What is known of a sheet after some of its events.
pub struct SheetScan {
    pub matrix: Vec<Vec<Option<u32>>>,
    pub row: usize,
    pub col: usize,
    pub position: Position,
}

#[verifier::ext_equal]
pub struct ScanView {
    pub matrix: Seq<Seq<Option<u32>>>,
    pub row: usize,
    pub col: usize,
    pub position: Position,
}

impl DeepView for SheetScan {
    type V = ScanView;

    open spec fn deep_view(&self) -> ScanView {
        ScanView {
            matrix: self.matrix.deep_view(),
            row: self.row,
            col: self.col,
            position: self.position,
        }
    }
}

/// `n + 1`, unless that is too large for an index.
pub open spec fn next_index(n: usize) -> usize {
    if n == usize::MAX {
        n
    } else {
        (n + 1) as usize
    }
}

/// The style number that an attribute gives.
pub open spec fn style_number(text: Option<Seq<char>>) -> Option<u32> {
    match text {
        None => None,
        Some(t) => match bounded_numeral(t, u32::MAX as nat) {
            Some(n) => Some(n as u32),
            None => None,
        },
    }
}

/// A row begins. Its number counts from one; a row without a readable number is
/// taken to stand where the reader is.
pub open spec fn row_opened(
    scan: ScanView,
    attributes: Seq<Result<AttributeView, Seq<char>>>,
) -> Result<ScanView, SheetXmlErrorView> {
    match find_attribute(attributes, "r"@) {
        Err(message) => Err(SheetXmlErrorView::Xml(message)),
        Ok(text) => {
            let number = match text {
                Some(t) => bounded_numeral(t, usize::MAX as nat),
                None => None,
            };
            let row = match number {
                Some(n) => if n == 0 {
                    0
                } else {
                    (n - 1) as usize
                },
                None => scan.row,
            };
            if row == usize::MAX {
                Err(SheetXmlErrorView::TooFar)
            } else {
                Ok(
                    ScanView {
                        matrix: padded(scan.matrix, (row + 1) as nat, Seq::empty()),
                        row,
                        col: 0,
                        position: scan.position,
                    },
                )
            }
        },
    }
}

/// A cell begins: its style number is stored. A cell without a readable reference
/// is taken to stand where the reader is. The cell lasts up to the next end tag of a
/// cell, whether its own tag has content or is self-closing.
pub open spec fn cell_opened(
    scan: ScanView,
    attributes: Seq<Result<AttributeView, Seq<char>>>,
) -> Result<ScanView, SheetXmlErrorView> {
    match find_attribute(attributes, "r"@) {
        Err(message) => Err(SheetXmlErrorView::Xml(message)),
        Ok(reference) => {
            let place = match reference {
                Some(text) => cell_place(text),
                None => CellPlace::Nowhere,
            };
            match place {
                CellPlace::TooFar => Err(SheetXmlErrorView::TooFar),
                CellPlace::At(row, col) => cell_placed(scan, attributes, row, col),
                CellPlace::Nowhere => cell_placed(scan, attributes, scan.row, scan.col),
            }
        },
    }
}

pub open spec fn cell_placed(
    scan: ScanView,
    attributes: Seq<Result<AttributeView, Seq<char>>>,
    row: usize,
    col: usize,
) -> Result<ScanView, SheetXmlErrorView> {
    match find_attribute(attributes, "s"@) {
        Err(message) => Err(SheetXmlErrorView::Xml(message)),
        Ok(style) => if row == usize::MAX || col == usize::MAX {
            Err(SheetXmlErrorView::TooFar)
        } else {
            Ok(
                ScanView {
                    matrix: with_style(scan.matrix, row, col, style_number(style)),
                    row,
                    col,
                    position: Position::CellOpened,
                },
            )
        },
    }
}

/// A tag outside of cells; `closed` if it is self-closing. A self-closing row is
/// passed over. A self-closing cell is opened like any other, so that everything up
/// to the next end tag of a cell, another cell's tag included, counts as its
/// content.
pub open spec fn tag_seen(scan: ScanView, element: ElementView, closed: bool) -> Result<
    ScanView,
    SheetXmlErrorView,
> {
    if !closed && element.name == "row"@ {
        row_opened(scan, element.attributes)
    } else if element.name == "c"@ {
        cell_opened(scan, element.attributes)
    } else if closed && element.name == "mergeCell"@ {
        match find_attribute(element.attributes, "ref"@) {
            Err(message) => Err(SheetXmlErrorView::Xml(message)),
            Ok(_) => Ok(scan),
        }
    } else {
        Ok(scan)
    }
}

/// What is known after one more event.
pub open spec fn scan_step(scan: ScanView, event: EventView) -> Result<
    ScanView,
    SheetXmlErrorView,
> {
    match scan.position {
        Position::Outside => match event {
            EventView::Start(element) => tag_seen(scan, element, false),
            EventView::Empty(element) => tag_seen(scan, element, true),
            EventView::End(name) => if name == "row"@ {
                Ok(ScanView { row: next_index(scan.row), col: 0, ..scan })
            } else {
                Ok(scan)
            },
            EventView::Other => Ok(scan),
            EventView::Error(message) => Err(SheetXmlErrorView::Xml(message)),
        },
        _ => match event {
            EventView::End(name) if name == "c"@ => Ok(
                ScanView { col: next_index(scan.col), position: Position::Outside, ..scan },
            ),
            EventView::Error(message) if scan.position == Position::InCell => Err(
                SheetXmlErrorView::Xml(message),
            ),
            _ => Ok(ScanView { position: Position::InCell, ..scan }),
        },
    }
}

/// What is known of a sheet after its events.
pub open spec fn scanned(events: Seq<EventView>) -> Result<ScanView, SheetXmlErrorView>
    decreases events.len(),
{
    if events.len() == 0 {
        Ok(ScanView { matrix: Seq::empty(), row: 0, col: 0, position: Position::Outside })
    } else {
        match scanned(events.drop_last()) {
            Err(error) => Err(error),
            Ok(scan) => scan_step(scan, events.last()),
        }
    }
}

/// The style numbers of a sheet's cells, without the rows at the end that have
/// none.
pub open spec fn sheet_styles(events: Seq<EventView>) -> Result<
    Seq<Seq<Option<u32>>>,
    SheetXmlErrorView,
> {
    match scanned(events) {
        Err(error) => Err(error),
        Ok(scan) => Ok(without_blank_end(scan.matrix, None)),
    }
}

proof fn lemma_scan_error_stays(events: Seq<EventView>, k: int)
    requires
        0 <= k <= events.len(),
        scanned(events.take(k)) is Err,
    ensures
        scanned(events) == scanned(events.take(k)),
    decreases events.len() - k,
{
    if k == events.len() {
        assert(events.take(k) =~= events);
    } else {
        let t = events.drop_last();
        assert(t.take(k) =~= events.take(k));
        lemma_scan_error_stays(t, k);
    }
}

proof fn lemma_row_opened_keeps_styles(
    scan: ScanView,
    attributes: Seq<Result<AttributeView, Seq<char>>>,
    r: int,
    c: int,
)
    requires
        row_opened(scan, attributes) is Ok,
    ensures
        row_opened(scan, attributes)->Ok_0.position == scan.position,
        style_at(row_opened(scan, attributes)->Ok_0.matrix, r, c) == style_at(scan.matrix, r, c),
{
}

proof fn lemma_cell_opened_stores_style(
    scan: ScanView,
    attributes: Seq<Result<AttributeView, Seq<char>>>,
    r: int,
    c: int,
)
    requires
        cell_opened(scan, attributes) is Ok,
    ensures
        ({
            let next = cell_opened(scan, attributes)->Ok_0;
            &&& next.position == Position::CellOpened
            &&& find_attribute(attributes, "s"@) is Ok
            &&& style_at(next.matrix, r, c) == (if r == next.row && c == next.col {
                style_number(find_attribute(attributes, "s"@)->Ok_0)
            } else {
                style_at(scan.matrix, r, c)
            })
        }),
{
    let next = cell_opened(scan, attributes)->Ok_0;
    let style = style_number(find_attribute(attributes, "s"@)->Ok_0);
    assert(next.matrix == with_style(scan.matrix, next.row, next.col, style));
    law_stored_style_is_read_back(scan.matrix, next.row, next.col, style, r, c);
}

/// The tag of a cell gives the cell that it opens its style number, and leaves
/// every other cell as it is.
pub proof fn law_cell_tag_sets_its_cell(
    scan: ScanView,
    element: ElementView,
    closed: bool,
    r: int,
    c: int,
)
    requires
        element.name == "c"@,
        tag_seen(scan, element, closed) is Ok,
    ensures
        ({
            let next = tag_seen(scan, element, closed)->Ok_0;
            style_at(next.matrix, r, c) == (if r == next.row && c == next.col {
                style_number(find_attribute(element.attributes, "s"@)->Ok_0)
            } else {
                style_at(scan.matrix, r, c)
            })
        }),
{
    reveal_strlit("c");
    reveal_strlit("row");
    assert("c"@.len() != "row"@.len());
    lemma_cell_opened_stores_style(scan, element.attributes, r, c);
}

/// Only the tag of a cell, outside of other cells, changes a style number.
pub proof fn law_other_events_keep_styles(scan: ScanView, event: EventView, r: int, c: int)
    requires
        scan_step(scan, event) is Ok,
        scan.position == Position::Outside ==> match event {
            EventView::Start(element) => element.name != "c"@,
            EventView::Empty(element) => element.name != "c"@,
            _ => true,
        },
    ensures
        style_at(scan_step(scan, event)->Ok_0.matrix, r, c) == style_at(scan.matrix, r, c),
{
    if scan.position == Position::Outside {
        if let EventView::Start(element) = event {
            if element.name == "row"@ {
                lemma_row_opened_keeps_styles(scan, element.attributes, r, c);
            }
        }
    }
}

/// Where the tag of a cell says that the cell is.
pub open spec fn stated_place(cell: ElementView) -> Option<(usize, usize)> {
    match find_attribute(cell.attributes, "r"@) {
        Ok(Some(text)) => match cell_place(text) {
            CellPlace::At(row, col) => Some((row, col)),
            _ => None,
        },
        _ => None,
    }
}

/// Whether a tag is that of a cell that says where it is.
pub open spec fn is_placed_cell(cell: ElementView) -> bool {
    &&& cell.name == "c"@
    &&& stated_place(cell) is Some
    &&& find_attribute(cell.attributes, "s"@) is Ok
}

/// The events of cells without content.
pub open spec fn cell_events(cells: Seq<ElementView>) -> Seq<EventView>
    decreases cells.len(),
{
    if cells.len() == 0 {
        Seq::empty()
    } else {
        cell_events(cells.drop_last()).push(EventView::Start(cells.last())).push(
            EventView::End("c"@),
        )
    }
}

/// The style number that the last of the cells in row `r` and column `c` has.
pub open spec fn stated_style(cells: Seq<ElementView>, r: int, c: int) -> Option<u32>
    decreases cells.len(),
{
    if cells.len() == 0 {
        None
    } else {
        let (row, col) = stated_place(cells.last())->0;
        if r == row && c == col {
            style_number(find_attribute(cells.last().attributes, "s"@)->Ok_0)
        } else {
            stated_style(cells.drop_last(), r, c)
        }
    }
}

proof fn lemma_cells_scanned(cells: Seq<ElementView>, r: int, c: int)
    requires
        forall|i: int| 0 <= i < cells.len() ==> is_placed_cell(#[trigger] cells[i]),
    ensures
        scanned(cell_events(cells)) is Ok,
        scanned(cell_events(cells))->Ok_0.position == Position::Outside,
        style_at(scanned(cell_events(cells))->Ok_0.matrix, r, c) == stated_style(cells, r, c),
    decreases cells.len(),
{
    if cells.len() > 0 {
        let before = cells.drop_last();
        let cell = cells.last();
        assert forall|i: int| 0 <= i < before.len() implies is_placed_cell(
            #[trigger] before[i],
        ) by {
            assert(before[i] == cells[i]);
        }
        lemma_cells_scanned(before, r, c);
        assert(is_placed_cell(cells[cells.len() - 1]));
        let scan = scanned(cell_events(before))->Ok_0;
        let (row, col) = stated_place(cell)->0;
        reveal_strlit("c");
        reveal_strlit("row");
        assert("c"@.len() != "row"@.len());
        assert(row < usize::MAX && col < usize::MAX);
        let opened = scan_step(scan, EventView::Start(cell));
        assert(opened is Ok && opened->Ok_0.row == row && opened->Ok_0.col == col);
        law_cell_tag_sets_its_cell(scan, cell, false, r, c);
        let with_start = cell_events(before).push(EventView::Start(cell));
        assert(with_start.drop_last() =~= cell_events(before));
        assert(scanned(with_start) == opened);
        let all = cell_events(cells);
        assert(all.drop_last() =~= with_start);
        assert(all.last() == EventView::End("c"@));
    }
}

/// For cells that are opened and closed by tags of their own, with nothing between
/// them, the matrix gives each place the style number of the last cell there. Cells
/// with content and self-closing ones are the subject of
/// [`law_cell_runs_on_to_the_next_end`].
pub proof fn law_matrix_holds_the_stated_styles(cells: Seq<ElementView>, r: int, c: int)
    requires
        forall|i: int| 0 <= i < cells.len() ==> is_placed_cell(#[trigger] cells[i]),
    ensures
        sheet_styles(cell_events(cells)) matches Ok(matrix) && style_at(matrix, r, c)
            == stated_style(cells, r, c),
{
    lemma_cells_scanned(cells, r, c);
    law_trimmed_matrix_keeps_styles(scanned(cell_events(cells))->Ok_0.matrix, r, c);
}

/// Whether an event is neither the end of a cell nor an error.
pub open spec fn is_cell_content(event: EventView) -> bool {
    match event {
        EventView::End(name) => name != "c"@,
        EventView::Error(_) => false,
        _ => true,
    }
}

proof fn lemma_content_is_passed_over(
    events: Seq<EventView>,
    opened: ScanView,
    content: Seq<EventView>,
)
    requires
        scanned(events) == Ok::<ScanView, SheetXmlErrorView>(opened),
        opened.position == Position::CellOpened,
        forall|i: int| 0 <= i < content.len() ==> is_cell_content(#[trigger] content[i]),
    ensures
        scanned(events + content) == Ok::<ScanView, SheetXmlErrorView>(
            ScanView {
                position: if content.len() == 0 {
                    Position::CellOpened
                } else {
                    Position::InCell
                },
                ..opened
            },
        ),
    decreases content.len(),
{
    if content.len() == 0 {
        assert(events + content =~= events);
    } else {
        let fewer = content.drop_last();
        assert forall|i: int| 0 <= i < fewer.len() implies is_cell_content(#[trigger] fewer[i]) by {
            assert(fewer[i] == content[i]);
        }
        lemma_content_is_passed_over(events, opened, fewer);
        assert((events + content).drop_last() =~= events + fewer);
        assert((events + content).last() == content[content.len() - 1]);
    }
}

/// A cell outside of other cells, self-closing or not, lasts up to the next end tag
/// of a cell: whatever stands between them, tags of other cells included, changes
/// nothing. So the cell that follows a self-closing one is lost with its style
/// number, and its end tag ends both.
pub proof fn law_cell_runs_on_to_the_next_end(
    events: Seq<EventView>,
    cell: ElementView,
    closed: bool,
    content: Seq<EventView>,
)
    requires
        scanned(events) is Ok,
        scanned(events)->Ok_0.position == Position::Outside,
        cell.name == "c"@,
        tag_seen(scanned(events)->Ok_0, cell, closed) is Ok,
        forall|i: int| 0 <= i < content.len() ==> is_cell_content(#[trigger] content[i]),
    ensures
        ({
            let tag = if closed {
                EventView::Empty(cell)
            } else {
                EventView::Start(cell)
            };
            let opened = tag_seen(scanned(events)->Ok_0, cell, closed)->Ok_0;
            scanned((events.push(tag) + content).push(EventView::End("c"@))) == Ok::<
                ScanView,
                SheetXmlErrorView,
            >(ScanView { col: next_index(opened.col), position: Position::Outside, ..opened })
        }),
{
    reveal_strlit("c");
    reveal_strlit("row");
    assert("c"@.len() != "row"@.len());
    let tag = if closed {
        EventView::Empty(cell)
    } else {
        EventView::Start(cell)
    };
    let scan = scanned(events)->Ok_0;
    let opened = tag_seen(scan, cell, closed)->Ok_0;
    lemma_cell_opened_stores_style(scan, cell.attributes, 0, 0);
    assert(events.push(tag).drop_last() =~= events);
    assert(scanned(events.push(tag)) == Ok::<ScanView, SheetXmlErrorView>(opened));
    lemma_content_is_passed_over(events.push(tag), opened, content);
    let all = (events.push(tag) + content).push(EventView::End("c"@));
    assert(all.drop_last() =~= events.push(tag) + content);
    assert(all.last() == EventView::End("c"@));
}

fn open_row(scan: SheetScan, element: &Element) -> (r: Result<SheetScan, SheetXmlError>)
    ensures
        result_view(r) == row_opened(scan.deep_view(), element.deep_view().attributes),
{
    let mut scan = scan;
    match attr_value(element, "r") {
        Err(message) => {
            return Err(SheetXmlError::Xml(message));
        },
        Ok(Some(text)) => {
            if let Some(number) = parse_index(text.as_str()) {
                scan.row = number.saturating_sub(1);
            }
        },
        Ok(None) => {},
    }
    if scan.row == usize::MAX {
        return Err(SheetXmlError::TooFar);
    }
    ensure_rows(&mut scan.matrix, scan.row + 1);
    scan.col = 0;
    Ok(scan)
}

fn open_cell(scan: SheetScan, element: &Element) -> (r: Result<SheetScan, SheetXmlError>)
    ensures
        result_view(r) == cell_opened(scan.deep_view(), element.deep_view().attributes),
{
    let mut scan = scan;
    let place = match attr_value(element, "r") {
        Err(message) => {
            return Err(SheetXmlError::Xml(message));
        },
        Ok(Some(text)) => locate_cell(text.as_str()),
        Ok(None) => CellPlace::Nowhere,
    };
    match place {
        CellPlace::TooFar => {
            return Err(SheetXmlError::TooFar);
        },
        CellPlace::At(row, col) => {
            scan.row = row;
            scan.col = col;
        },
        CellPlace::Nowhere => {},
    }
    let style: Option<u32> = match attr_value(element, "s") {
        Err(message) => {
            return Err(SheetXmlError::Xml(message));
        },
        Ok(Some(text)) => match parse_numeral(text.as_str(), u32::MAX as u64) {
            Some(number) => Some(number as u32),
            None => None,
        },
        Ok(None) => None,
    };
    if scan.row == usize::MAX || scan.col == usize::MAX {
        return Err(SheetXmlError::TooFar);
    }
    store_style(&mut scan.matrix, scan.row, scan.col, style);
    scan.position = Position::CellOpened;
    Ok(scan)
}

fn see_tag(scan: SheetScan, element: &Element, closed: bool) -> (r: Result<
    SheetScan,
    SheetXmlError,
>)
    ensures
        result_view(r) == tag_seen(scan.deep_view(), element.deep_view(), closed),
{
    if !closed && same_text(element.name.as_str(), "row") {
        open_row(scan, element)
    } else if same_text(element.name.as_str(), "c") {
        open_cell(scan, element)
    } else if closed && same_text(element.name.as_str(), "mergeCell") {
        match attr_value(element, "ref") {
            Err(message) => Err(SheetXmlError::Xml(message)),
            Ok(_) => Ok(scan),
        }
    } else {
        Ok(scan)
    }
}

/// What is known of a sheet after one more event.
pub fn step_scan(scan: SheetScan, event: &XmlEvent) -> (r: Result<SheetScan, SheetXmlError>)
    ensures
        result_view(r) == scan_step(scan.deep_view(), event.deep_view()),
{
    let mut scan = scan;
    match scan.position {
        Position::Outside => match event {
            XmlEvent::Start(element) => see_tag(scan, element, false),
            XmlEvent::Empty(element) => see_tag(scan, element, true),
            XmlEvent::End(name) => {
                if same_text(name.as_str(), "row") {
                    scan.row = scan.row.saturating_add(1);
                    scan.col = 0;
                }
                Ok(scan)
            },
            XmlEvent::Other => Ok(scan),
            XmlEvent::Error(message) => Err(SheetXmlError::Xml(message.clone())),
        },
        _ => {
            match event {
                XmlEvent::End(name) => {
                    if same_text(name.as_str(), "c") {
                        scan.col = scan.col.saturating_add(1);
                        scan.position = Position::Outside;
                        return Ok(scan);
                    }
                },
                XmlEvent::Error(message) => {
                    if scan.position == Position::InCell {
                        return Err(SheetXmlError::Xml(message.clone()));
                    }
                },
                _ => {},
            }
            scan.position = Position::InCell;
            Ok(scan)
        },
    }
}

/// The style numbers of the cells of a sheet with the given events.
pub fn sheet_style_matrix(events: &[XmlEvent]) -> (r: Result<
    Vec<Vec<Option<u32>>>,
    SheetXmlError,
>)
    ensures
        result_view(r) == sheet_styles(events.deep_view()),
{
    let ghost all = events.deep_view();
    let mut scan = SheetScan {
        matrix: Vec::new(),
        row: 0,
        col: 0,
        position: Position::Outside,
    };
    let mut i: usize = 0;
    proof {
        assert(all.take(0) =~= Seq::empty());
        assert(scan.matrix.deep_view() =~= Seq::empty());
    }
    while i < events.len()
        invariant
            i <= events.len(),
            all == events.deep_view(),
            scanned(all.take(i as int)) == Ok::<ScanView, SheetXmlErrorView>(scan.deep_view()),
        decreases events.len() - i,
    {
        proof {
            assert(all.take(i + 1).drop_last() =~= all.take(i as int));
            assert(all.take(i + 1).last() == events@[i as int].deep_view());
            if scanned(all.take(i + 1)) is Err {
                lemma_scan_error_stays(all, i + 1);
            }
        }
        match step_scan(scan, &events[i]) {
            Ok(next) => {
                scan = next;
            },
            Err(error) => {
                return Err(error);
            },
        }
        i = i + 1;
    }
    assert(all.take(all.len() as int) =~= all);
    Ok(trim_trailing_none_rows(scan.matrix))
}

/// The style numbers of the cells of a sheet with the given XML.
pub fn parse_sheet_style_matrix(sheet_xml: &str) -> (r: Result<
    Vec<Vec<Option<u32>>>,
    SheetXmlError,
>)
    ensures
        result_view(r) == sheet_styles(document_events(sheet_xml@)),
{
    let events = read_events(sheet_xml);
    sheet_style_matrix(events.as_slice())
}

/// The views of what is known of a sheet, and of an error, hold every field.
pub proof fn law_scan_views_keep_every_field(scan: SheetScan, message: String)
    ensures
        scan.deep_view().matrix == scan.matrix.deep_view(),
        scan.deep_view().row == scan.row,
        scan.deep_view().col == scan.col,
        scan.deep_view().position == scan.position,
        SheetXmlError::Xml(message).deep_view() == SheetXmlErrorView::Xml(message@),
        SheetXmlError::TooFar.deep_view() == SheetXmlErrorView::TooFar,
{
}

/// Before the first event nothing is stored and the reader stands at the first cell;
/// each further event is taken up in turn, until one fails. The matrix that comes out
/// holds what is stored then, without the rows at the end that have no styles.
pub proof fn law_sheet_is_read_event_by_event(events: Seq<EventView>, event: EventView)
    ensures
        scanned(Seq::empty()) matches Ok(scan) && scan.matrix.len() == 0 && scan.row == 0
            && scan.col == 0 && scan.position == Position::Outside,
        scanned(events) matches Ok(scan) ==> scanned(events.push(event)) == scan_step(scan, event),
        scanned(events) is Err ==> scanned(events.push(event)) == scanned(events),
        scanned(events) matches Ok(scan) ==> sheet_styles(events) == Ok::<
            Seq<Seq<Option<u32>>>,
            SheetXmlErrorView,
        >(without_blank_end(scan.matrix, None)),
        scanned(events) matches Err(error) ==> sheet_styles(events) == Err::<
            Seq<Seq<Option<u32>>>,
            SheetXmlErrorView,
        >(error),
{
    assert(events.push(event).drop_last() =~= events);
}

/// The tag of a row moves the reader to the start of the row with its number, which
/// counts from one, and a zero as one; without a readable number the reader stays in
/// its row. The row is in the matrix from then on, and no style number changes. Only an
/// attribute that cannot be read, or a row beyond every index, makes it fail.
pub proof fn law_row_tag_moves_to_its_row(scan: ScanView, element: ElementView, r: int, c: int)
    requires
        scan.position == Position::Outside,
        element.name == "row"@,
    ensures
        ({
            let step = scan_step(scan, EventView::Start(element));
            let found = find_attribute(element.attributes, "r"@);
            let number = match found {
                Ok(Some(text)) => bounded_numeral(text, usize::MAX as nat),
                _ => None,
            };
            let lost = number is None && scan.row == usize::MAX;
            &&& found matches Err(message) ==> step == Err::<ScanView, SheetXmlErrorView>(
                SheetXmlErrorView::Xml(message),
            )
            &&& found is Ok && lost ==> step == Err::<ScanView, SheetXmlErrorView>(
                SheetXmlErrorView::TooFar,
            )
            &&& found is Ok && !lost ==> {
                &&& step is Ok
                &&& number matches Some(n) ==> step->Ok_0.row + 1 == (if n == 0 {
                    1
                } else {
                    n as int
                })
                &&& number is None ==> step->Ok_0.row == scan.row
                &&& step->Ok_0.col == 0
                &&& step->Ok_0.position == Position::Outside
                &&& step->Ok_0.matrix.len() > step->Ok_0.row
                &&& step->Ok_0.matrix.len() == scan.matrix.len() || step->Ok_0.matrix.len()
                    == step->Ok_0.row + 1
                &&& style_at(step->Ok_0.matrix, r, c) == style_at(scan.matrix, r, c)
            }
        }),
{
}

/// The tag of a cell, self-closing or not, moves the reader to the place to which its
/// reference leads, or leaves it where it is without one, and stores the style number
/// there. It fails if an attribute cannot be read, or if the place is beyond every
/// index.
pub proof fn law_cell_tag_moves_to_its_cell(scan: ScanView, element: ElementView, closed: bool)
    requires
        scan.position == Position::Outside,
        element.name == "c"@,
    ensures
        ({
            let step = scan_step(
                scan,
                if closed {
                    EventView::Empty(element)
                } else {
                    EventView::Start(element)
                },
            );
            let reference = find_attribute(element.attributes, "r"@);
            let style = find_attribute(element.attributes, "s"@);
            let place = match reference {
                Ok(Some(text)) => cell_place(text),
                _ => CellPlace::Nowhere,
            };
            let (row, col) = match place {
                CellPlace::At(row, col) => (row, col),
                _ => (scan.row, scan.col),
            };
            let number = match style {
                Ok(Some(text)) => bounded_numeral(text, u32::MAX as nat),
                _ => None,
            };
            let lost = row == usize::MAX || col == usize::MAX;
            &&& reference matches Err(message) ==> step == Err::<ScanView, SheetXmlErrorView>(
                SheetXmlErrorView::Xml(message),
            )
            &&& place is TooFar ==> step == Err::<ScanView, SheetXmlErrorView>(
                SheetXmlErrorView::TooFar,
            )
            &&& reference is Ok && !(place is TooFar) && style is Err ==> step == Err::<
                ScanView,
                SheetXmlErrorView,
            >(SheetXmlErrorView::Xml(style->Err_0))
            &&& reference is Ok && !(place is TooFar) && style is Ok && lost ==> step == Err::<
                ScanView,
                SheetXmlErrorView,
            >(SheetXmlErrorView::TooFar)
            &&& reference is Ok && !(place is TooFar) && style is Ok && !lost ==> {
                &&& step is Ok
                &&& step->Ok_0.row == row && step->Ok_0.col == col
                &&& step->Ok_0.position == Position::CellOpened
                &&& step->Ok_0.matrix.len() > row && step->Ok_0.matrix[row as int].len() > col
                &&& number is None ==> step->Ok_0.matrix[row as int][col as int] is None
                &&& number matches Some(n) ==> step->Ok_0.matrix[row as int][col as int] == Some(
                    n as u32,
                )
            }
        }),
{
    reveal_strlit("c");
    reveal_strlit("row");
    assert("c"@.len() != "row"@.len());
}

/// The end of a row moves the reader to the start of the next one, the end of a cell to
/// the next column; at the last index the reader stays. Both leave the matrix as it is.
pub proof fn law_ends_move_on(scan: ScanView, name: Seq<char>)
    ensures
        ({
            let step = scan_step(scan, EventView::End(name));
            &&& step is Ok
            &&& step->Ok_0.matrix == scan.matrix
            &&& scan.position == Position::Outside ==> {
                &&& step->Ok_0.position == Position::Outside
                &&& name == "row"@ ==> step->Ok_0.col == 0
                &&& name == "row"@ && scan.row < usize::MAX ==> step->Ok_0.row == scan.row + 1
                &&& name == "row"@ && scan.row == usize::MAX ==> step->Ok_0.row == scan.row
                &&& name != "row"@ ==> step->Ok_0.row == scan.row && step->Ok_0.col == scan.col
            }
            &&& scan.position != Position::Outside ==> {
                &&& step->Ok_0.row == scan.row
                &&& name == "c"@ ==> step->Ok_0.position == Position::Outside
                &&& name == "c"@ && scan.col < usize::MAX ==> step->Ok_0.col == scan.col + 1
                &&& name == "c"@ && scan.col == usize::MAX ==> step->Ok_0.col == scan.col
                &&& name != "c"@ ==> step->Ok_0.col == scan.col && step->Ok_0.position
                    == Position::InCell
            }
        }),
{
}

/// An error in the document is one of the sheet, except just behind the tag that opens
/// a cell, where it is passed over. Inside of a cell every tag is passed over too, and
/// outside of cells every tag that is neither that of a cell nor the opening one of a
/// row, save that a merged range must have attributes that can be read.
pub proof fn law_other_events_change_nothing(scan: ScanView, event: EventView)
    ensures
        event matches EventView::Error(message) ==> {
            &&& scan.position != Position::CellOpened ==> scan_step(scan, event) == Err::<
                ScanView,
                SheetXmlErrorView,
            >(SheetXmlErrorView::Xml(message))
            &&& scan.position == Position::CellOpened ==> scan_step(scan, event) is Ok
        },
        scan.position != Position::Outside && !(event is End) && (event is Error
            ==> scan.position == Position::CellOpened) ==> scan_step(scan, event) == Ok::<
            ScanView,
            SheetXmlErrorView,
        >(
            ScanView {
                matrix: scan.matrix,
                row: scan.row,
                col: scan.col,
                position: Position::InCell,
            },
        ),
        scan.position == Position::Outside && event is Other ==> scan_step(scan, event) == Ok::<
            ScanView,
            SheetXmlErrorView,
        >(scan),
        scan.position == Position::Outside && (event matches EventView::Start(element)
            && element.name != "row"@ && element.name != "c"@) ==> scan_step(scan, event) == Ok::<
            ScanView,
            SheetXmlErrorView,
        >(scan),
        scan.position == Position::Outside && (event matches EventView::Empty(element)
            && element.name != "c"@ && (element.name == "mergeCell"@ ==> find_attribute(
            element.attributes,
            "ref"@,
        ) is Ok)) ==> scan_step(scan, event) == Ok::<ScanView, SheetXmlErrorView>(scan),
        scan.position == Position::Outside ==> (event matches EventView::Empty(element)
            ==> element.name == "mergeCell"@ ==> (find_attribute(
            element.attributes,
            "ref"@,
        ) matches Err(message) ==> scan_step(scan, event) == Err::<ScanView, SheetXmlErrorView>(
            SheetXmlErrorView::Xml(message),
        ))),
{
    reveal_strlit("c");
    reveal_strlit("mergeCell");
    assert("c"@.len() != "mergeCell"@.len());
}

/// Whether a tag is that of a cell that does not say where it is.
pub open spec fn is_unplaced_cell(cell: ElementView) -> bool {
    &&& cell.name == "c"@
    &&& find_attribute(cell.attributes, "r"@) == Ok::<Option<Seq<char>>, Seq<char>>(None)
    &&& find_attribute(cell.attributes, "s"@) is Ok
}

proof fn lemma_unplaced_cells(
    events: Seq<EventView>,
    scan: ScanView,
    cells: Seq<ElementView>,
    r: int,
    c: int,
)
    requires
        scanned(events) == Ok::<ScanView, SheetXmlErrorView>(scan),
        scan.position == Position::Outside,
        scan.row < usize::MAX,
        scan.col + cells.len() < usize::MAX,
        forall|i: int| 0 <= i < cells.len() ==> is_unplaced_cell(#[trigger] cells[i]),
    ensures
        ({
            let after = scanned(events + cell_events(cells));
            &&& after is Ok
            &&& after->Ok_0.position == Position::Outside
            &&& after->Ok_0.row == scan.row
            &&& after->Ok_0.col == scan.col + cells.len()
            &&& style_at(after->Ok_0.matrix, r, c) == (if r == scan.row && scan.col <= c < scan.col
                + cells.len() {
                style_number(find_attribute(cells[c - scan.col].attributes, "s"@)->Ok_0)
            } else {
                style_at(scan.matrix, r, c)
            })
        }),
    decreases cells.len(),
{
    if cells.len() == 0 {
        assert(events + cell_events(cells) =~= events);
    } else {
        let before = cells.drop_last();
        let cell = cells.last();
        assert forall|i: int| 0 <= i < before.len() implies is_unplaced_cell(
            #[trigger] before[i],
        ) by {
            assert(before[i] == cells[i]);
        }
        lemma_unplaced_cells(events, scan, before, r, c);
        assert(is_unplaced_cell(cells[cells.len() - 1]));
        reveal_strlit("c");
        reveal_strlit("row");
        assert("c"@.len() != "row"@.len());
        let head = events + cell_events(before);
        let reached = scanned(head)->Ok_0;
        let opened = scan_step(reached, EventView::Start(cell));
        assert(opened is Ok && opened->Ok_0.row == reached.row && opened->Ok_0.col == reached.col);
        law_cell_tag_sets_its_cell(reached, cell, false, r, c);
        let with_start = head.push(EventView::Start(cell));
        assert(with_start.drop_last() =~= head);
        assert(scanned(with_start) == opened);
        let all = events + cell_events(cells);
        assert(all =~= with_start.push(EventView::End("c"@)));
        assert(all.drop_last() =~= with_start);
        assert(all.last() == EventView::End("c"@));
        if r == scan.row && scan.col <= c < scan.col + before.len() {
            assert(before[c - scan.col] == cells[c - scan.col]);
        }
    }
}

/// Cells that do not say where they are follow one another: after the tag of a row the
/// first of them stands in the first column of that row, and each further one in the
/// next column; no other cell gets a style number.
pub proof fn law_cells_without_reference_follow_one_another(
    row: ElementView,
    number: usize,
    cells: Seq<ElementView>,
    r: int,
    c: int,
)
    requires
        row.name == "row"@,
        find_attribute(row.attributes, "r"@) matches Ok(Some(text)) && bounded_numeral(
            text,
            usize::MAX as nat,
        ) == Some(number as nat),
        number > 0,
        cells.len() < usize::MAX,
        forall|i: int| 0 <= i < cells.len() ==> is_unplaced_cell(#[trigger] cells[i]),
    ensures
        sheet_styles(seq![EventView::Start(row)] + cell_events(cells)) matches Ok(matrix)
            && style_at(matrix, r, c) == (if r == number - 1 && 0 <= c < cells.len() {
            style_number(find_attribute(cells[c].attributes, "s"@)->Ok_0)
        } else {
            None
        }),
{
    let events = seq![EventView::Start(row)];
    let none = Seq::<EventView>::empty();
    assert(events =~= none.push(EventView::Start(row)));
    law_sheet_is_read_event_by_event(none, EventView::Start(row));
    let start = scanned(none)->Ok_0;
    law_row_tag_moves_to_its_row(start, row, r, c);
    let scan = scanned(events)->Ok_0;
    assert(scan.row == number - 1 && scan.col == 0);
    lemma_unplaced_cells(events, scan, cells, r, c);
    let after = scanned(events + cell_events(cells))->Ok_0;
    law_trimmed_matrix_keeps_styles(after.matrix, r, c);
}

/// A style number is what its text says if that is a number that fits; else there is
/// none.
pub proof fn law_style_number_is_read_from_its_text(text: Seq<char>)
    ensures
        style_number(None) is None,
        bounded_numeral(text, u32::MAX as nat) is None ==> style_number(Some(text)) is None,
        bounded_numeral(text, u32::MAX as nat) matches Some(n) ==> style_number(Some(text)) == Some(
            n as u32,
        ),
{
}

} // verus!
