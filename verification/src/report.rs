//! The report on two workbooks: one entry for each sheet, and a summary.

use crate::delta::{CellDelta, DeltaView};
use crate::plan::{law_plan_covers_both_workbooks, sheet_plan};
use crate::rename::{
    all_signatures, find_renames, law_every_sheet_is_accounted_for,
    law_signature_order_is_complete, new_sheets, old_sheets, sheet_matches, EntryView, MatchesView,
    SheetEntry,
};
use crate::text::same_text;
use vstd::prelude::*;
use vstd::seq_lib::lemma_multiset_commutative;

verus! {

/// What became of a sheet.
#[derive(Debug)]
pub struct SheetDiffReport {
    pub sheet_name: String,
    pub status: String,
    pub renamed_from: Option<String>,
    pub renamed_to: Option<String>,
    pub row_count_old: Option<usize>,
    pub row_count_new: Option<usize>,
    pub value_changed_cells: usize,
    pub formula_changed_cells: usize,
    pub style_changed_cells: usize,
    pub cell_deltas: Vec<CellDelta>,
}

#[verifier::ext_equal]
pub struct SheetReportView {
    pub sheet_name: Seq<char>,
    pub status: Seq<char>,
    pub renamed_from: Option<Seq<char>>,
    pub renamed_to: Option<Seq<char>>,
    pub row_count_old: Option<usize>,
    pub row_count_new: Option<usize>,
    pub value_changed_cells: nat,
    pub formula_changed_cells: nat,
    pub style_changed_cells: nat,
    pub cell_deltas: Seq<DeltaView>,
}

impl DeepView for SheetDiffReport {
    type V = SheetReportView;

    open spec fn deep_view(&self) -> SheetReportView {
        SheetReportView {
            sheet_name: self.sheet_name@,
            status: self.status@,
            renamed_from: self.renamed_from.deep_view(),
            renamed_to: self.renamed_to.deep_view(),
            row_count_old: self.row_count_old,
            row_count_new: self.row_count_new,
            value_changed_cells: self.value_changed_cells as nat,
            formula_changed_cells: self.formula_changed_cells as nat,
            style_changed_cells: self.style_changed_cells as nat,
            cell_deltas: self.cell_deltas.deep_view(),
        }
    }
}

impl Clone for SheetDiffReport {
    fn clone(&self) -> (r: Self)
        ensures
            r.deep_view() == self.deep_view(),
    {
        let r = SheetDiffReport {
            sheet_name: self.sheet_name.clone(),
            status: self.status.clone(),
            renamed_from: self.renamed_from.clone(),
            renamed_to: self.renamed_to.clone(),
            row_count_old: self.row_count_old,
            row_count_new: self.row_count_new,
            value_changed_cells: self.value_changed_cells,
            formula_changed_cells: self.formula_changed_cells,
            style_changed_cells: self.style_changed_cells,
            cell_deltas: self.cell_deltas.clone(),
        };
        assert(r.cell_deltas.deep_view() =~= self.cell_deltas.deep_view());
        r
    }
}

/// The counts over all sheets.
#[derive(Clone, Copy, Debug, PartialEq, Eq, Structural)]
pub struct WorkbookDiffSummary {
    pub total_sheets_old: usize,
    pub total_sheets_new: usize,
    pub compared_sheets: usize,
    pub added_sheets: usize,
    pub deleted_sheets: usize,
    pub renamed_sheets: usize,
    pub changed_sheets: usize,
    pub changed_cells: usize,
    pub value_changed_cells: usize,
    pub formula_changed_cells: usize,
    pub style_changed_cells: usize,
}

#[verifier::ext_equal]
pub struct SummaryView {
    pub total_sheets_old: nat,
    pub total_sheets_new: nat,
    pub compared_sheets: nat,
    pub added_sheets: nat,
    pub deleted_sheets: nat,
    pub renamed_sheets: nat,
    pub changed_sheets: nat,
    pub changed_cells: nat,
    pub value_changed_cells: nat,
    pub formula_changed_cells: nat,
    pub style_changed_cells: nat,
}

impl DeepView for WorkbookDiffSummary {
    type V = SummaryView;

    open spec fn deep_view(&self) -> SummaryView {
        SummaryView {
            total_sheets_old: self.total_sheets_old as nat,
            total_sheets_new: self.total_sheets_new as nat,
            compared_sheets: self.compared_sheets as nat,
            added_sheets: self.added_sheets as nat,
            deleted_sheets: self.deleted_sheets as nat,
            renamed_sheets: self.renamed_sheets as nat,
            changed_sheets: self.changed_sheets as nat,
            changed_cells: self.changed_cells as nat,
            value_changed_cells: self.value_changed_cells as nat,
            formula_changed_cells: self.formula_changed_cells as nat,
            style_changed_cells: self.style_changed_cells as nat,
        }
    }
}

/// The report on two workbooks.
#[derive(Debug)]
pub struct WorkbookDiffReport {
    pub old_file: String,
    pub new_file: String,
    pub selected_sheets: Vec<String>,
    pub summary: WorkbookDiffSummary,
    pub sheets: Vec<SheetDiffReport>,
}

#[verifier::ext_equal]
pub struct WorkbookReportView {
    pub old_file: Seq<char>,
    pub new_file: Seq<char>,
    pub selected_sheets: Seq<Seq<char>>,
    pub summary: SummaryView,
    pub sheets: Seq<SheetReportView>,
}

impl DeepView for WorkbookDiffReport {
    type V = WorkbookReportView;

    open spec fn deep_view(&self) -> WorkbookReportView {
        WorkbookReportView {
            old_file: self.old_file@,
            new_file: self.new_file@,
            selected_sheets: self.selected_sheets.deep_view(),
            summary: self.summary.deep_view(),
            sheets: self.sheets.deep_view(),
        }
    }
}

impl Clone for WorkbookDiffReport {
    fn clone(&self) -> (r: Self)
        ensures
            r.deep_view() == self.deep_view(),
    {
        let r = WorkbookDiffReport {
            old_file: self.old_file.clone(),
            new_file: self.new_file.clone(),
            selected_sheets: self.selected_sheets.clone(),
            summary: self.summary,
            sheets: self.sheets.clone(),
        };
        proof {
            assert(r.selected_sheets.deep_view() =~= self.selected_sheets.deep_view());
            assert(r.sheets.deep_view() =~= self.sheets.deep_view());
        }
        r
    }
}

/// A sheet that both workbooks have: the numbers of its rows and the changes of its
/// cells.
#[derive(Debug)]
pub struct ComparedSheet {
    pub sheet_name: String,
    pub row_count_old: usize,
    pub row_count_new: usize,
    pub cell_deltas: Vec<CellDelta>,
}

#[verifier::ext_equal]
pub struct ComparedView {
    pub sheet_name: Seq<char>,
    pub row_count_old: usize,
    pub row_count_new: usize,
    pub cell_deltas: Seq<DeltaView>,
}

impl DeepView for ComparedSheet {
    type V = ComparedView;

    open spec fn deep_view(&self) -> ComparedView {
        ComparedView {
            sheet_name: self.sheet_name@,
            row_count_old: self.row_count_old,
            row_count_new: self.row_count_new,
            cell_deltas: self.cell_deltas.deep_view(),
        }
    }
}

/// The number of deltas that tell of a changed value.
pub open spec fn value_changes(deltas: Seq<DeltaView>) -> nat {
    deltas.filter(|delta: DeltaView| delta.value_changed).len()
}

/// The number of deltas that tell of a changed formula.
pub open spec fn formula_changes(deltas: Seq<DeltaView>) -> nat {
    deltas.filter(|delta: DeltaView| delta.formula_changed).len()
}

/// The number of deltas that tell of a changed format.
pub open spec fn style_changes(deltas: Seq<DeltaView>) -> nat {
    deltas.filter(|delta: DeltaView| delta.style_changed).len()
}

/// The report on a compared sheet.
pub open spec fn compared_report(sheet: ComparedView) -> SheetReportView {
    SheetReportView {
        sheet_name: sheet.sheet_name,
        status: if sheet.cell_deltas.len() == 0 {
            "Unchanged"@
        } else {
            "Compared"@
        },
        renamed_from: None,
        renamed_to: None,
        row_count_old: Some(sheet.row_count_old),
        row_count_new: Some(sheet.row_count_new),
        value_changed_cells: value_changes(sheet.cell_deltas),
        formula_changed_cells: formula_changes(sheet.cell_deltas),
        style_changed_cells: style_changes(sheet.cell_deltas),
        cell_deltas: sheet.cell_deltas,
    }
}

/// The report on a sheet whose cells were not compared.
pub open spec fn plain_report(
    sheet_name: Seq<char>,
    status: Seq<char>,
    renamed_from: Option<Seq<char>>,
    renamed_to: Option<Seq<char>>,
    row_count_old: Option<usize>,
    row_count_new: Option<usize>,
) -> SheetReportView {
    SheetReportView {
        sheet_name,
        status,
        renamed_from,
        renamed_to,
        row_count_old,
        row_count_new,
        value_changed_cells: 0,
        formula_changed_cells: 0,
        style_changed_cells: 0,
        cell_deltas: Seq::empty(),
    }
}

/// The report on a renamed sheet.
pub open spec fn renamed_report(old: EntryView, new: EntryView) -> SheetReportView {
    plain_report(
        new.name,
        "Renamed"@,
        Some(old.name),
        Some(new.name),
        Some(old.row_count),
        Some(new.row_count),
    )
}

/// The report on a deleted sheet.
pub open spec fn deleted_report(entry: EntryView) -> SheetReportView {
    plain_report(entry.name, "Deleted"@, None, None, Some(entry.row_count), None)
}

/// The report on an added sheet.
pub open spec fn added_report(entry: EntryView) -> SheetReportView {
    plain_report(entry.name, "Added"@, None, None, None, Some(entry.row_count))
}

/// The reports on all sheets: the renamed, the compared, the deleted and the added
/// ones.
pub open spec fn all_reports(matches: MatchesView, compared: Seq<ComparedView>) -> Seq<
    SheetReportView,
> {
    matches.renamed.map_values(|pair: (EntryView, EntryView)| renamed_report(pair.0, pair.1))
        + compared.map_values(|sheet: ComparedView| compared_report(sheet))
        + matches.deleted.map_values(|entry: EntryView| deleted_report(entry))
        + matches.added.map_values(|entry: EntryView| added_report(entry))
}

/// The number of reports with the given status.
pub open spec fn count_status(reports: Seq<SheetReportView>, status: Seq<char>) -> nat {
    reports.filter(|report: SheetReportView| report.status == status).len()
}

/// The number of sheets in which a cell changed.
pub open spec fn changed_sheets(compared: Seq<ComparedView>) -> nat {
    compared.filter(|sheet: ComparedView| sheet.cell_deltas.len() > 0).len()
}

/// The sum of `count` over the changes of each sheet.
pub open spec fn total(compared: Seq<ComparedView>, count: spec_fn(Seq<DeltaView>) -> nat) -> nat
    decreases compared.len(),
{
    if compared.len() == 0 {
        0
    } else {
        total(compared.drop_last(), count) + count(compared.last().cell_deltas)
    }
}

/// The number of changed cells of all sheets.
pub open spec fn total_changes(compared: Seq<ComparedView>) -> nat {
    total(compared, |deltas: Seq<DeltaView>| deltas.len())
}

/// The summary of the reports.
pub open spec fn summary_of(
    total_sheets_old: nat,
    total_sheets_new: nat,
    compared: Seq<ComparedView>,
    reports: Seq<SheetReportView>,
) -> SummaryView {
    SummaryView {
        total_sheets_old,
        total_sheets_new,
        compared_sheets: compared.len(),
        added_sheets: count_status(reports, "Added"@),
        deleted_sheets: count_status(reports, "Deleted"@),
        renamed_sheets: count_status(reports, "Renamed"@),
        changed_sheets: changed_sheets(compared),
        changed_cells: total_changes(compared),
        value_changed_cells: total(compared, |deltas: Seq<DeltaView>| value_changes(deltas)),
        formula_changed_cells: total(compared, |deltas: Seq<DeltaView>| formula_changes(deltas)),
        style_changed_cells: total(compared, |deltas: Seq<DeltaView>| style_changes(deltas)),
    }
}

/// The report on two workbooks.
pub open spec fn workbook_report_of(
    old_file: Seq<char>,
    new_file: Seq<char>,
    selected_sheets: Seq<Seq<char>>,
    total_sheets_old: nat,
    total_sheets_new: nat,
    compared: Seq<ComparedView>,
    deleted: Seq<EntryView>,
    added: Seq<EntryView>,
) -> WorkbookReportView {
    let matches = sheet_matches(deleted, added, all_signatures(deleted, added));
    let sheets = all_reports(matches, compared);
    WorkbookReportView {
        old_file,
        new_file,
        selected_sheets,
        summary: summary_of(total_sheets_old, total_sheets_new, compared, sheets),
        sheets,
    }
}

/// The three counts over the changes of a sheet.
struct ChangeCounts {
    values: usize,
    formulas: usize,
    styles: usize,
}

fn count_changes(deltas: &Vec<CellDelta>) -> (r: ChangeCounts)
    ensures
        r.values == value_changes(deltas.deep_view()),
        r.formulas == formula_changes(deltas.deep_view()),
        r.styles == style_changes(deltas.deep_view()),
        r.values <= deltas@.len(),
        r.formulas <= deltas@.len(),
        r.styles <= deltas@.len(),
{
    let ghost all = deltas.deep_view();
    let mut counts = ChangeCounts { values: 0, formulas: 0, styles: 0 };
    let mut i: usize = 0;
    proof {
        reveal(Seq::filter);
        assert(all.take(0) =~= Seq::empty());
    }
    while i < deltas.len()
        invariant
            i <= deltas.len(),
            all == deltas.deep_view(),
            counts.values == value_changes(all.take(i as int)),
            counts.formulas == formula_changes(all.take(i as int)),
            counts.styles == style_changes(all.take(i as int)),
            counts.values <= i,
            counts.formulas <= i,
            counts.styles <= i,
        decreases deltas.len() - i,
    {
        proof {
            reveal(Seq::filter);
            assert(all.take(i + 1).drop_last() =~= all.take(i as int));
            assert(all.take(i + 1).last() == deltas@[i as int].deep_view());
        }
        if deltas[i].value_changed {
            counts.values = counts.values + 1;
        }
        if deltas[i].formula_changed {
            counts.formulas = counts.formulas + 1;
        }
        if deltas[i].style_changed {
            counts.styles = counts.styles + 1;
        }
        i = i + 1;
    }
    assert(all.take(all.len() as int) =~= all);
    counts
}

/// The report on a compared sheet.
pub fn compared_sheet_report(sheet: ComparedSheet) -> (r: SheetDiffReport)
    ensures
        r.deep_view() == compared_report(sheet.deep_view()),
{
    let counts = count_changes(&sheet.cell_deltas);
    SheetDiffReport {
        sheet_name: sheet.sheet_name,
        status: if sheet.cell_deltas.len() == 0 {
            "Unchanged".to_owned()
        } else {
            "Compared".to_owned()
        },
        renamed_from: None,
        renamed_to: None,
        row_count_old: Some(sheet.row_count_old),
        row_count_new: Some(sheet.row_count_new),
        value_changed_cells: counts.values,
        formula_changed_cells: counts.formulas,
        style_changed_cells: counts.styles,
        cell_deltas: sheet.cell_deltas,
    }
}

fn plain_sheet_report(
    sheet_name: &str,
    status: &str,
    renamed_from: Option<String>,
    renamed_to: Option<String>,
    row_count_old: Option<usize>,
    row_count_new: Option<usize>,
) -> (r: SheetDiffReport)
    ensures
        r.deep_view() == plain_report(
            sheet_name@,
            status@,
            renamed_from.deep_view(),
            renamed_to.deep_view(),
            row_count_old,
            row_count_new,
        ),
{
    let cell_deltas: Vec<CellDelta> = Vec::new();
    assert(cell_deltas.deep_view() =~= Seq::empty());
    SheetDiffReport {
        sheet_name: sheet_name.to_owned(),
        status: status.to_owned(),
        renamed_from,
        renamed_to,
        row_count_old,
        row_count_new,
        value_changed_cells: 0,
        formula_changed_cells: 0,
        style_changed_cells: 0,
        cell_deltas,
    }
}

/// The report on a renamed sheet.
pub fn renamed_sheet_report(old: &SheetEntry, new: &SheetEntry) -> (r: SheetDiffReport)
    ensures
        r.deep_view() == renamed_report(old.deep_view(), new.deep_view()),
{
    plain_sheet_report(
        new.name.as_str(),
        "Renamed",
        Some(old.name.clone()),
        Some(new.name.clone()),
        Some(old.row_count),
        Some(new.row_count),
    )
}

/// The report on a deleted sheet.
pub fn deleted_sheet_report(entry: &SheetEntry) -> (r: SheetDiffReport)
    ensures
        r.deep_view() == deleted_report(entry.deep_view()),
{
    plain_sheet_report(
        entry.name.as_str(),
        "Deleted",
        None,
        None,
        Some(entry.row_count),
        None,
    )
}

/// The report on an added sheet.
pub fn added_sheet_report(entry: &SheetEntry) -> (r: SheetDiffReport)
    ensures
        r.deep_view() == added_report(entry.deep_view()),
{
    plain_sheet_report(entry.name.as_str(), "Added", None, None, None, Some(entry.row_count))
}

fn count_reports(reports: &Vec<SheetDiffReport>, status: &str) -> (r: usize)
    ensures
        r == count_status(reports.deep_view(), status@),
{
    let ghost all = reports.deep_view();
    let mut count: usize = 0;
    let mut i: usize = 0;
    proof {
        reveal(Seq::filter);
        assert(all.take(0) =~= Seq::empty());
    }
    while i < reports.len()
        invariant
            i <= reports.len(),
            all == reports.deep_view(),
            count == count_status(all.take(i as int), status@),
            count <= i,
        decreases reports.len() - i,
    {
        proof {
            reveal(Seq::filter);
            assert(all.take(i + 1).drop_last() =~= all.take(i as int));
            assert(all.take(i + 1).last() == reports@[i as int].deep_view());
        }
        if same_text(reports[i].status.as_str(), status) {
            count = count + 1;
        }
        i = i + 1;
    }
    assert(all.take(all.len() as int) =~= all);
    count
}

proof fn lemma_total_grows(
    compared: Seq<ComparedView>,
    count: spec_fn(Seq<DeltaView>) -> nat,
    k: int,
)
    requires
        0 <= k <= compared.len(),
    ensures
        total(compared.take(k), count) <= total(compared, count),
    decreases compared.len() - k,
{
    if k < compared.len() {
        let shorter = compared.drop_last();
        lemma_total_grows(shorter, count, k);
        assert(shorter.take(k) =~= compared.take(k));
    } else {
        assert(compared.take(k) =~= compared);
    }
}

/// The counts over the compared sheets.
struct ComparedCounts {
    changed_sheets: usize,
    cells: usize,
    values: usize,
    formulas: usize,
    styles: usize,
}

fn count_compared(compared: &Vec<ComparedSheet>) -> (r: ComparedCounts)
    requires
        total_changes(compared.deep_view()) <= usize::MAX,
    ensures
        r.changed_sheets == changed_sheets(compared.deep_view()),
        r.cells == total_changes(compared.deep_view()),
        r.values == total(
            compared.deep_view(),
            |deltas: Seq<DeltaView>| value_changes(deltas),
        ),
        r.formulas == total(
            compared.deep_view(),
            |deltas: Seq<DeltaView>| formula_changes(deltas),
        ),
        r.styles == total(
            compared.deep_view(),
            |deltas: Seq<DeltaView>| style_changes(deltas),
        ),
{
    let ghost all = compared.deep_view();
    let ghost by_len = |deltas: Seq<DeltaView>| deltas.len();
    let ghost by_value = |deltas: Seq<DeltaView>| value_changes(deltas);
    let ghost by_formula = |deltas: Seq<DeltaView>| formula_changes(deltas);
    let ghost by_style = |deltas: Seq<DeltaView>| style_changes(deltas);
    let ghost has_changes = |sheet: ComparedView| sheet.cell_deltas.len() > 0;
    let mut counts = ComparedCounts {
        changed_sheets: 0,
        cells: 0,
        values: 0,
        formulas: 0,
        styles: 0,
    };
    let mut i: usize = 0;
    proof {
        reveal(Seq::filter);
        assert(all.take(0) =~= Seq::empty());
    }
    while i < compared.len()
        invariant
            i <= compared.len(),
            all == compared.deep_view(),
            by_len == (|deltas: Seq<DeltaView>| deltas.len()),
            by_value == (|deltas: Seq<DeltaView>| value_changes(deltas)),
            by_formula == (|deltas: Seq<DeltaView>| formula_changes(deltas)),
            by_style == (|deltas: Seq<DeltaView>| style_changes(deltas)),
            has_changes == (|sheet: ComparedView| sheet.cell_deltas.len() > 0),
            total(all, by_len) <= usize::MAX,
            counts.changed_sheets == all.take(i as int).filter(has_changes).len(),
            counts.changed_sheets <= i,
            counts.cells == total(all.take(i as int), by_len),
            counts.values == total(all.take(i as int), by_value),
            counts.formulas == total(all.take(i as int), by_formula),
            counts.styles == total(all.take(i as int), by_style),
            counts.values <= counts.cells,
            counts.formulas <= counts.cells,
            counts.styles <= counts.cells,
        decreases compared.len() - i,
    {
        proof {
            reveal(Seq::filter);
            assert(all.take(i + 1).drop_last() =~= all.take(i as int));
            assert(all.take(i + 1).last() == compared@[i as int].deep_view());
            lemma_total_grows(all, by_len, i + 1);
        }
        let deltas = &compared[i].cell_deltas;
        let changes = count_changes(deltas);
        assert(deltas.deep_view().len() == deltas.len());
        if deltas.len() > 0 {
            counts.changed_sheets = counts.changed_sheets + 1;
        }
        counts.cells = counts.cells + deltas.len();
        counts.values = counts.values + changes.values;
        counts.formulas = counts.formulas + changes.formulas;
        counts.styles = counts.styles + changes.styles;
        i = i + 1;
    }
    assert(all.take(all.len() as int) =~= all);
    counts
}

fn renamed_reports(pairs: &Vec<(SheetEntry, SheetEntry)>) -> (r: Vec<SheetDiffReport>)
    ensures
        r.deep_view() == pairs.deep_view().map_values(
            |pair: (EntryView, EntryView)| renamed_report(pair.0, pair.1),
        ),
{
    let ghost expected = pairs.deep_view().map_values(
        |pair: (EntryView, EntryView)| renamed_report(pair.0, pair.1),
    );
    let mut reports: Vec<SheetDiffReport> = Vec::new();
    let mut i: usize = 0;
    while i < pairs.len()
        invariant
            i <= pairs.len(),
            reports.len() == i,
            expected == pairs.deep_view().map_values(
                |pair: (EntryView, EntryView)| renamed_report(pair.0, pair.1),
            ),
            forall|k: int| 0 <= k < i ==> (#[trigger] reports@[k]).deep_view() == expected[k],
        decreases pairs.len() - i,
    {
        let (old, new) = &pairs[i];
        assert(pairs.deep_view()[i as int] == (old.deep_view(), new.deep_view()));
        reports.push(renamed_sheet_report(old, new));
        i = i + 1;
    }
    assert(reports.deep_view() =~= expected);
    reports
}

fn compared_reports(compared: Vec<ComparedSheet>) -> (r: Vec<SheetDiffReport>)
    ensures
        r.deep_view() == compared.deep_view().map_values(
            |sheet: ComparedView| compared_report(sheet),
        ),
{
    let ghost expected = compared.deep_view().map_values(
        |sheet: ComparedView| compared_report(sheet),
    );
    let mut reports: Vec<SheetDiffReport> = Vec::new();
    for sheet in it: compared
        invariant
            reports.len() == it.index(),
            it.seq() == compared@,
            expected == compared.deep_view().map_values(
                |sheet: ComparedView| compared_report(sheet),
            ),
            forall|k: int|
                0 <= k < it.index() ==> (#[trigger] reports@[k]).deep_view() == expected[k],
    {
        assert(expected[it.index() as int] == compared_report(sheet.deep_view()));
        reports.push(compared_sheet_report(sheet));
    }
    assert(reports.deep_view() =~= expected);
    reports
}

fn deleted_reports(entries: &Vec<SheetEntry>) -> (r: Vec<SheetDiffReport>)
    ensures
        r.deep_view() == entries.deep_view().map_values(|entry: EntryView| deleted_report(entry)),
{
    let ghost expected = entries.deep_view().map_values(|entry: EntryView| deleted_report(entry));
    let mut reports: Vec<SheetDiffReport> = Vec::new();
    let mut i: usize = 0;
    while i < entries.len()
        invariant
            i <= entries.len(),
            reports.len() == i,
            expected == entries.deep_view().map_values(|entry: EntryView| deleted_report(entry)),
            forall|k: int| 0 <= k < i ==> (#[trigger] reports@[k]).deep_view() == expected[k],
        decreases entries.len() - i,
    {
        reports.push(deleted_sheet_report(&entries[i]));
        i = i + 1;
    }
    assert(reports.deep_view() =~= expected);
    reports
}

fn added_reports(entries: &Vec<SheetEntry>) -> (r: Vec<SheetDiffReport>)
    ensures
        r.deep_view() == entries.deep_view().map_values(|entry: EntryView| added_report(entry)),
{
    let ghost expected = entries.deep_view().map_values(|entry: EntryView| added_report(entry));
    let mut reports: Vec<SheetDiffReport> = Vec::new();
    let mut i: usize = 0;
    while i < entries.len()
        invariant
            i <= entries.len(),
            reports.len() == i,
            expected == entries.deep_view().map_values(|entry: EntryView| added_report(entry)),
            forall|k: int| 0 <= k < i ==> (#[trigger] reports@[k]).deep_view() == expected[k],
        decreases entries.len() - i,
    {
        reports.push(added_sheet_report(&entries[i]));
        i = i + 1;
    }
    assert(reports.deep_view() =~= expected);
    reports
}

/// The report on two workbooks: `compared` are the sheets that both have and that
/// were compared, `deleted` those that only the old one has, `added` those that
/// only the new one has. The number of all changes must fit an index.
pub fn workbook_report(
    old_file: &str,
    new_file: &str,
    selected_sheets: Vec<String>,
    total_sheets_old: usize,
    total_sheets_new: usize,
    compared: Vec<ComparedSheet>,
    deleted: &Vec<SheetEntry>,
    added: &Vec<SheetEntry>,
) -> (r: WorkbookDiffReport)
    requires
        total_changes(compared.deep_view()) <= usize::MAX,
    ensures
        r.deep_view() == workbook_report_of(
            old_file@,
            new_file@,
            selected_sheets.deep_view(),
            total_sheets_old as nat,
            total_sheets_new as nat,
            compared.deep_view(),
            deleted.deep_view(),
            added.deep_view(),
        ),
{
    let matches = find_renames(deleted, added);
    let ghost expected = all_reports(matches.deep_view(), compared.deep_view());
    let compared_sheets: usize = compared.len();
    let counts = count_compared(&compared);
    let mut sheets = renamed_reports(&matches.renamed);
    let mut compared_part = compared_reports(compared);
    let mut deleted_part = deleted_reports(&matches.deleted);
    let mut added_part = added_reports(&matches.added);
    let ghost parts = sheets.deep_view() + compared_part.deep_view() + deleted_part.deep_view()
        + added_part.deep_view();
    sheets.append(&mut compared_part);
    sheets.append(&mut deleted_part);
    sheets.append(&mut added_part);
    proof {
        assert(sheets.deep_view() =~= parts);
        assert(parts == expected);
    }
    let summary = WorkbookDiffSummary {
        total_sheets_old,
        total_sheets_new,
        compared_sheets,
        added_sheets: count_reports(&sheets, "Added"),
        deleted_sheets: count_reports(&sheets, "Deleted"),
        renamed_sheets: count_reports(&sheets, "Renamed"),
        changed_sheets: counts.changed_sheets,
        changed_cells: counts.cells,
        value_changed_cells: counts.values,
        formula_changed_cells: counts.formulas,
        style_changed_cells: counts.styles,
    };
    WorkbookDiffReport {
        old_file: old_file.to_owned(),
        new_file: new_file.to_owned(),
        selected_sheets,
        summary,
        sheets,
    }
}

proof fn lemma_count_all(reports: Seq<SheetReportView>, status: Seq<char>)
    requires
        forall|i: int| 0 <= i < reports.len() ==> (#[trigger] reports[i]).status == status,
    ensures
        count_status(reports, status) == reports.len(),
    decreases reports.len(),
{
    reveal(Seq::filter);
    if reports.len() > 0 {
        let shorter = reports.drop_last();
        assert forall|i: int| 0 <= i < shorter.len() implies (#[trigger] shorter[i]).status
            == status by {
            assert(shorter[i] == reports[i]);
        }
        lemma_count_all(shorter, status);
        assert(reports[reports.len() - 1].status == status);
    }
}

proof fn lemma_count_none(reports: Seq<SheetReportView>, status: Seq<char>)
    requires
        forall|i: int| 0 <= i < reports.len() ==> (#[trigger] reports[i]).status != status,
    ensures
        count_status(reports, status) == 0,
    decreases reports.len(),
{
    reveal(Seq::filter);
    if reports.len() > 0 {
        let shorter = reports.drop_last();
        assert forall|i: int| 0 <= i < shorter.len() implies (#[trigger] shorter[i]).status
            != status by {
            assert(shorter[i] == reports[i]);
        }
        lemma_count_none(shorter, status);
        assert(reports[reports.len() - 1].status != status);
    }
}

proof fn lemma_count_of_parts(
    a: Seq<SheetReportView>,
    b: Seq<SheetReportView>,
    c: Seq<SheetReportView>,
    d: Seq<SheetReportView>,
    status: Seq<char>,
)
    ensures
        count_status(a + b + c + d, status) == count_status(a, status) + count_status(b, status)
            + count_status(c, status) + count_status(d, status),
{
    let pred = |report: SheetReportView| report.status == status;
    Seq::filter_distributes_over_add(a + b + c, d, pred);
    Seq::filter_distributes_over_add(a + b, c, pred);
    Seq::filter_distributes_over_add(a, b, pred);
}

/// The renamed and the deleted sheets of a summary are the sheets that only the old
/// workbook has, the renamed and the added ones those that only the new one has;
/// and every report is on a renamed, compared, deleted or added sheet.
pub proof fn law_summary_accounts_for_every_sheet(
    total_sheets_old: nat,
    total_sheets_new: nat,
    compared: Seq<ComparedView>,
    deleted: Seq<EntryView>,
    added: Seq<EntryView>,
)
    ensures
        ({
            let matches = sheet_matches(deleted, added, all_signatures(deleted, added));
            let reports = all_reports(matches, compared);
            let summary = summary_of(total_sheets_old, total_sheets_new, compared, reports);
            &&& summary.renamed_sheets == matches.renamed.len()
            &&& summary.deleted_sheets == matches.deleted.len()
            &&& summary.added_sheets == matches.added.len()
            &&& summary.renamed_sheets + summary.deleted_sheets == deleted.len()
            &&& summary.renamed_sheets + summary.added_sheets == added.len()
            &&& reports.len() == summary.renamed_sheets + summary.compared_sheets
                + summary.deleted_sheets + summary.added_sheets
        }),
{
    let signatures = all_signatures(deleted, added);
    let matches = sheet_matches(deleted, added, signatures);
    law_signature_order_is_complete(deleted, added);
    law_every_sheet_is_accounted_for(deleted, added, signatures);
    reveal_strlit("Renamed");
    reveal_strlit("Unchanged");
    reveal_strlit("Compared");
    reveal_strlit("Deleted");
    reveal_strlit("Added");
    assert("Renamed"@[0] == 'R' && "Deleted"@[0] == 'D' && "Added"@[0] == 'A' && "Unchanged"@[0]
        == 'U' && "Compared"@[0] == 'C');
    let a = matches.renamed.map_values(
        |pair: (EntryView, EntryView)| renamed_report(pair.0, pair.1),
    );
    let b = compared.map_values(|sheet: ComparedView| compared_report(sheet));
    let c = matches.deleted.map_values(|entry: EntryView| deleted_report(entry));
    let d = matches.added.map_values(|entry: EntryView| added_report(entry));
    lemma_count_all(a, "Renamed"@);
    lemma_count_none(b, "Renamed"@);
    lemma_count_none(c, "Renamed"@);
    lemma_count_none(d, "Renamed"@);
    lemma_count_of_parts(a, b, c, d, "Renamed"@);
    lemma_count_none(a, "Deleted"@);
    lemma_count_none(b, "Deleted"@);
    lemma_count_all(c, "Deleted"@);
    lemma_count_none(d, "Deleted"@);
    lemma_count_of_parts(a, b, c, d, "Deleted"@);
    lemma_count_none(a, "Added"@);
    lemma_count_none(b, "Added"@);
    lemma_count_none(c, "Added"@);
    lemma_count_all(d, "Added"@);
    lemma_count_of_parts(a, b, c, d, "Added"@);
}

/// What is reported of the sheets does not depend on the names of the files.
pub proof fn law_file_names_do_not_matter(
    old_file: Seq<char>,
    new_file: Seq<char>,
    other_old_file: Seq<char>,
    other_new_file: Seq<char>,
    selected_sheets: Seq<Seq<char>>,
    total_sheets_old: nat,
    total_sheets_new: nat,
    compared: Seq<ComparedView>,
    deleted: Seq<EntryView>,
    added: Seq<EntryView>,
)
    ensures
        workbook_report_of(
            other_old_file,
            other_new_file,
            selected_sheets,
            total_sheets_old,
            total_sheets_new,
            compared,
            deleted,
            added,
        ) == (WorkbookReportView {
            old_file: other_old_file,
            new_file: other_new_file,
            ..workbook_report_of(
                old_file,
                new_file,
                selected_sheets,
                total_sheets_old,
                total_sheets_new,
                compared,
                deleted,
                added,
            )
        }),
{
}

proof fn lemma_total_bounded(
    compared: Seq<ComparedView>,
    count: spec_fn(Seq<DeltaView>) -> nat,
)
    requires
        forall|deltas: Seq<DeltaView>| #[trigger] count(deltas) <= deltas.len(),
    ensures
        total(compared, count) <= total_changes(compared),
    decreases compared.len(),
{
    if compared.len() > 0 {
        lemma_total_bounded(compared.drop_last(), count);
        assert(count(compared.last().cell_deltas) <= compared.last().cell_deltas.len());
    }
}

proof fn lemma_changed_sheets(compared: Seq<ComparedView>)
    ensures
        changed_sheets(compared) <= compared.len(),
        changed_sheets(compared) <= total_changes(compared),
        changed_sheets(compared) == 0 <==> total_changes(compared) == 0,
    decreases compared.len(),
{
    reveal(Seq::filter);
    if compared.len() > 0 {
        lemma_changed_sheets(compared.drop_last());
    }
}

/// No count of a kind of change exceeds the number of changed cells, and there are
/// changed cells exactly if there are changed sheets.
pub proof fn law_summary_counts_are_consistent(
    total_sheets_old: nat,
    total_sheets_new: nat,
    compared: Seq<ComparedView>,
    reports: Seq<SheetReportView>,
)
    ensures
        ({
            let summary = summary_of(total_sheets_old, total_sheets_new, compared, reports);
            &&& summary.changed_sheets <= summary.compared_sheets
            &&& summary.changed_sheets <= summary.changed_cells
            &&& summary.changed_sheets == 0 <==> summary.changed_cells == 0
            &&& summary.value_changed_cells <= summary.changed_cells
            &&& summary.formula_changed_cells <= summary.changed_cells
            &&& summary.style_changed_cells <= summary.changed_cells
        }),
{
    broadcast use Seq::lemma_filter_len;

    lemma_changed_sheets(compared);
    lemma_total_bounded(compared, |deltas: Seq<DeltaView>| value_changes(deltas));
    lemma_total_bounded(compared, |deltas: Seq<DeltaView>| formula_changes(deltas));
    lemma_total_bounded(compared, |deltas: Seq<DeltaView>| style_changes(deltas));
}

/// The sheet of the old workbook that a report is on, if it is on one.
pub open spec fn old_name(report: SheetReportView) -> Option<Seq<char>> {
    match (report.row_count_old, report.renamed_from) {
        (None, _) => None,
        (Some(_), Some(name)) => Some(name),
        (Some(_), None) => Some(report.sheet_name),
    }
}

/// The sheet of the new workbook that a report is on, if it is on one.
pub open spec fn new_name(report: SheetReportView) -> Option<Seq<char>> {
    match report.row_count_new {
        None => None,
        Some(_) => Some(report.sheet_name),
    }
}

/// The sheets that reports are on, by `name_of`.
pub open spec fn reported_names(
    reports: Seq<SheetReportView>,
    name_of: spec_fn(SheetReportView) -> Option<Seq<char>>,
) -> Seq<Seq<char>>
    decreases reports.len(),
{
    if reports.len() == 0 {
        Seq::empty()
    } else {
        let before = reported_names(reports.drop_last(), name_of);
        match name_of(reports.last()) {
            Some(name) => before.push(name),
            None => before,
        }
    }
}

/// The sheets of the old workbook that reports are on.
pub open spec fn reported_old_names(reports: Seq<SheetReportView>) -> Seq<Seq<char>> {
    reported_names(reports, |report: SheetReportView| old_name(report))
}

/// The sheets of the new workbook that reports are on.
pub open spec fn reported_new_names(reports: Seq<SheetReportView>) -> Seq<Seq<char>> {
    reported_names(reports, |report: SheetReportView| new_name(report))
}

/// The names of entries.
pub open spec fn entry_names(entries: Seq<EntryView>) -> Seq<Seq<char>> {
    entries.map_values(|entry: EntryView| entry.name)
}

/// The names of compared sheets.
pub open spec fn compared_names(compared: Seq<ComparedView>) -> Seq<Seq<char>> {
    compared.map_values(|sheet: ComparedView| sheet.sheet_name)
}

proof fn lemma_reported_of_parts(
    a: Seq<SheetReportView>,
    b: Seq<SheetReportView>,
    name_of: spec_fn(SheetReportView) -> Option<Seq<char>>,
)
    ensures
        reported_names(a + b, name_of) == reported_names(a, name_of) + reported_names(b, name_of),
    decreases b.len(),
{
    if b.len() == 0 {
        assert(a + b =~= a);
    } else {
        lemma_reported_of_parts(a, b.drop_last(), name_of);
        assert((a + b).drop_last() =~= a + b.drop_last());
        assert((a + b).last() == b.last());
    }
    assert(reported_names(a + b, name_of) =~= reported_names(a, name_of) + reported_names(
        b,
        name_of,
    ));
}

proof fn lemma_all_reported(
    reports: Seq<SheetReportView>,
    name_of: spec_fn(SheetReportView) -> Option<Seq<char>>,
    names: Seq<Seq<char>>,
)
    requires
        names.len() == reports.len(),
        forall|i: int|
            0 <= i < reports.len() ==> name_of(#[trigger] reports[i]) == Some(names[i]),
    ensures
        reported_names(reports, name_of) == names,
    decreases reports.len(),
{
    if reports.len() > 0 {
        let fewer = reports.drop_last();
        assert forall|i: int| 0 <= i < fewer.len() implies name_of(#[trigger] fewer[i]) == Some(
            names.drop_last()[i],
        ) by {
            assert(fewer[i] == reports[i]);
        }
        lemma_all_reported(fewer, name_of, names.drop_last());
        assert(name_of(reports[reports.len() - 1]) == Some(names[names.len() - 1]));
    }
    assert(reported_names(reports, name_of) =~= names);
}

proof fn lemma_none_reported(
    reports: Seq<SheetReportView>,
    name_of: spec_fn(SheetReportView) -> Option<Seq<char>>,
)
    requires
        forall|i: int| 0 <= i < reports.len() ==> name_of(#[trigger] reports[i]) is None,
    ensures
        reported_names(reports, name_of) == Seq::<Seq<char>>::empty(),
    decreases reports.len(),
{
    if reports.len() > 0 {
        let fewer = reports.drop_last();
        assert forall|i: int| 0 <= i < fewer.len() implies name_of(#[trigger] fewer[i]) is None by {
            assert(fewer[i] == reports[i]);
        }
        lemma_none_reported(fewer, name_of);
        assert(name_of(reports[reports.len() - 1]) is None);
    }
}

proof fn lemma_reported_in_all(matches: MatchesView, compared: Seq<ComparedView>)
    ensures
        reported_old_names(all_reports(matches, compared)) == entry_names(
            old_sheets(matches.renamed),
        ) + compared_names(compared) + entry_names(matches.deleted),
        reported_new_names(all_reports(matches, compared)) == entry_names(
            new_sheets(matches.renamed),
        ) + compared_names(compared) + entry_names(matches.added),
{
    let by_old = |report: SheetReportView| old_name(report);
    let by_new = |report: SheetReportView| new_name(report);
    let a = matches.renamed.map_values(
        |pair: (EntryView, EntryView)| renamed_report(pair.0, pair.1),
    );
    let b = compared.map_values(|sheet: ComparedView| compared_report(sheet));
    let c = matches.deleted.map_values(|entry: EntryView| deleted_report(entry));
    let d = matches.added.map_values(|entry: EntryView| added_report(entry));
    lemma_reported_of_parts(a, b, by_old);
    lemma_reported_of_parts(a + b, c, by_old);
    lemma_reported_of_parts(a + b + c, d, by_old);
    lemma_reported_of_parts(a, b, by_new);
    lemma_reported_of_parts(a + b, c, by_new);
    lemma_reported_of_parts(a + b + c, d, by_new);
    lemma_all_reported(a, by_old, entry_names(old_sheets(matches.renamed)));
    lemma_all_reported(b, by_old, compared_names(compared));
    lemma_all_reported(c, by_old, entry_names(matches.deleted));
    lemma_none_reported(d, by_old);
    lemma_all_reported(a, by_new, entry_names(new_sheets(matches.renamed)));
    lemma_all_reported(b, by_new, compared_names(compared));
    lemma_none_reported(c, by_new);
    lemma_all_reported(d, by_new, entry_names(matches.added));
    assert(reported_old_names(all_reports(matches, compared)) =~= entry_names(
        old_sheets(matches.renamed),
    ) + compared_names(compared) + entry_names(matches.deleted));
    assert(reported_new_names(all_reports(matches, compared)) =~= entry_names(
        new_sheets(matches.renamed),
    ) + compared_names(compared) + entry_names(matches.added));
}

proof fn lemma_names_of_permutation(s: Seq<EntryView>, t: Seq<EntryView>)
    requires
        s.to_multiset() == t.to_multiset(),
    ensures
        entry_names(s).to_multiset() == entry_names(t).to_multiset(),
    decreases s.len(),
{
    broadcast use vstd::seq_lib::group_to_multiset_ensures;

    assert(s.len() == s.to_multiset().len() && t.len() == t.to_multiset().len());
    if s.len() == 0 {
        assert(s =~= t);
    } else {
        let last = s.last();
        let fewer = s.drop_last();
        assert(s =~= fewer.push(last));
        assert(t.to_multiset().count(last) > 0);
        assert(t.contains(last));
        let i = choose|i: int| 0 <= i < t.len() && t[i] == last;
        let rest = t.remove(i);
        assert(fewer.to_multiset() =~= rest.to_multiset());
        lemma_names_of_permutation(fewer, rest);
        assert(entry_names(s) =~= entry_names(fewer).push(last.name));
        assert(entry_names(rest) =~= entry_names(t).remove(i));
        assert(entry_names(t)[i] == last.name);
        assert(entry_names(t).contains(last.name));
        assert(entry_names(s).to_multiset() =~= entry_names(t).to_multiset());
    }
}

proof fn lemma_names_accounted(
    paired: Seq<EntryView>,
    common: Seq<Seq<char>>,
    left: Seq<EntryView>,
    entries: Seq<EntryView>,
)
    requires
        paired.to_multiset().add(left.to_multiset()) == entries.to_multiset(),
    ensures
        (entry_names(paired) + common + entry_names(left)).to_multiset() == entry_names(
            entries,
        ).to_multiset().add(common.to_multiset()),
{
    lemma_multiset_commutative(paired, left);
    lemma_names_of_permutation(paired + left, entries);
    assert(entry_names(paired + left) =~= entry_names(paired) + entry_names(left));
    lemma_multiset_commutative(entry_names(paired), entry_names(left));
    lemma_multiset_commutative(entry_names(paired), common);
    lemma_multiset_commutative(entry_names(paired) + common, entry_names(left));
    assert((entry_names(paired) + common + entry_names(left)).to_multiset() =~= entry_names(
        entries,
    ).to_multiset().add(common.to_multiset()));
}

/// Where all sheets that both workbooks have are compared, and no name occurs twice
/// in a workbook, every sheet of either workbook is the subject of exactly one
/// report, and the counts of the summary add up to the numbers of sheets.
pub proof fn law_every_sheet_is_reported_once(
    old_file: Seq<char>,
    new_file: Seq<char>,
    selected_sheets: Seq<Seq<char>>,
    old_names: Seq<Seq<char>>,
    new_names: Seq<Seq<char>>,
    compared: Seq<ComparedView>,
    deleted: Seq<EntryView>,
    added: Seq<EntryView>,
)
    requires
        old_names.no_duplicates(),
        new_names.no_duplicates(),
        compared_names(compared) == sheet_plan(old_names, new_names, None).compared,
        entry_names(deleted) == sheet_plan(old_names, new_names, None).deleted,
        entry_names(added) == sheet_plan(old_names, new_names, None).added,
    ensures
        ({
            let report = workbook_report_of(
                old_file,
                new_file,
                selected_sheets,
                old_names.len(),
                new_names.len(),
                compared,
                deleted,
                added,
            );
            let summary = report.summary;
            &&& summary.compared_sheets + summary.deleted_sheets + summary.renamed_sheets
                == summary.total_sheets_old
            &&& summary.compared_sheets + summary.added_sheets + summary.renamed_sheets
                == summary.total_sheets_new
            &&& report.sheets.len() == summary.compared_sheets + summary.added_sheets
                + summary.deleted_sheets + summary.renamed_sheets
            &&& reported_old_names(report.sheets).to_multiset() == old_names.to_multiset()
            &&& reported_new_names(report.sheets).to_multiset() == new_names.to_multiset()
        }),
{
    let signatures = all_signatures(deleted, added);
    let matches = sheet_matches(deleted, added, signatures);
    law_plan_covers_both_workbooks(old_names, new_names);
    law_summary_accounts_for_every_sheet(
        old_names.len(),
        new_names.len(),
        compared,
        deleted,
        added,
    );
    assert(compared.len() == compared_names(compared).len());
    assert(deleted.len() == entry_names(deleted).len());
    assert(added.len() == entry_names(added).len());
    law_signature_order_is_complete(deleted, added);
    law_every_sheet_is_accounted_for(deleted, added, signatures);
    lemma_reported_in_all(matches, compared);
    lemma_names_accounted(
        old_sheets(matches.renamed),
        compared_names(compared),
        matches.deleted,
        deleted,
    );
    lemma_names_accounted(
        new_sheets(matches.renamed),
        compared_names(compared),
        matches.added,
        added,
    );
}

/// Each delta counts once under each kind of change that it tells of, and under no
/// other, whatever else it tells of.
pub proof fn law_changes_are_counted_one_by_one(deltas: Seq<DeltaView>, delta: DeltaView)
    ensures
        value_changes(Seq::empty()) == 0,
        formula_changes(Seq::empty()) == 0,
        style_changes(Seq::empty()) == 0,
        value_changes(deltas.push(delta)) == value_changes(deltas) + (if delta.value_changed {
            1nat
        } else {
            0
        }),
        formula_changes(deltas.push(delta)) == formula_changes(deltas) + (if delta.formula_changed {
            1nat
        } else {
            0
        }),
        style_changes(deltas.push(delta)) == style_changes(deltas) + (if delta.style_changed {
            1nat
        } else {
            0
        }),
{
    reveal(Seq::filter);
    assert(deltas.push(delta).drop_last() =~= deltas);
}

/// Each compared sheet adds to the summary its changes of each kind and the number of
/// its changed cells, and counts as a changed sheet exactly if it has any.
pub proof fn law_summary_grows_sheet_by_sheet(
    total_sheets_old: nat,
    total_sheets_new: nat,
    compared: Seq<ComparedView>,
    sheet: ComparedView,
    reports: Seq<SheetReportView>,
)
    ensures
        ({
            let before = summary_of(total_sheets_old, total_sheets_new, compared, reports);
            let after = summary_of(
                total_sheets_old,
                total_sheets_new,
                compared.push(sheet),
                reports,
            );
            let deltas = sheet.cell_deltas;
            &&& after == (SummaryView {
                compared_sheets: before.compared_sheets + 1,
                changed_sheets: before.changed_sheets + (if deltas.len() > 0 {
                    1nat
                } else {
                    0
                }),
                changed_cells: before.changed_cells + deltas.len(),
                value_changed_cells: before.value_changed_cells + value_changes(deltas),
                formula_changed_cells: before.formula_changed_cells + formula_changes(deltas),
                style_changed_cells: before.style_changed_cells + style_changes(deltas),
                ..before
            })
            &&& before.total_sheets_old == total_sheets_old
            &&& before.total_sheets_new == total_sheets_new
        }),
        ({
            let nothing = summary_of(total_sheets_old, total_sheets_new, Seq::empty(), reports);
            &&& nothing.compared_sheets == 0
            &&& nothing.changed_sheets == 0
            &&& nothing.changed_cells == 0
            &&& nothing.value_changed_cells == 0
            &&& nothing.formula_changed_cells == 0
            &&& nothing.style_changed_cells == 0
        }),
{
    reveal(Seq::filter);
    assert(compared.push(sheet).drop_last() =~= compared);
}

/// Each report counts once under its own status, and under no other.
pub proof fn law_reports_are_counted_by_status(
    reports: Seq<SheetReportView>,
    report: SheetReportView,
    status: Seq<char>,
)
    ensures
        count_status(Seq::empty(), status) == 0,
        count_status(reports.push(report), status) == count_status(reports, status) + (if
            report.status == status {
            1nat
        } else {
            0
        }),
{
    reveal(Seq::filter);
    assert(reports.push(report).drop_last() =~= reports);
}

/// The report on a compared sheet holds the sheet's name, its numbers of rows, all
/// changes of its cells and their counts. It is unchanged exactly if there are none.
pub proof fn law_compared_report_holds_every_change(sheet: ComparedView)
    ensures
        ({
            let report = compared_report(sheet);
            &&& report.sheet_name == sheet.sheet_name
            &&& report.row_count_old == Some(sheet.row_count_old)
            &&& report.row_count_new == Some(sheet.row_count_new)
            &&& report.renamed_from is None && report.renamed_to is None
            &&& report.cell_deltas == sheet.cell_deltas
            &&& report.value_changed_cells == value_changes(sheet.cell_deltas)
            &&& report.formula_changed_cells == formula_changes(sheet.cell_deltas)
            &&& report.style_changed_cells == style_changes(sheet.cell_deltas)
            &&& report.status == "Unchanged"@ <==> sheet.cell_deltas.len() == 0
            &&& report.status == "Compared"@ <==> sheet.cell_deltas.len() > 0
        }),
{
    reveal_strlit("Unchanged");
    reveal_strlit("Compared");
    assert("Unchanged"@[0] == 'U' && "Compared"@[0] == 'C');
}

/// The reports on sheets that are on one side only tell of no cells. The one on a
/// renamed sheet has both names and both numbers of rows, under the new name; those
/// on deleted and added sheets have the sheet's name and its number of rows on the
/// side where it is.
pub proof fn law_plain_reports_tell_name_and_rows(old: EntryView, new: EntryView)
    ensures
        ({
            let report = renamed_report(old, new);
            &&& report.status == "Renamed"@
            &&& report.sheet_name == new.name
            &&& report.renamed_from == Some(old.name)
            &&& report.renamed_to == Some(new.name)
            &&& report.row_count_old == Some(old.row_count)
            &&& report.row_count_new == Some(new.row_count)
            &&& report.cell_deltas.len() == 0
            &&& report.value_changed_cells == 0 && report.formula_changed_cells == 0
                && report.style_changed_cells == 0
        }),
        ({
            let report = deleted_report(old);
            &&& report.status == "Deleted"@
            &&& report.sheet_name == old.name
            &&& report.renamed_from is None && report.renamed_to is None
            &&& report.row_count_old == Some(old.row_count)
            &&& report.row_count_new is None
            &&& report.cell_deltas.len() == 0
            &&& report.value_changed_cells == 0 && report.formula_changed_cells == 0
                && report.style_changed_cells == 0
        }),
        ({
            let report = added_report(new);
            &&& report.status == "Added"@
            &&& report.sheet_name == new.name
            &&& report.renamed_from is None && report.renamed_to is None
            &&& report.row_count_old is None
            &&& report.row_count_new == Some(new.row_count)
            &&& report.cell_deltas.len() == 0
            &&& report.value_changed_cells == 0 && report.formula_changed_cells == 0
                && report.style_changed_cells == 0
        }),
{
}

/// The reports come in the order renamed, compared, deleted, added, one for each
/// sheet and in the order of the sheets; the counts by status are over all of them.
pub proof fn law_reports_come_in_order(
    old_file: Seq<char>,
    new_file: Seq<char>,
    selected_sheets: Seq<Seq<char>>,
    total_sheets_old: nat,
    total_sheets_new: nat,
    compared: Seq<ComparedView>,
    deleted: Seq<EntryView>,
    added: Seq<EntryView>,
    i: int,
)
    ensures
        ({
            let report = workbook_report_of(
                old_file,
                new_file,
                selected_sheets,
                total_sheets_old,
                total_sheets_new,
                compared,
                deleted,
                added,
            );
            let m = sheet_matches(deleted, added, all_signatures(deleted, added));
            let sheets = report.sheets;
            let a = m.renamed.len() as int;
            let b = a + compared.len();
            let c = b + m.deleted.len();
            &&& report.old_file == old_file && report.new_file == new_file
            &&& report.selected_sheets == selected_sheets
            &&& sheets.len() == c + m.added.len()
            &&& 0 <= i < a ==> sheets[i] == renamed_report(m.renamed[i].0, m.renamed[i].1)
            &&& a <= i < b ==> sheets[i] == compared_report(compared[i - a])
            &&& b <= i < c ==> sheets[i] == deleted_report(m.deleted[i - b])
            &&& c <= i < sheets.len() ==> sheets[i] == added_report(m.added[i - c])
            &&& report.summary == summary_of(total_sheets_old, total_sheets_new, compared, sheets)
            &&& report.summary.added_sheets == count_status(sheets, "Added"@)
            &&& report.summary.deleted_sheets == count_status(sheets, "Deleted"@)
            &&& report.summary.renamed_sheets == count_status(sheets, "Renamed"@)
        }),
{
}

/// The views of reports hold every field.
pub proof fn law_report_views_keep_every_field(
    sheet: SheetDiffReport,
    summary: WorkbookDiffSummary,
    report: WorkbookDiffReport,
    compared: ComparedSheet,
)
    ensures
        ({
            let v = sheet.deep_view();
            &&& v.sheet_name == sheet.sheet_name@ && v.status == sheet.status@
            &&& v.renamed_from == sheet.renamed_from.deep_view()
            &&& v.renamed_to == sheet.renamed_to.deep_view()
            &&& v.row_count_old == sheet.row_count_old && v.row_count_new == sheet.row_count_new
            &&& v.value_changed_cells == sheet.value_changed_cells
            &&& v.formula_changed_cells == sheet.formula_changed_cells
            &&& v.style_changed_cells == sheet.style_changed_cells
            &&& v.cell_deltas == sheet.cell_deltas.deep_view()
        }),
        ({
            let v = summary.deep_view();
            &&& v.total_sheets_old == summary.total_sheets_old
            &&& v.total_sheets_new == summary.total_sheets_new
            &&& v.compared_sheets == summary.compared_sheets
            &&& v.added_sheets == summary.added_sheets
            &&& v.deleted_sheets == summary.deleted_sheets
            &&& v.renamed_sheets == summary.renamed_sheets
            &&& v.changed_sheets == summary.changed_sheets
            &&& v.changed_cells == summary.changed_cells
            &&& v.value_changed_cells == summary.value_changed_cells
            &&& v.formula_changed_cells == summary.formula_changed_cells
            &&& v.style_changed_cells == summary.style_changed_cells
        }),
        ({
            let v = report.deep_view();
            &&& v.old_file == report.old_file@ && v.new_file == report.new_file@
            &&& v.selected_sheets == report.selected_sheets.deep_view()
            &&& v.summary == report.summary.deep_view()
            &&& v.sheets == report.sheets.deep_view()
        }),
        ({
            let v = compared.deep_view();
            &&& v.sheet_name == compared.sheet_name@
            &&& v.row_count_old == compared.row_count_old
            &&& v.row_count_new == compared.row_count_new
            &&& v.cell_deltas == compared.cell_deltas.deep_view()
        }),
{
}

} // verus!
