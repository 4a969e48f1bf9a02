//! Cell values: their text, and when two of them are equal.

use crate::text::{bool_text, i64_text, integer_text, law_integer_text_injective, trim, trimmed};
use vstd::prelude::*;

verus! {

/// The error that a cell can hold in place of a value.
#[derive(Clone, Copy, Debug, PartialEq, Eq, Structural)]
pub enum CellErrorType {
    Div0,
    NA,
    Name,
    Null,
    Num,
    Ref,
    Value,
    GettingData,
}

/// The value of a cell. A floating-point number, and a date held as one, is
/// given by its shortest decimal text.
#[derive(Debug)]
pub enum Data {
    Int(i64),
    Float(String),
    String(String),
    Bool(bool),
    DateTime(String),
    DateTimeIso(String),
    DurationIso(String),
    Error(CellErrorType),
    Empty,
}

pub enum DataView {
    Int(int),
    Float(Seq<char>),
    String(Seq<char>),
    Bool(bool),
    DateTime(Seq<char>),
    DateTimeIso(Seq<char>),
    DurationIso(Seq<char>),
    Error(CellErrorType),
    Empty,
}

impl DeepView for Data {
    type V = DataView;

    open spec fn deep_view(&self) -> DataView {
        match self {
            Data::Int(i) => DataView::Int(*i as int),
            Data::Float(text) => DataView::Float(text@),
            Data::String(s) => DataView::String(s@),
            Data::Bool(b) => DataView::Bool(*b),
            Data::DateTime(text) => DataView::DateTime(text@),
            Data::DateTimeIso(s) => DataView::DateTimeIso(s@),
            Data::DurationIso(s) => DataView::DurationIso(s@),
            Data::Error(e) => DataView::Error(*e),
            Data::Empty => DataView::Empty,
        }
    }
}

impl Clone for Data {
    fn clone(&self) -> (r: Self)
        ensures
            r.deep_view() == self.deep_view(),
    {
        match self {
            Data::Int(i) => Data::Int(*i),
            Data::Float(text) => Data::Float(text.clone()),
            Data::String(s) => Data::String(s.clone()),
            Data::Bool(b) => Data::Bool(*b),
            Data::DateTime(text) => Data::DateTime(text.clone()),
            Data::DateTimeIso(s) => Data::DateTimeIso(s.clone()),
            Data::DurationIso(s) => Data::DurationIso(s.clone()),
            Data::Error(e) => Data::Error(*e),
            Data::Empty => Data::Empty,
        }
    }
}

/// The name of an error.
pub open spec fn error_name(e: CellErrorType) -> Seq<char> {
    match e {
        CellErrorType::Div0 => "Div0"@,
        CellErrorType::NA => "NA"@,
        CellErrorType::Name => "Name"@,
        CellErrorType::Null => "Null"@,
        CellErrorType::Num => "Num"@,
        CellErrorType::Ref => "Ref"@,
        CellErrorType::Value => "Value"@,
        CellErrorType::GettingData => "GettingData"@,
    }
}

/// The text of a cell: a string without the white space around it, a number in
/// decimal, an error by its name, nothing for an empty cell.
pub open spec fn cell_text(cell: DataView) -> Seq<char> {
    match cell {
        DataView::Int(i) => integer_text(i),
        DataView::Float(text) => text,
        DataView::String(s) => trimmed(s),
        DataView::Bool(b) => bool_text(b),
        DataView::DateTime(text) => text,
        DataView::DateTimeIso(s) => s,
        DataView::DurationIso(s) => s,
        DataView::Error(e) => error_name(e),
        DataView::Empty => Seq::empty(),
    }
}

/// Whether both cells hold numbers and one of them is a floating-point number.
pub open spec fn float_pair(a: DataView, b: DataView) -> bool {
    match (a, b) {
        (DataView::Float(_), DataView::Float(_)) => true,
        (DataView::Float(_), DataView::Int(_)) => true,
        (DataView::Int(_), DataView::Float(_)) => true,
        _ => false,
    }
}

/// Whether two cells count as equal. Numbers of which one is a floating-point
/// number are equal if they are close; all other cells are equal if they have
/// the same text.
pub open spec fn cells_equal(a: DataView, b: DataView, numbers_close: bool) -> bool {
    if float_pair(a, b) {
        numbers_close
    } else {
        cell_text(a) == cell_text(b)
    }
}

fn error_text(e: CellErrorType) -> (r: String)
    ensures
        r@ == error_name(e),
{
    match e {
        CellErrorType::Div0 => "Div0".to_owned(),
        CellErrorType::NA => "NA".to_owned(),
        CellErrorType::Name => "Name".to_owned(),
        CellErrorType::Null => "Null".to_owned(),
        CellErrorType::Num => "Num".to_owned(),
        CellErrorType::Ref => "Ref".to_owned(),
        CellErrorType::Value => "Value".to_owned(),
        CellErrorType::GettingData => "GettingData".to_owned(),
    }
}

/// The text of a cell.
pub fn cell_to_string(cell: &Data) -> (r: String)
    ensures
        r@ == cell_text(cell.deep_view()),
{
    match cell {
        Data::Int(i) => i64_text(*i),
        Data::Float(text) => text.clone(),
        Data::String(s) => trim(s.as_str()),
        Data::Bool(b) => if *b {
            "true".to_owned()
        } else {
            "false".to_owned()
        },
        Data::DateTime(text) => text.clone(),
        Data::DateTimeIso(s) => s.clone(),
        Data::DurationIso(s) => s.clone(),
        Data::Error(e) => error_text(*e),
        Data::Empty => String::new(),
    }
}

/// Two cells, compared. `numbers_close` says whether the numbers in them are
/// within the tolerance of each other; it is read where one of them is a
/// floating-point number and the other a number.
pub fn data_equal_with_tolerance(a: &Data, b: &Data, numbers_close: bool) -> (r: bool)
    ensures
        r == cells_equal(a.deep_view(), b.deep_view(), numbers_close),
{
    match (a, b) {
        (Data::Float(_), Data::Float(_)) => numbers_close,
        (Data::Float(_), Data::Int(_)) => numbers_close,
        (Data::Int(_), Data::Float(_)) => numbers_close,
        (Data::Int(i), Data::Int(j)) => {
            proof {
                law_integer_text_injective(*i as int, *j as int);
            }
            *i == *j
        },
        (Data::String(s), Data::String(t)) => trim(s.as_str()) == trim(t.as_str()),
        (Data::Bool(x), Data::Bool(y)) => {
            proof {
                reveal_strlit("true");
                reveal_strlit("false");
                assert("true"@.len() != "false"@.len());
            }
            *x == *y
        },
        (Data::Empty, Data::Empty) => true,
        _ => cell_to_string(a) == cell_to_string(b),
    }
}

/// Every cell equals itself, as far as its number is close to itself.
pub proof fn law_equality_is_reflexive(a: DataView)
    ensures
        cells_equal(a, a, true),
{
}

/// The order of the two cells does not matter.
pub proof fn law_equality_is_symmetric(a: DataView, b: DataView, numbers_close: bool)
    ensures
        cells_equal(a, b, numbers_close) == cells_equal(b, a, numbers_close),
{
}

/// Strings that differ only in the white space around them are equal.
pub proof fn law_outer_white_space_is_ignored(s: Seq<char>, t: Seq<char>, numbers_close: bool)
    requires
        trimmed(s) == trimmed(t),
    ensures
        cells_equal(DataView::String(s), DataView::String(t), numbers_close),
{
}

/// The view of a cell is of the same kind and has the same contents.
pub proof fn law_view_keeps_kind_and_contents(cell: Data)
    ensures
        match cell {
            Data::Int(i) => cell.deep_view() == DataView::Int(i as int),
            Data::Float(text) => cell.deep_view() == DataView::Float(text@),
            Data::String(s) => cell.deep_view() == DataView::String(s@),
            Data::Bool(b) => cell.deep_view() == DataView::Bool(b),
            Data::DateTime(text) => cell.deep_view() == DataView::DateTime(text@),
            Data::DateTimeIso(s) => cell.deep_view() == DataView::DateTimeIso(s@),
            Data::DurationIso(s) => cell.deep_view() == DataView::DurationIso(s@),
            Data::Error(e) => cell.deep_view() == DataView::Error(e),
            Data::Empty => cell.deep_view() == DataView::Empty,
        },
{
}

/// The text of a cell, for every kind of cell: numbers in decimal, dates, durations
/// and floating-point numbers as they are given, strings without the white space
/// around them, nothing for an empty cell.
pub proof fn law_every_kind_of_cell_has_its_text(i: int, s: Seq<char>, b: bool)
    ensures
        cell_text(DataView::Int(i)) == integer_text(i),
        cell_text(DataView::Float(s)) == s,
        cell_text(DataView::String(s)) == trimmed(s),
        cell_text(DataView::Bool(true)) == "true"@,
        cell_text(DataView::Bool(false)) == "false"@,
        cell_text(DataView::DateTime(s)) == s,
        cell_text(DataView::DateTimeIso(s)) == s,
        cell_text(DataView::DurationIso(s)) == s,
        cell_text(DataView::Empty).len() == 0,
        cell_text(DataView::Error(CellErrorType::Div0)) == "Div0"@,
        cell_text(DataView::Error(CellErrorType::NA)) == "NA"@,
        cell_text(DataView::Error(CellErrorType::Name)) == "Name"@,
        cell_text(DataView::Error(CellErrorType::Null)) == "Null"@,
        cell_text(DataView::Error(CellErrorType::Num)) == "Num"@,
        cell_text(DataView::Error(CellErrorType::Ref)) == "Ref"@,
        cell_text(DataView::Error(CellErrorType::Value)) == "Value"@,
        cell_text(DataView::Error(CellErrorType::GettingData)) == "GettingData"@,
{
}

/// Two cells count as equal exactly if they have the same text, unless both are
/// numbers and one of them is a floating-point number: then exactly if they are
/// close.
pub proof fn law_cells_are_equal_by_text_or_closeness(a: DataView, b: DataView, close: bool)
    ensures
        ({
            let floats = a is Float || b is Float;
            let numbers = (a is Int || a is Float) && (b is Int || b is Float);
            cells_equal(a, b, close) <==> if floats && numbers {
                close
            } else {
                cell_text(a) == cell_text(b)
            }
        }),
{
}

/// Dates, durations, truth values, whole numbers and strings are told apart: two of
/// the same kind count as equal exactly if they hold the same, strings but for the
/// white space around them, whether numbers are close or not.
pub proof fn law_cells_of_one_kind_are_told_apart(
    s: Seq<char>,
    t: Seq<char>,
    i: int,
    j: int,
    x: bool,
    y: bool,
    close: bool,
)
    ensures
        cells_equal(DataView::DateTime(s), DataView::DateTime(t), close) <==> s == t,
        cells_equal(DataView::DateTimeIso(s), DataView::DateTimeIso(t), close) <==> s == t,
        cells_equal(DataView::DurationIso(s), DataView::DurationIso(t), close) <==> s == t,
        cells_equal(DataView::String(s), DataView::String(t), close) <==> trimmed(s) == trimmed(t),
        cells_equal(DataView::Int(i), DataView::Int(j), close) <==> i == j,
        cells_equal(DataView::Bool(x), DataView::Bool(y), close) <==> x == y,
        cells_equal(DataView::Float(s), DataView::Float(t), close) <==> close,
        cells_equal(DataView::Float(s), DataView::Int(i), close) <==> close,
        cells_equal(DataView::Int(i), DataView::Float(s), close) <==> close,
{
    law_integer_text_injective(i, j);
    reveal_strlit("true");
    reveal_strlit("false");
    assert("true"@.len() != "false"@.len());
}

/// An error is equal to itself only.
pub proof fn law_errors_are_told_apart(e: CellErrorType, f: CellErrorType, close: bool)
    ensures
        cells_equal(DataView::Error(e), DataView::Error(f), close) <==> e == f,
{
    reveal_strlit("Div0");
    reveal_strlit("NA");
    reveal_strlit("Name");
    reveal_strlit("Null");
    reveal_strlit("Num");
    reveal_strlit("Ref");
    reveal_strlit("Value");
    reveal_strlit("GettingData");
    assert("Div0"@[0] == 'D' && "NA"@.len() == 2 && "Name"@[1] == 'a' && "Name"@.len() == 4
        && "Null"@[1] == 'u' && "Null"@.len() == 4 && "Num"@.len() == 3 && "Num"@[0] == 'N'
        && "Ref"@[0] == 'R' && "Value"@[0] == 'V' && "GettingData"@[0] == 'G' && "NA"@[0] == 'N'
        && "Name"@[0] == 'N' && "Null"@[0] == 'N');
}

} // verus!
