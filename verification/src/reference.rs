//! Cell references: column letters and row numbers.

use crate::text::{
    ascii_lower, bounded_numeral, chars_of, decimal_text, is_ascii_letter, is_digit,
    law_decimal_round_trip, law_decimal_text_is_digits, parse_numeral_chars,
};
use vstd::prelude::*;

verus! {

/// The place of an ASCII letter in the alphabet, from one; case does not matter.
pub open spec fn letter_rank(c: char) -> nat {
    if c as u32 >= 0x61 {
        (c as u32 - 0x60) as nat
    } else {
        (c as u32 - 0x40) as nat
    }
}

/// The number of the column with the letters `s`, from one: `A` is 1, `Z` is 26,
/// `AA` is 27.
pub open spec fn column_number(s: Seq<char>) -> nat
    decreases s.len(),
{
    if s.len() == 0 {
        0
    } else {
        column_number(s.drop_last()) * 26 + letter_rank(s.last())
    }
}

/// The letters at the start of `s`.
pub open spec fn leading_letters(s: Seq<char>) -> Seq<char>
    decreases s.len(),
{
    if s.len() > 0 && is_ascii_letter(s.first()) {
        seq![s.first()] + leading_letters(s.drop_first())
    } else {
        Seq::empty()
    }
}

pub open spec fn all_letters(s: Seq<char>) -> bool {
    forall|i: int| 0 <= i < s.len() ==> is_ascii_letter(#[trigger] s[i])
}

/// The index of the column with the name `s`, from zero; `None` if `s` is empty or
/// holds anything but letters.
pub open spec fn column_index(s: Seq<char>) -> Option<nat> {
    if s.len() > 0 && all_letters(s) {
        Some((column_number(s) - 1) as nat)
    } else {
        None
    }
}

/// The letters of a cell reference.
pub open spec fn letters_of(s: Seq<char>) -> Seq<char> {
    s.filter(|c: char| is_ascii_letter(c))
}

/// The decimal digits of a cell reference.
pub open spec fn digits_of(s: Seq<char>) -> Seq<char> {
    s.filter(|c: char| is_digit(c))
}

/// What a cell reference refers to.
pub enum CellPlace {
    /// The text is no cell reference.
    Nowhere,
    /// Row and column, from zero.
    At(usize, usize),
    /// The column's number does not fit an index.
    TooFar,
}

/// The row and column, from zero, that the letters and digits of a cell reference
/// give; all other characters are passed over, and row zero counts as the first.
pub open spec fn cell_place(s: Seq<char>) -> CellPlace {
    match bounded_numeral(digits_of(s), usize::MAX as nat) {
        None => CellPlace::Nowhere,
        Some(row) => match column_index(letters_of(s)) {
            None => CellPlace::Nowhere,
            Some(col) => if col < usize::MAX {
                CellPlace::At(if row == 0 { 0 } else { (row - 1) as usize }, col as usize)
            } else {
                CellPlace::TooFar
            },
        },
    }
}

proof fn lemma_column_number_grows(s: Seq<char>, k: int)
    requires
        0 <= k <= s.len(),
        all_letters(s),
    ensures
        column_number(s.take(k)) <= column_number(s),
        s.len() > 0 ==> column_number(s) > 0,
    decreases s.len() - k,
{
    if k == s.len() {
        assert(s.take(k) =~= s);
        if s.len() > 0 {
            assert(is_ascii_letter(s[s.len() - 1]));
        }
    } else {
        let t = s.drop_last();
        assert forall|i: int| 0 <= i < t.len() implies is_ascii_letter(#[trigger] t[i]) by {
            assert(t[i] == s[i]);
        }
        lemma_column_number_grows(t, k);
        assert(t.take(k) =~= s.take(k));
        assert(is_ascii_letter(s[s.len() - 1]));
    }
}

proof fn lemma_leading_letters(s: Seq<char>, k: int)
    requires
        0 <= k <= s.len(),
        forall|i: int| 0 <= i < k ==> is_ascii_letter(#[trigger] s[i]),
        k < s.len() ==> !is_ascii_letter(s[k]),
    ensures
        leading_letters(s) == s.take(k),
    decreases k,
{
    if k == 0 {
        assert(s.take(0) =~= Seq::empty());
    } else {
        let t = s.drop_first();
        assert(is_ascii_letter(s[0]));
        assert forall|i: int| 0 <= i < k - 1 implies is_ascii_letter(#[trigger] t[i]) by {
            assert(t[i] == s[i + 1]);
        }
        lemma_leading_letters(t, k - 1);
        assert(seq![s.first()] + t.take(k - 1) =~= s.take(k));
    }
}

fn ascii_letter(c: char) -> (r: bool)
    ensures
        r == is_ascii_letter(c),
{
    let code: u32 = c as u32;
    (0x41 <= code && code <= 0x5a) || (0x61 <= code && code <= 0x7a)
}

fn rank(c: char) -> (r: usize)
    requires
        is_ascii_letter(c),
    ensures
        r == letter_rank(c),
        1 <= r <= 26,
{
    let code: u32 = c as u32;
    if code >= 0x61 {
        (code - 0x60) as usize
    } else {
        (code - 0x40) as usize
    }
}

/// The number of the column with the given letters; `None` if it exceeds an index.
fn checked_column_number(letters: &Vec<char>) -> (r: Option<usize>)
    requires
        all_letters(letters@),
    ensures
        match r {
            Some(v) => v == column_number(letters@),
            None => column_number(letters@) > usize::MAX,
        },
{
    let mut value: usize = 0;
    let mut i: usize = 0;
    assert(letters@.take(0) =~= Seq::empty());
    while i < letters.len()
        invariant
            i <= letters.len(),
            all_letters(letters@),
            value == column_number(letters@.take(i as int)),
        decreases letters.len() - i,
    {
        proof {
            assert(letters@.take(i + 1).drop_last() =~= letters@.take(i as int));
            lemma_column_number_grows(letters@, i + 1);
        }
        let wide: u128 = value as u128 * 26 + rank(letters[i]) as u128;
        if wide > usize::MAX as u128 {
            return None;
        }
        value = wide as usize;
        i = i + 1;
    }
    assert(letters@.take(letters.len() as int) =~= letters@);
    Some(value)
}

/// The index of the column with the name `column`, from zero. The number of the
/// letters that it starts with must fit an index.
pub fn excel_column_to_index(column: &str) -> (r: Option<usize>)
    requires
        column_number(leading_letters(column@)) <= usize::MAX,
    ensures
        match r {
            Some(index) => column_index(column@) == Some(index as nat),
            None => column_index(column@) is None,
        },
{
    let chars = chars_of(column);
    let mut i: usize = 0;
    while i < chars.len()
        invariant
            i <= chars.len(),
            chars@ == column@,
            forall|k: int| 0 <= k < i ==> is_ascii_letter(#[trigger] chars@[k]),
        decreases chars.len() - i,
    {
        if !ascii_letter(chars[i]) {
            assert(!is_ascii_letter(column@[i as int]));
            return None;
        }
        i = i + 1;
    }
    if chars.len() == 0 {
        return None;
    }
    proof {
        lemma_leading_letters(column@, column@.len() as int);
        assert(column@.take(column@.len() as int) =~= column@);
        lemma_column_number_grows(column@, 0);
    }
    match checked_column_number(&chars) {
        Some(number) => Some(number - 1),
        None => None,
    }
}

/// Where a cell reference points.
pub fn locate_cell(cell_ref: &str) -> (r: CellPlace)
    ensures
        r == cell_place(cell_ref@),
{
    let chars = chars_of(cell_ref);
    let mut letters: Vec<char> = Vec::new();
    let mut digits: Vec<char> = Vec::new();
    let ghost is_letter = |c: char| is_ascii_letter(c);
    let ghost is_dig = |c: char| is_digit(c);
    let mut i: usize = 0;
    proof {
        reveal(Seq::filter);
        assert(chars@.take(0) =~= Seq::empty());
    }
    while i < chars.len()
        invariant
            i <= chars.len(),
            letters@ == chars@.take(i as int).filter(is_letter),
            digits@ == chars@.take(i as int).filter(is_dig),
            forall|c: char| #[trigger] is_letter(c) == is_ascii_letter(c),
            forall|c: char| #[trigger] is_dig(c) == is_digit(c),
            all_letters(letters@),
        decreases chars.len() - i,
    {
        let c: char = chars[i];
        proof {
            reveal(Seq::filter);
            assert(chars@.take(i + 1).drop_last() =~= chars@.take(i as int));
            assert(chars@.take(i + 1).last() == c);
        }
        let code: u32 = c as u32;
        if ascii_letter(c) {
            letters.push(c);
        } else if 0x30 <= code && code <= 0x39 {
            digits.push(c);
        }
        i = i + 1;
    }
    assert(chars@.take(chars.len() as int) =~= cell_ref@);
    assert(letters@ == letters_of(cell_ref@));
    assert(digits@ == digits_of(cell_ref@));
    let row: usize = match parse_numeral_chars(&digits, usize::MAX as u64) {
        Some(row) => row as usize,
        None => {
            return CellPlace::Nowhere;
        },
    };
    if letters.len() == 0 {
        return CellPlace::Nowhere;
    }
    proof {
        lemma_column_number_grows(letters@, 0);
    }
    match checked_column_number(&letters) {
        Some(number) => CellPlace::At(row.saturating_sub(1), number - 1),
        None => CellPlace::TooFar,
    }
}

/// The row and column of a cell reference, from zero; `None` if the text is no
/// cell reference. The number of its column must fit an index.
pub fn excel_cell_ref_to_indices(cell_ref: &str) -> (r: Option<(usize, usize)>)
    requires
        cell_place(cell_ref@) !is TooFar,
    ensures
        match r {
            Some((row, col)) => cell_place(cell_ref@) == CellPlace::At(row, col),
            None => cell_place(cell_ref@) == CellPlace::Nowhere,
        },
{
    match locate_cell(cell_ref) {
        CellPlace::At(row, col) => Some((row, col)),
        _ => None,
    }
}

/// The case of a column's letters does not matter.
pub proof fn law_column_case_is_ignored(s: Seq<char>)
    requires
        all_letters(s),
    ensures
        column_number(s.map_values(|c: char| ascii_lower(c))) == column_number(s),
    decreases s.len(),
{
    let lower = s.map_values(|c: char| ascii_lower(c));
    if s.len() > 0 {
        let t = s.drop_last();
        assert forall|i: int| 0 <= i < t.len() implies is_ascii_letter(#[trigger] t[i]) by {
            assert(t[i] == s[i]);
        }
        law_column_case_is_ignored(t);
        assert(lower.drop_last() =~= t.map_values(|c: char| ascii_lower(c)));
        assert(is_ascii_letter(s[s.len() - 1]));
        assert(lower.last() == ascii_lower(s.last()));
    }
}

pub open spec fn all_upper(s: Seq<char>) -> bool {
    forall|i: int| 0 <= i < s.len() ==> 0x41 <= (#[trigger] s[i]) as u32 <= 0x5a
}

proof fn lemma_upper_rank_injective(c: char, d: char)
    requires
        0x41 <= c as u32 <= 0x5a,
        0x41 <= d as u32 <= 0x5a,
        letter_rank(c) == letter_rank(d),
    ensures
        c == d,
{
}

/// Different columns, in upper-case letters, have different numbers.
pub proof fn law_column_number_injective(s: Seq<char>, t: Seq<char>)
    requires
        all_upper(s),
        all_upper(t),
        column_number(s) == column_number(t),
    ensures
        s == t,
    decreases s.len(),
{
    if s.len() > 0 {
        assert(0x41 <= s[s.len() - 1] as u32 <= 0x5a);
    }
    if t.len() > 0 {
        assert(0x41 <= t[t.len() - 1] as u32 <= 0x5a);
    }
    if s.len() == 0 || t.len() == 0 {
        assert(s =~= t);
    } else {
        assert forall|i: int| 0 <= i < s.drop_last().len() implies 0x41
            <= (#[trigger] s.drop_last()[i]) as u32 <= 0x5a by {
            assert(s.drop_last()[i] == s[i]);
        }
        assert forall|i: int| 0 <= i < t.drop_last().len() implies 0x41
            <= (#[trigger] t.drop_last()[i]) as u32 <= 0x5a by {
            assert(t.drop_last()[i] == t[i]);
        }
        assert(1 <= letter_rank(s.last()) <= 26 && 1 <= letter_rank(t.last()) <= 26);
        assert(column_number(s.drop_last()) == column_number(t.drop_last()));
        law_column_number_injective(s.drop_last(), t.drop_last());
        lemma_upper_rank_injective(s.last(), t.last());
        assert(s =~= s.drop_last().push(s.last()));
        assert(t =~= t.drop_last().push(t.last()));
    }
}

/// The letters of a column are digits to the base twenty-six, in which `A` is one and
/// `Z` twenty-six, in upper and in lower case.
pub proof fn law_column_letters_are_read_to_base_26(s: Seq<char>, c: char)
    ensures
        column_number(Seq::<char>::empty()) == 0,
        'A' as u32 <= c as u32 <= 'Z' as u32 ==> column_number(s.push(c)) == 26 * column_number(s)
            + (c as u32 - 'A' as u32 + 1),
        'a' as u32 <= c as u32 <= 'z' as u32 ==> column_number(s.push(c)) == 26 * column_number(s)
            + (c as u32 - 'a' as u32 + 1),
{
    assert(s.push(c).drop_last() =~= s);
}

/// A text names a column exactly if it has letters and nothing else; the columns are
/// counted from zero, in the order of their numbers.
pub proof fn law_only_letters_name_a_column(s: Seq<char>)
    ensures
        column_index(s) is Some <==> s.len() > 0 && forall|i: int|
            0 <= i < s.len() ==> is_ascii_letter(#[trigger] s[i]),
        column_index(s) matches Some(index) ==> index + 1 == column_number(s),
{
    if s.len() > 0 && all_letters(s) {
        lemma_column_number_grows(s, 0);
    }
}

proof fn lemma_leading_letters_at(s: Seq<char>) -> (k: int)
    ensures
        0 <= k <= s.len(),
        leading_letters(s) == s.take(k),
        forall|i: int| 0 <= i < k ==> is_ascii_letter(#[trigger] s[i]),
        k < s.len() ==> !is_ascii_letter(s[k]),
    decreases s.len(),
{
    if s.len() > 0 && is_ascii_letter(s.first()) {
        let t = s.drop_first();
        let k = lemma_leading_letters_at(t);
        assert(seq![s.first()] + t.take(k) =~= s.take(k + 1));
        assert forall|i: int| 0 <= i < k + 1 implies is_ascii_letter(#[trigger] s[i]) by {
            if i > 0 {
                assert(s[i] == t[i - 1]);
            }
        }
        k + 1
    } else {
        assert(s.take(0) =~= Seq::empty());
        0
    }
}

/// The letters at the start of a text are a start of it, all letters, and reach up to
/// the first character that is none.
pub proof fn law_leading_letters_end_at_the_first_other(s: Seq<char>)
    ensures
        ({
            let n = leading_letters(s).len();
            &&& n <= s.len() && leading_letters(s) == s.take(n as int)
            &&& forall|i: int| 0 <= i < n ==> is_ascii_letter(#[trigger] s[i])
            &&& n < s.len() ==> !is_ascii_letter(s[n as int])
        }),
{
    let k = lemma_leading_letters_at(s);
}

/// The letters and the digits of a cell reference are picked one by one, in their
/// order; every other character is in neither.
pub proof fn law_letters_and_digits_are_picked(s: Seq<char>, c: char)
    ensures
        letters_of(Seq::empty()).len() == 0,
        digits_of(Seq::empty()).len() == 0,
        letters_of(s.push(c)) == (if 'A' as u32 <= c as u32 <= 'Z' as u32 || 'a' as u32 <= c as u32
            <= 'z' as u32 {
            letters_of(s).push(c)
        } else {
            letters_of(s)
        }),
        digits_of(s.push(c)) == (if '0' as u32 <= c as u32 <= '9' as u32 {
            digits_of(s).push(c)
        } else {
            digits_of(s)
        }),
{
    reveal(Seq::filter);
    assert(s.push(c).drop_last() =~= s);
}

/// A cell reference is read from its letters and digits: it leads nowhere without
/// letters or without digits that make up an index, and too far if its column is
/// beyond every index; else it leads to the column of its letters and the row of its
/// digits, which counts from one, and a zero as one.
pub proof fn law_reference_is_read_from_letters_and_digits(s: Seq<char>)
    ensures
        ({
            let row = bounded_numeral(digits_of(s), usize::MAX as nat);
            let number = column_number(letters_of(s));
            &&& cell_place(s) is Nowhere <==> row is None || letters_of(s).len() == 0
            &&& cell_place(s) is TooFar <==> row is Some && letters_of(s).len() > 0 && number
                > usize::MAX
            &&& cell_place(s) matches CellPlace::At(r, c) ==> {
                &&& c + 1 == number
                &&& row == Some(0nat) ==> r == 0
                &&& row != Some(0nat) ==> row == Some((r + 1) as nat)
            }
        }),
{
    let letters = letters_of(s);
    assert(all_letters(letters)) by {
        lemma_letters_are_letters(s);
    }
    if letters.len() > 0 {
        lemma_column_number_grows(letters, 0);
    }
}

proof fn lemma_letters_are_letters(s: Seq<char>)
    ensures
        all_letters(letters_of(s)),
    decreases s.len(),
{
    reveal(Seq::filter);
    if s.len() > 0 {
        let t = s.drop_last();
        lemma_letters_are_letters(t);
        let all = letters_of(s);
        assert forall|i: int| 0 <= i < all.len() implies is_ascii_letter(#[trigger] all[i]) by {
            if i < letters_of(t).len() {
                assert(all[i] == letters_of(t)[i]);
            }
        }
    }
}

proof fn lemma_letters_alone(letters: Seq<char>)
    requires
        all_letters(letters),
    ensures
        letters_of(letters) == letters,
        digits_of(letters) == Seq::<char>::empty(),
    decreases letters.len(),
{
    if letters.len() == 0 {
        law_letters_and_digits_are_picked(letters, 'A');
        assert(letters =~= Seq::empty());
    } else {
        let fewer = letters.drop_last();
        assert forall|i: int| 0 <= i < fewer.len() implies is_ascii_letter(#[trigger] fewer[i]) by {
            assert(fewer[i] == letters[i]);
        }
        lemma_letters_alone(fewer);
        assert(is_ascii_letter(letters[letters.len() - 1]));
        law_letters_and_digits_are_picked(fewer, letters.last());
        assert(letters =~= fewer.push(letters.last()));
    }
}

spec fn all_digits(s: Seq<char>) -> bool {
    forall|i: int| 0 <= i < s.len() ==> is_digit(#[trigger] s[i])
}

proof fn lemma_all_digits_but_last(s: Seq<char>)
    requires
        all_digits(s),
        s.len() > 0,
    ensures
        all_digits(s.drop_last()),
        is_digit(s.last()),
{
    let fewer = s.drop_last();
    assert forall|i: int| 0 <= i < fewer.len() implies is_digit(#[trigger] fewer[i]) by {
        assert(fewer[i] == s[i]);
    }
    assert(is_digit(s[s.len() - 1]));
}

proof fn lemma_digit_picked(s: Seq<char>, c: char)
    requires
        is_digit(c),
    ensures
        letters_of(s.push(c)) == letters_of(s),
        digits_of(s.push(c)) == digits_of(s).push(c),
{
    law_letters_and_digits_are_picked(s, c);
}

proof fn lemma_push_to_sum(a: Seq<char>, b: Seq<char>)
    requires
        b.len() > 0,
    ensures
        a + b == (a + b.drop_last()).push(b.last()),
        b == b.drop_last().push(b.last()),
{
    assert(a + b =~= (a + b.drop_last()).push(b.last()));
    assert(b =~= b.drop_last().push(b.last()));
}

#[verifier::spinoff_prover]
proof fn lemma_letters_then_digits(letters: Seq<char>, digits: Seq<char>)
    requires
        all_letters(letters),
        all_digits(digits),
    ensures
        letters_of(letters + digits) == letters,
        digits_of(letters + digits) == digits,
    decreases digits.len(),
{
    if digits.len() == 0 {
        lemma_letters_alone(letters);
        assert(letters + digits =~= letters);
        assert(digits =~= Seq::empty());
    } else {
        let fewer = digits.drop_last();
        lemma_all_digits_but_last(digits);
        lemma_letters_then_digits(letters, fewer);
        lemma_digit_picked(letters + fewer, digits.last());
        lemma_push_to_sum(letters, digits);
    }
}

proof fn lemma_same_parts(letters: Seq<char>, digits: Seq<char>)
    requires
        all_letters(letters),
        all_digits(digits),
    ensures
        column_index(letters_of(letters + digits)) == column_index(letters),
        bounded_numeral(digits_of(letters + digits), usize::MAX as nat) == bounded_numeral(
            digits,
            usize::MAX as nat,
        ),
{
    lemma_letters_then_digits(letters, digits);
}

proof fn lemma_parts_lead(s: Seq<char>, row: usize, col: usize)
    requires
        column_index(letters_of(s)) == Some(col as nat),
        bounded_numeral(digits_of(s), usize::MAX as nat) == Some((row + 1) as nat),
        col < usize::MAX,
    ensures
        cell_place(s) == CellPlace::At(row, col),
{
}

proof fn lemma_letters_and_digits_lead(
    letters: Seq<char>,
    digits: Seq<char>,
    row: usize,
    col: usize,
)
    requires
        all_letters(letters),
        all_digits(digits),
        column_index(letters) == Some(col as nat),
        bounded_numeral(digits, usize::MAX as nat) == Some((row + 1) as nat),
        col < usize::MAX,
    ensures
        cell_place(letters + digits) == CellPlace::At(row, col),
{
    lemma_same_parts(letters, digits);
    lemma_parts_lead(letters + digits, row, col);
}

proof fn lemma_written_row(row: usize) -> (digits: Seq<char>)
    requires
        row < usize::MAX,
    ensures
        digits == decimal_text((row + 1) as nat),
        all_digits(digits),
        bounded_numeral(digits, usize::MAX as nat) == Some((row + 1) as nat),
{
    law_decimal_text_is_digits((row + 1) as nat);
    law_decimal_round_trip((row + 1) as nat);
    decimal_text((row + 1) as nat)
}

/// A reference that is written as the letters of a column and the number of a row,
/// from one, leads to that row and column.
pub proof fn law_written_reference_is_read_back(letters: Seq<char>, row: usize, col: usize)
    requires
        all_letters(letters),
        letters.len() > 0,
        column_number(letters) == col + 1,
        row < usize::MAX,
        col < usize::MAX,
    ensures
        cell_place(letters + decimal_text((row + 1) as nat)) == CellPlace::At(row, col),
{
    let digits = lemma_written_row(row);
    lemma_letters_and_digits_lead(letters, digits, row, col);
}

} // verus!
