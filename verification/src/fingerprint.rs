//! Fingerprints of rows and sheets.

use crate::cell::{cell_text, cell_to_string, Data, DataView};
use crate::grid::{
    get_grid_row, get_item, get_row, greater, grid_row, grid_view, item_at, longer, row_at,
    row_width, width,
};
use crate::text::{decimal_text, law_decimal_round_trip, u64_text};
use vstd::prelude::*;
use vstd::utf8::{
    encode_scalar, encode_utf8, has_width_1_encoding, last_continuation_byte,
    leading_byte_width_1, leading_byte_width_2, leading_byte_width_3, leading_byte_width_4,
    second_last_continuation_byte, third_last_continuation_byte,
};

verus! {

/// The BLAKE3 digest of `bytes`.
pub uninterp spec fn blake3_digest(bytes: Seq<u8>) -> Seq<u8>;

/// Hashes `bytes` with `blake3::hash`.
///
/// Claimed: the digest depends on the bytes alone and has 32 bytes.
#[verifier::external_body]
fn digest(bytes: &[u8]) -> (r: Vec<u8>)
    ensures
        r@ == blake3_digest(bytes@),
        r@.len() == 32,
{
    blake3::hash(bytes).as_bytes().to_vec()
}

/// The lower-case hexadecimal digit of value `d`.
pub open spec fn hex_digit(d: int) -> char {
    if d < 10 {
        (0x30 + d) as char
    } else {
        (0x61 + d - 10) as char
    }
}

/// Two lower-case hexadecimal digits for each byte.
pub open spec fn hex_text(bytes: Seq<u8>) -> Seq<char>
    decreases bytes.len(),
{
    if bytes.len() == 0 {
        Seq::empty()
    } else {
        hex_text(bytes.drop_last()).push(hex_digit(bytes.last() as int / 16)).push(
            hex_digit(bytes.last() as int % 16),
        )
    }
}

/// Writes `bytes` out with `hex::encode`.
///
/// Claimed: each byte gives its two hexadecimal digits, letters in lower case.
#[verifier::external_body]
fn hex_encode(bytes: &[u8]) -> (r: String)
    ensures
        r@ == hex_text(bytes@),
{
    hex::encode(bytes)
}

/// The text of a digest.
pub fn digest_text(digest: &[u8]) -> (r: String)
    ensures
        r@ == hex_text(digest@),
{
    hex_encode(digest)
}

/// The text of the first eight bytes of a digest.
pub fn short_digest_text(digest: &Vec<u8>) -> (r: String)
    requires
        digest@.len() >= 8,
    ensures
        r@ == hex_text(digest@.take(8)),
{
    assert(digest@.subrange(0, 8) =~= digest@.take(8));
    hex_encode(vstd::slice::slice_subrange(digest.as_slice(), 0, 8))
}

/// The byte that ends each part of what is hashed.
pub const SEPARATOR: u8 = 0x1f;

/// `bytes` with a text and a separator behind it.
pub open spec fn with_part(bytes: Seq<u8>, text: Seq<char>) -> Seq<u8> {
    (bytes + encode_utf8(text)).push(SEPARATOR)
}

fn add_part(bytes: &mut Vec<u8>, text: &str)
    ensures
        final(bytes)@ == with_part(old(bytes)@, text@),
{
    let ghost before = bytes@;
    bytes.extend_from_slice(text.as_bytes());
    assert(bytes@ =~= before + encode_utf8(text@));
    bytes.push(SEPARATOR);
}

/// What is hashed for the fingerprint of a row: the texts of its cells.
pub open spec fn row_bytes(row: Seq<DataView>) -> Seq<u8>
    decreases row.len(),
{
    if row.len() == 0 {
        Seq::empty()
    } else {
        with_part(row_bytes(row.drop_last()), cell_text(row.last()))
    }
}

/// The fingerprint of a row.
pub open spec fn row_fingerprint(row: Seq<DataView>) -> Seq<char> {
    hex_text(blake3_digest(row_bytes(row)).take(8))
}

/// What is hashed for the fingerprint of a row.
pub fn row_digest_input(row: &[Data]) -> (r: Vec<u8>)
    ensures
        r@ == row_bytes(row.deep_view()),
{
    let ghost all = row.deep_view();
    let mut bytes: Vec<u8> = Vec::new();
    let mut i: usize = 0;
    assert(all.take(0) =~= Seq::empty());
    while i < row.len()
        invariant
            i <= row.len(),
            all == row.deep_view(),
            bytes@ == row_bytes(all.take(i as int)),
        decreases row.len() - i,
    {
        proof {
            assert(all.take(i + 1).drop_last() =~= all.take(i as int));
            assert(all.take(i + 1).last() == row@[i as int].deep_view());
        }
        let text = cell_to_string(&row[i]);
        add_part(&mut bytes, text.as_str());
        i = i + 1;
    }
    assert(all.take(all.len() as int) =~= all);
    bytes
}

/// Whether a text is made of lower-case hexadecimal digits.
pub open spec fn is_lower_hex(text: Seq<char>) -> bool {
    forall|i: int|
        0 <= i < text.len() ==> exists|d: int| 0 <= d < 16 && #[trigger] text[i] == hex_digit(d)
}

/// Bytes are written out as lower-case hexadecimal digits, two for each byte.
pub proof fn law_hex_text_is_lower_hex(bytes: Seq<u8>)
    ensures
        hex_text(bytes).len() == 2 * bytes.len(),
        is_lower_hex(hex_text(bytes)),
    decreases bytes.len(),
{
    if bytes.len() > 0 {
        let before = hex_text(bytes.drop_last());
        let text = hex_text(bytes);
        let last = bytes.last();
        law_hex_text_is_lower_hex(bytes.drop_last());
        assert forall|i: int| 0 <= i < text.len() implies exists|d: int|
            0 <= d < 16 && #[trigger] text[i] == hex_digit(d) by {
            if i < before.len() {
                assert(text[i] == before[i]);
            } else if i == before.len() {
                assert(text[i] == hex_digit(last as int / 16));
                assert(0 <= last as int / 16 < 16);
            } else {
                assert(text[i] == hex_digit(last as int % 16));
                assert(0 <= last as int % 16 < 16);
            }
        }
    }
}

/// The fingerprint of a row, sixteen hexadecimal digits.
pub fn row_fingerprint_hex(row: &[Data]) -> (r: String)
    ensures
        r@ == row_fingerprint(row.deep_view()),
        r@.len() == 16,
        is_lower_hex(r@),
{
    let bytes = row_digest_input(row);
    let hash = digest(bytes.as_slice());
    proof {
        law_hex_text_is_lower_hex(hash@.take(8));
    }
    short_digest_text(&hash)
}

/// The contents of a sheet: the values, formulas and style numbers of its cells.
#[derive(Debug)]
pub struct SheetSnapshot {
    pub values: Vec<Vec<Data>>,
    pub formulas: Vec<Vec<String>>,
    pub style_ids: Option<Vec<Vec<Option<u32>>>>,
}

#[verifier::ext_equal]
pub struct SnapshotView {
    pub values: Seq<Seq<DataView>>,
    pub formulas: Seq<Seq<Seq<char>>>,
    pub style_ids: Option<Seq<Seq<Option<u32>>>>,
}

impl DeepView for SheetSnapshot {
    type V = SnapshotView;

    open spec fn deep_view(&self) -> SnapshotView {
        SnapshotView {
            values: self.values.deep_view(),
            formulas: self.formulas.deep_view(),
            style_ids: self.style_ids.deep_view(),
        }
    }
}

/// The text of a style number.
pub open spec fn style_text(id: Option<u32>) -> Seq<char> {
    match id {
        Some(n) => decimal_text(n as nat),
        None => Seq::empty(),
    }
}

/// What is hashed for the first `n` columns of a row: value, formula and style
/// number of each.
pub open spec fn signature_bytes(
    values: Option<Seq<DataView>>,
    formulas: Option<Seq<Seq<char>>>,
    styles: Option<Seq<Option<u32>>>,
    n: nat,
) -> Seq<u8>
    decreases n,
{
    if n == 0 {
        Seq::empty()
    } else {
        let before = signature_bytes(values, formulas, styles, (n - 1) as nat);
        with_part(
            with_part(
                with_part(before, cell_text(item_at(values, n - 1, DataView::Empty))),
                item_at(formulas, n - 1, Seq::empty()),
            ),
            style_text(item_at(styles, n - 1, None)),
        )
    }
}

/// What is hashed for the signature of the row with the index `i`.
pub open spec fn row_signature_bytes(
    values: Seq<Seq<DataView>>,
    formulas: Seq<Seq<Seq<char>>>,
    styles: Option<Seq<Seq<Option<u32>>>>,
    i: int,
) -> Seq<u8> {
    let value_row = row_at(values, i);
    let formula_row = row_at(formulas, i);
    let style_row = grid_row(styles, i);
    signature_bytes(
        value_row,
        formula_row,
        style_row,
        longer(longer(width(value_row), width(formula_row)), width(style_row)),
    )
}

/// The signature of the row with the index `i`.
pub open spec fn row_signature(
    values: Seq<Seq<DataView>>,
    formulas: Seq<Seq<Seq<char>>>,
    styles: Option<Seq<Seq<Option<u32>>>>,
    i: int,
) -> Seq<char> {
    hex_text(blake3_digest(row_signature_bytes(values, formulas, styles, i)))
}

/// What is hashed for the signature of the row with the index `row_idx`.
pub fn row_signature_input(
    row_idx: usize,
    values: &[Vec<Data>],
    formulas: &[Vec<String>],
    styles: Option<&[Vec<Option<u32>>]>,
) -> (r: Vec<u8>)
    ensures
        r@ == row_signature_bytes(
            values.deep_view(),
            formulas.deep_view(),
            grid_view(styles),
            row_idx as int,
        ),
{
    let value_row = get_row(values, row_idx);
    let formula_row = get_row(formulas, row_idx);
    let style_row = get_grid_row(styles, row_idx);
    let ghost v = value_row.deep_view();
    let ghost f = formula_row.deep_view();
    let ghost s = style_row.deep_view();
    let max_cols: usize = greater(
        greater(row_width(value_row), row_width(formula_row)),
        row_width(style_row),
    );
    let mut bytes: Vec<u8> = Vec::new();
    let mut c: usize = 0;
    while c < max_cols
        invariant
            c <= max_cols,
            v == value_row.deep_view(),
            f == formula_row.deep_view(),
            s == style_row.deep_view(),
            bytes@ == signature_bytes(v, f, s, c as nat),
        decreases max_cols - c,
    {
        let value = match get_item(value_row, c) {
            Some(cell) => cell_to_string(cell),
            None => cell_to_string(&Data::Empty),
        };
        assert(value@ == cell_text(item_at(v, c as int, DataView::Empty)));
        add_part(&mut bytes, value.as_str());
        let formula = match get_item(formula_row, c) {
            Some(text) => text.clone(),
            None => String::new(),
        };
        proof {
            reveal_strlit("");
            assert(formula@ =~= item_at(f, c as int, Seq::empty()));
        }
        add_part(&mut bytes, formula.as_str());
        let style = match get_item(style_row, c) {
            Some(Some(id)) => u64_text(*id as u64),
            _ => String::new(),
        };
        assert(style@ =~= style_text(item_at(s, c as int, None)));
        add_part(&mut bytes, style.as_str());
        c = c + 1;
    }
    bytes
}

/// The signature of the row with the index `row_idx`, sixty-four hexadecimal digits.
pub fn combine_row_signatures(
    row_idx: usize,
    values: &[Vec<Data>],
    formulas: &[Vec<String>],
    styles: Option<&[Vec<Option<u32>>]>,
) -> (r: String)
    ensures
        r@ == row_signature(
            values.deep_view(),
            formulas.deep_view(),
            grid_view(styles),
            row_idx as int,
        ),
        r@.len() == 64,
        is_lower_hex(r@),
{
    let bytes = row_signature_input(row_idx, values, formulas, styles);
    let hash = digest(bytes.as_slice());
    proof {
        law_hex_text_is_lower_hex(hash@);
    }
    digest_text(hash.as_slice())
}

/// The number of rows of a sheet that hold anything.
pub open spec fn row_count(snapshot: SnapshotView) -> nat {
    longer(
        longer(snapshot.values.len(), snapshot.formulas.len()),
        match snapshot.style_ids {
            Some(rows) => rows.len(),
            None => 0,
        },
    )
}

/// What is hashed for the first `n` rows of a sheet: their signatures.
pub open spec fn sheet_bytes(snapshot: SnapshotView, n: nat) -> Seq<u8>
    decreases n,
{
    if n == 0 {
        Seq::empty()
    } else {
        with_part(
            sheet_bytes(snapshot, (n - 1) as nat),
            row_signature(snapshot.values, snapshot.formulas, snapshot.style_ids, n - 1),
        )
    }
}

/// The signature of a sheet.
pub open spec fn snapshot_signature(snapshot: SnapshotView) -> Seq<char> {
    hex_text(blake3_digest(sheet_bytes(snapshot, row_count(snapshot))))
}

/// The signature of a sheet's contents, sixty-four hexadecimal digits.
pub fn sheet_signature(snapshot: &SheetSnapshot) -> (r: String)
    ensures
        r@ == snapshot_signature(snapshot.deep_view()),
        r@.len() == 64,
        is_lower_hex(r@),
{
    let ghost view = snapshot.deep_view();
    let styles: Option<&[Vec<Option<u32>>]> = match &snapshot.style_ids {
        Some(rows) => Some(rows.as_slice()),
        None => None,
    };
    let style_count: usize = match styles {
        Some(rows) => rows.len(),
        None => 0,
    };
    let rows: usize = greater(greater(snapshot.values.len(), snapshot.formulas.len()), style_count);
    let mut bytes: Vec<u8> = Vec::new();
    let mut i: usize = 0;
    while i < rows
        invariant
            i <= rows,
            view == snapshot.deep_view(),
            grid_view(styles) == view.style_ids,
            bytes@ == sheet_bytes(view, i as nat),
        decreases rows - i,
    {
        let signature = combine_row_signatures(
            i,
            snapshot.values.as_slice(),
            snapshot.formulas.as_slice(),
            styles,
        );
        add_part(&mut bytes, signature.as_str());
        i = i + 1;
    }
    let hash = digest(bytes.as_slice());
    proof {
        law_hex_text_is_lower_hex(hash@);
    }
    digest_text(hash.as_slice())
}

/// The fingerprint of a row depends on the texts of its cells alone.
pub proof fn law_same_texts_same_fingerprint(a: Seq<DataView>, b: Seq<DataView>)
    requires
        a.len() == b.len(),
        forall|i: int| 0 <= i < a.len() ==> cell_text(#[trigger] a[i]) == cell_text(b[i]),
    ensures
        row_bytes(a) == row_bytes(b),
        row_fingerprint(a) == row_fingerprint(b),
    decreases a.len(),
{
    if a.len() > 0 {
        let x = a.drop_last();
        let y = b.drop_last();
        assert forall|i: int| 0 <= i < x.len() implies cell_text(#[trigger] x[i]) == cell_text(
            y[i],
        ) by {
            assert(x[i] == a[i] && y[i] == b[i]);
        }
        law_same_texts_same_fingerprint(x, y);
        assert(cell_text(a[a.len() - 1]) == cell_text(b[b.len() - 1]));
    }
}

/// The number of columns of a sheet's row that hold anything.
pub open spec fn signed_columns(snapshot: SnapshotView, row: int) -> nat {
    longer(
        longer(width(row_at(snapshot.values, row)), width(row_at(snapshot.formulas, row))),
        width(grid_row(snapshot.style_ids, row)),
    )
}

/// What the signature of a row takes from a column: the text of the value, the
/// formula and the style number. What a grid lacks is empty.
pub open spec fn signed_column(snapshot: SnapshotView, row: int, col: int) -> (
    Seq<char>,
    Seq<char>,
    Option<u32>,
) {
    (
        cell_text(item_at(row_at(snapshot.values, row), col, DataView::Empty)),
        item_at(row_at(snapshot.formulas, row), col, Seq::empty()),
        item_at(grid_row(snapshot.style_ids, row), col, None),
    )
}

proof fn lemma_same_columns(
    x: SnapshotView,
    i: int,
    y: SnapshotView,
    j: int,
    n: nat,
)
    requires
        forall|c: int|
            0 <= c < n ==> #[trigger] signed_column(x, i, c) == signed_column(y, j, c),
    ensures
        signature_bytes(
            row_at(x.values, i),
            row_at(x.formulas, i),
            grid_row(x.style_ids, i),
            n,
        ) == signature_bytes(
            row_at(y.values, j),
            row_at(y.formulas, j),
            grid_row(y.style_ids, j),
            n,
        ),
    decreases n,
{
    if n > 0 {
        lemma_same_columns(x, i, y, j, (n - 1) as nat);
        assert(signed_column(x, i, n - 1) == signed_column(y, j, n - 1));
    }
}

/// The signature of a row depends on its columns alone: on the text of the value,
/// the formula and the style number of each. It depends neither on the index of the
/// row nor on whether what is missing is an empty cell or none.
pub proof fn law_same_columns_same_signature(x: SnapshotView, i: int, y: SnapshotView, j: int)
    requires
        signed_columns(x, i) == signed_columns(y, j),
        forall|c: int|
            0 <= c < signed_columns(x, i) ==> #[trigger] signed_column(x, i, c) == signed_column(
                y,
                j,
                c,
            ),
    ensures
        row_signature(x.values, x.formulas, x.style_ids, i) == row_signature(
            y.values,
            y.formulas,
            y.style_ids,
            j,
        ),
{
    lemma_same_columns(x, i, y, j, signed_columns(x, i));
}

proof fn lemma_same_rows(x: SnapshotView, y: SnapshotView, n: nat)
    requires
        forall|i: int|
            0 <= i < n ==> #[trigger] row_signature(x.values, x.formulas, x.style_ids, i)
                == row_signature(y.values, y.formulas, y.style_ids, i),
    ensures
        sheet_bytes(x, n) == sheet_bytes(y, n),
    decreases n,
{
    if n > 0 {
        lemma_same_rows(x, y, (n - 1) as nat);
        assert(row_signature(x.values, x.formulas, x.style_ids, n - 1) == row_signature(
            y.values,
            y.formulas,
            y.style_ids,
            n - 1,
        ));
    }
}

/// The signature of a sheet depends on the signatures of its rows, in order, alone.
/// Rows count as far as values, formulas or style numbers go.
pub proof fn law_same_rows_same_signature(x: SnapshotView, y: SnapshotView)
    requires
        row_count(x) == row_count(y),
        forall|i: int|
            0 <= i < row_count(x) ==> #[trigger] row_signature(
                x.values,
                x.formulas,
                x.style_ids,
                i,
            ) == row_signature(y.values, y.formulas, y.style_ids, i),
    ensures
        snapshot_signature(x) == snapshot_signature(y),
{
    lemma_same_rows(x, y, row_count(x));
}

/// The parts of what is hashed, each with a separator behind it.
spec fn parts_bytes(texts: Seq<Seq<char>>) -> Seq<u8>
    decreases texts.len(),
{
    if texts.len() == 0 {
        Seq::empty()
    } else {
        with_part(parts_bytes(texts.drop_last()), texts.last())
    }
}

/// Whether none of the texts holds the separator.
spec fn separator_free(texts: Seq<Seq<char>>) -> bool {
    forall|i: int| 0 <= i < texts.len() ==> !(#[trigger] texts[i]).contains(SEPARATOR as char)
}

proof fn lemma_encoded_char_is_no_separator(c: char)
    requires
        c != SEPARATOR as char,
    ensures
        forall|i: int|
            0 <= i < encode_scalar(c as u32).len() ==> #[trigger] encode_scalar(c as u32)[i]
                != SEPARATOR,
{
    let s = c as u32;
    vstd::utf8::char_is_scalar(c);
    assert(s != 0x1f);
    assert(s <= 0x7f && s != 0x1f ==> s as u8 != 0x1f) by (bit_vector);
    assert(has_width_1_encoding(s) && s != 0x1f ==> leading_byte_width_1(s) != 0x1f)
        by (bit_vector);
    assert(leading_byte_width_2(s) != 0x1f) by (bit_vector);
    assert(leading_byte_width_3(s) != 0x1f) by (bit_vector);
    assert(leading_byte_width_4(s) != 0x1f) by (bit_vector);
    assert(last_continuation_byte(s) != 0x1f) by (bit_vector);
    assert(second_last_continuation_byte(s) != 0x1f) by (bit_vector);
    assert(third_last_continuation_byte(s) != 0x1f) by (bit_vector);
}

proof fn lemma_encoded_text_has_no_separator(text: Seq<char>)
    requires
        !text.contains(SEPARATOR as char),
    ensures
        forall|i: int|
            0 <= i < encode_utf8(text).len() ==> #[trigger] encode_utf8(text)[i] != SEPARATOR,
    decreases text.len(),
{
    if text.len() > 0 {
        let rest = text.drop_first();
        assert(text.contains(text[0]));
        assert(!rest.contains(SEPARATOR as char)) by {
            if rest.contains(SEPARATOR as char) {
                let k = choose|k: int| 0 <= k < rest.len() && rest[k] == SEPARATOR as char;
                assert(text[k + 1] == SEPARATOR as char);
            }
        }
        lemma_encoded_char_is_no_separator(text[0]);
        lemma_encoded_text_has_no_separator(rest);
        let head = encode_scalar(text[0] as u32);
        let bytes = encode_utf8(text);
        assert(bytes =~= head + encode_utf8(rest));
        assert forall|i: int| 0 <= i < bytes.len() implies #[trigger] bytes[i] != SEPARATOR by {
            if i < head.len() {
                assert(bytes[i] == head[i]);
            } else {
                assert(bytes[i] == encode_utf8(rest)[i - head.len()]);
            }
        }
    }
}

proof fn lemma_parts_end_with_separator(texts: Seq<Seq<char>>)
    ensures
        parts_bytes(texts).len() > 0 <==> texts.len() > 0,
        texts.len() > 0 ==> parts_bytes(texts).last() == SEPARATOR,
{
}

proof fn lemma_last_part_is_no_shorter(s: Seq<Seq<char>>, t: Seq<Seq<char>>)
    requires
        s.len() > 0,
        t.len() > 0,
        !s.last().contains(SEPARATOR as char),
        parts_bytes(s) == parts_bytes(t),
    ensures
        parts_bytes(s.drop_last()).len() >= parts_bytes(t.drop_last()).len(),
{
    let bytes = parts_bytes(s);
    let head = parts_bytes(s.drop_last());
    let other = parts_bytes(t.drop_last());
    let part = encode_utf8(s.last());
    lemma_encoded_text_has_no_separator(s.last());
    lemma_parts_end_with_separator(t.drop_last());
    if head.len() < other.len() {
        let k = other.len() - 1;
        assert(bytes == (other + encode_utf8(t.last())).push(SEPARATOR));
        let body = head + part;
        assert(bytes == body.push(SEPARATOR));
        assert(bytes[k] == other[k]);
        assert(bytes.len() == body.len() + 1);
        assert(bytes.len() >= other.len() + 1);
        assert(bytes[k] == body[k]);
        assert(body[k] == part[k - head.len()]);
        assert(part[k - head.len()] != SEPARATOR);
    }
}

proof fn lemma_parts_are_told_apart(s: Seq<Seq<char>>, t: Seq<Seq<char>>)
    requires
        separator_free(s),
        separator_free(t),
        parts_bytes(s) == parts_bytes(t),
    ensures
        s == t,
    decreases s.len(),
{
    lemma_parts_end_with_separator(s);
    lemma_parts_end_with_separator(t);
    if s.len() == 0 {
        assert(s =~= t);
    } else {
        assert(!s[s.len() - 1].contains(SEPARATOR as char));
        assert(!t[t.len() - 1].contains(SEPARATOR as char));
        lemma_last_part_is_no_shorter(s, t);
        lemma_last_part_is_no_shorter(t, s);
        let a = s.drop_last();
        let b = t.drop_last();
        let n = parts_bytes(a).len() as int;
        let bytes = parts_bytes(s);
        assert(parts_bytes(a) =~= bytes.take(n));
        assert(parts_bytes(b) =~= bytes.take(n));
        assert(encode_utf8(s.last()) =~= bytes.subrange(n, bytes.len() - 1));
        assert(encode_utf8(t.last()) =~= bytes.subrange(n, bytes.len() - 1));
        vstd::utf8::encode_utf8_decode_utf8(s.last());
        vstd::utf8::encode_utf8_decode_utf8(t.last());
        assert(separator_free(a)) by {
            assert forall|i: int| 0 <= i < a.len() implies !(#[trigger] a[i]).contains(
                SEPARATOR as char,
            ) by {
                assert(a[i] == s[i]);
            }
        }
        assert(separator_free(b)) by {
            assert forall|i: int| 0 <= i < b.len() implies !(#[trigger] b[i]).contains(
                SEPARATOR as char,
            ) by {
                assert(b[i] == t[i]);
            }
        }
        lemma_parts_are_told_apart(a, b);
        assert(s =~= a.push(s.last()));
        assert(t =~= b.push(t.last()));
    }
}

spec fn cell_texts(row: Seq<DataView>) -> Seq<Seq<char>> {
    row.map_values(|cell: DataView| cell_text(cell))
}

proof fn lemma_row_bytes_are_parts(row: Seq<DataView>)
    ensures
        row_bytes(row) == parts_bytes(cell_texts(row)),
    decreases row.len(),
{
    if row.len() > 0 {
        lemma_row_bytes_are_parts(row.drop_last());
        assert(cell_texts(row).drop_last() =~= cell_texts(row.drop_last()));
    }
}

/// What is hashed for a row tells rows apart, however many columns they have: rows
/// for which the same bytes are hashed have the same number of cells and the same
/// text in each, as far as no cell holds the separator.
pub proof fn law_hashed_rows_are_told_apart(a: Seq<DataView>, b: Seq<DataView>)
    requires
        forall|i: int|
            0 <= i < a.len() ==> !cell_text(#[trigger] a[i]).contains(SEPARATOR as char),
        forall|i: int|
            0 <= i < b.len() ==> !cell_text(#[trigger] b[i]).contains(SEPARATOR as char),
        row_bytes(a) == row_bytes(b),
    ensures
        a.len() == b.len(),
        forall|i: int| 0 <= i < a.len() ==> cell_text(#[trigger] a[i]) == cell_text(b[i]),
{
    let s = cell_texts(a);
    let t = cell_texts(b);
    lemma_row_bytes_are_parts(a);
    lemma_row_bytes_are_parts(b);
    lemma_parts_are_told_apart(s, t);
    assert(s.len() == a.len() && t.len() == b.len());
    assert forall|i: int| 0 <= i < a.len() implies cell_text(#[trigger] a[i]) == cell_text(b[i]) by {
        assert(s[i] == cell_text(a[i]) && t[i] == cell_text(b[i]));
    }
}

proof fn lemma_hex_digits_differ(c: int, d: int)
    requires
        0 <= c < 16,
        0 <= d < 16,
        hex_digit(c) == hex_digit(d),
    ensures
        c == d,
{
}

/// Different bytes are written out as different texts.
pub proof fn law_hex_text_is_injective(x: Seq<u8>, y: Seq<u8>)
    ensures
        hex_text(x) == hex_text(y) <==> x == y,
    decreases x.len(),
{
    if hex_text(x) == hex_text(y) {
        law_hex_text_is_lower_hex(x);
        law_hex_text_is_lower_hex(y);
        assert(x.len() == y.len());
        if x.len() > 0 {
            let n = hex_text(x).len();
            assert(hex_text(x).take(n - 2) =~= hex_text(x.drop_last()));
            assert(hex_text(y).take(n - 2) =~= hex_text(y.drop_last()));
            law_hex_text_is_injective(x.drop_last(), y.drop_last());
            assert(hex_text(x)[n - 2] == hex_digit(x.last() as int / 16));
            assert(hex_text(y)[n - 2] == hex_digit(y.last() as int / 16));
            assert(hex_text(x)[n - 1] == hex_digit(x.last() as int % 16));
            assert(hex_text(y)[n - 1] == hex_digit(y.last() as int % 16));
            lemma_hex_digits_differ(x.last() as int / 16, y.last() as int / 16);
            lemma_hex_digits_differ(x.last() as int % 16, y.last() as int % 16);
            assert(x =~= x.drop_last().push(x.last()));
            assert(y =~= y.drop_last().push(y.last()));
        } else {
            assert(x =~= y);
        }
    }
}

/// Two rows have the same fingerprint exactly if the first eight bytes of the digests
/// of what is hashed for them agree; they have the same signature, as two sheets
/// have, exactly if all bytes of the digests agree.
pub proof fn law_fingerprints_agree_as_digests_do(
    a: Seq<DataView>,
    b: Seq<DataView>,
    x: SnapshotView,
    i: int,
    y: SnapshotView,
    j: int,
)
    ensures
        row_fingerprint(a) == row_fingerprint(b) <==> blake3_digest(row_bytes(a)).take(8)
            == blake3_digest(row_bytes(b)).take(8),
        row_signature(x.values, x.formulas, x.style_ids, i) == row_signature(
            y.values,
            y.formulas,
            y.style_ids,
            j,
        ) <==> blake3_digest(row_signature_bytes(x.values, x.formulas, x.style_ids, i))
            == blake3_digest(row_signature_bytes(y.values, y.formulas, y.style_ids, j)),
        snapshot_signature(x) == snapshot_signature(y) <==> blake3_digest(
            sheet_bytes(x, row_count(x)),
        ) == blake3_digest(sheet_bytes(y, row_count(y))),
{
    law_hex_text_is_injective(
        blake3_digest(row_bytes(a)).take(8),
        blake3_digest(row_bytes(b)).take(8),
    );
    law_hex_text_is_injective(
        blake3_digest(row_signature_bytes(x.values, x.formulas, x.style_ids, i)),
        blake3_digest(row_signature_bytes(y.values, y.formulas, y.style_ids, j)),
    );
    law_hex_text_is_injective(
        blake3_digest(sheet_bytes(x, row_count(x))),
        blake3_digest(sheet_bytes(y, row_count(y))),
    );
}

/// The texts that the signature of a row takes from its first `n` columns.
spec fn column_texts(snapshot: SnapshotView, row: int, n: nat) -> Seq<Seq<char>>
    decreases n,
{
    if n == 0 {
        Seq::empty()
    } else {
        let (value, formula, style) = signed_column(snapshot, row, n - 1);
        column_texts(snapshot, row, (n - 1) as nat).push(value).push(formula).push(
            style_text(style),
        )
    }
}

proof fn lemma_signature_bytes_are_parts(snapshot: SnapshotView, row: int, n: nat)
    ensures
        signature_bytes(
            row_at(snapshot.values, row),
            row_at(snapshot.formulas, row),
            grid_row(snapshot.style_ids, row),
            n,
        ) == parts_bytes(column_texts(snapshot, row, n)),
    decreases n,
{
    if n > 0 {
        lemma_signature_bytes_are_parts(snapshot, row, (n - 1) as nat);
        let before = column_texts(snapshot, row, (n - 1) as nat);
        let (value, formula, style) = signed_column(snapshot, row, n - 1);
        let with_value = before.push(value);
        let with_formula = with_value.push(formula);
        let all = with_formula.push(style_text(style));
        assert(with_value.drop_last() =~= before);
        assert(with_formula.drop_last() =~= with_value);
        assert(all.drop_last() =~= with_formula);
        assert(parts_bytes(with_value) == with_part(parts_bytes(before), value));
        assert(parts_bytes(with_formula) == with_part(parts_bytes(with_value), formula));
        assert(parts_bytes(all) == with_part(parts_bytes(with_formula), style_text(style)));
    }
}

proof fn lemma_column_texts(snapshot: SnapshotView, row: int, n: nat)
    ensures
        column_texts(snapshot, row, n).len() == 3 * n,
        forall|c: int|
            0 <= c < n ==> {
                let (value, formula, style) = #[trigger] signed_column(snapshot, row, c);
                &&& column_texts(snapshot, row, n)[3 * c] == value
                &&& column_texts(snapshot, row, n)[3 * c + 1] == formula
                &&& column_texts(snapshot, row, n)[3 * c + 2] == style_text(style)
            },
    decreases n,
{
    if n > 0 {
        lemma_column_texts(snapshot, row, (n - 1) as nat);
    }
}

proof fn lemma_style_text_has_no_separator(id: Option<u32>)
    ensures
        !style_text(id).contains(SEPARATOR as char),
{
    if let Some(n) = id {
        lemma_decimal_has_no_separator(n as nat);
    }
}

proof fn lemma_decimal_has_no_separator(n: nat)
    ensures
        !decimal_text(n).contains(SEPARATOR as char),
    decreases n,
{
    if n >= 10 {
        lemma_decimal_has_no_separator(n / 10);
        let text = decimal_text(n);
        if text.contains(SEPARATOR as char) {
            let k = choose|k: int| 0 <= k < text.len() && text[k] == SEPARATOR as char;
            if k < text.len() - 1 {
                assert(decimal_text(n / 10)[k] == SEPARATOR as char);
            }
        }
    }
}

proof fn lemma_style_text_is_injective(x: Option<u32>, y: Option<u32>)
    requires
        style_text(x) == style_text(y),
    ensures
        x == y,
{
    if let Some(m) = x {
        law_decimal_round_trip(m as nat);
    }
    if let Some(n) = y {
        law_decimal_round_trip(n as nat);
    }
}

proof fn lemma_column_texts_are_separator_free(snapshot: SnapshotView, row: int, n: nat)
    requires
        forall|c: int|
            0 <= c < n ==> {
                let (value, formula, style) = #[trigger] signed_column(snapshot, row, c);
                !value.contains(SEPARATOR as char) && !formula.contains(SEPARATOR as char)
            },
    ensures
        separator_free(column_texts(snapshot, row, n)),
    decreases n,
{
    if n > 0 {
        lemma_column_texts_are_separator_free(snapshot, row, (n - 1) as nat);
        let before = column_texts(snapshot, row, (n - 1) as nat);
        let all = column_texts(snapshot, row, n);
        let (value, formula, style) = signed_column(snapshot, row, n - 1);
        lemma_style_text_has_no_separator(style);
        assert forall|i: int| 0 <= i < all.len() implies !(#[trigger] all[i]).contains(
            SEPARATOR as char,
        ) by {
            if i < before.len() {
                assert(all[i] == before[i]);
            }
        }
    }
}

/// What is hashed for the signature of a row tells rows apart, however many columns
/// they have: rows for which the same bytes are hashed have the same number of
/// columns and, in each, the same text of the value, the same formula and the same
/// style number, as far as no value and no formula holds the separator.
pub proof fn law_signed_rows_are_told_apart(x: SnapshotView, i: int, y: SnapshotView, j: int)
    requires
        forall|c: int|
            0 <= c < signed_columns(x, i) ==> {
                let (value, formula, style) = #[trigger] signed_column(x, i, c);
                !value.contains(SEPARATOR as char) && !formula.contains(SEPARATOR as char)
            },
        forall|c: int|
            0 <= c < signed_columns(y, j) ==> {
                let (value, formula, style) = #[trigger] signed_column(y, j, c);
                !value.contains(SEPARATOR as char) && !formula.contains(SEPARATOR as char)
            },
        row_signature_bytes(x.values, x.formulas, x.style_ids, i) == row_signature_bytes(
            y.values,
            y.formulas,
            y.style_ids,
            j,
        ),
    ensures
        signed_columns(x, i) == signed_columns(y, j),
        forall|c: int|
            0 <= c < signed_columns(x, i) ==> #[trigger] signed_column(x, i, c) == signed_column(
                y,
                j,
                c,
            ),
{
    let n = signed_columns(x, i);
    let m = signed_columns(y, j);
    lemma_signature_bytes_are_parts(x, i, n);
    lemma_signature_bytes_are_parts(y, j, m);
    lemma_column_texts_are_separator_free(x, i, n);
    lemma_column_texts_are_separator_free(y, j, m);
    lemma_parts_are_told_apart(column_texts(x, i, n), column_texts(y, j, m));
    lemma_column_texts(x, i, n);
    lemma_column_texts(y, j, m);
    assert forall|c: int| 0 <= c < n implies #[trigger] signed_column(x, i, c) == signed_column(
        y,
        j,
        c,
    ) by {
        lemma_style_text_is_injective(signed_column(x, i, c).2, signed_column(y, j, c).2);
    }
}

/// The columns of a row that its signature takes in reach as far as its values,
/// formulas and style numbers do, and what it takes from a column is what the grids
/// hold there.
pub proof fn law_signature_takes_in_every_cell(x: SnapshotView, r: int, c: int)
    ensures
        0 <= r < x.values.len() && 0 <= c < x.values[r].len() ==> c < signed_columns(x, r)
            && signed_column(x, r, c).0 == cell_text(x.values[r][c]),
        0 <= r < x.formulas.len() && 0 <= c < x.formulas[r].len() ==> c < signed_columns(x, r)
            && signed_column(x, r, c).1 == x.formulas[r][c],
        x.style_ids matches Some(ids) ==> (0 <= r < ids.len() && 0 <= c < ids[r].len() ==> c
            < signed_columns(x, r) && signed_column(x, r, c).2 == ids[r][c]),
        !(0 <= r < x.values.len() && 0 <= c < x.values[r].len()) ==> signed_column(x, r, c).0.len()
            == 0,
        !(0 <= r < x.formulas.len() && 0 <= c < x.formulas[r].len()) ==> signed_column(
            x,
            r,
            c,
        ).1.len() == 0,
        x.style_ids is None ==> signed_column(x, r, c).2 is None,
{
}

/// The rows that the signature of a sheet takes in reach as far as its values,
/// formulas and style numbers do, and no further.
pub proof fn law_signature_takes_in_every_row(x: SnapshotView)
    ensures
        x.values.len() <= row_count(x),
        x.formulas.len() <= row_count(x),
        x.style_ids matches Some(ids) ==> ids.len() <= row_count(x),
        row_count(x) == x.values.len() || row_count(x) == x.formulas.len() || (x.style_ids is Some
            && row_count(x) == x.style_ids->0.len()),
{
}

spec fn row_signatures(snapshot: SnapshotView, n: nat) -> Seq<Seq<char>> {
    Seq::new(
        n,
        |i: int| row_signature(snapshot.values, snapshot.formulas, snapshot.style_ids, i),
    )
}

proof fn lemma_sheet_bytes_are_parts(snapshot: SnapshotView, n: nat)
    ensures
        sheet_bytes(snapshot, n) == parts_bytes(row_signatures(snapshot, n)),
    decreases n,
{
    if n > 0 {
        lemma_sheet_bytes_are_parts(snapshot, (n - 1) as nat);
        assert(row_signatures(snapshot, n).drop_last() =~= row_signatures(
            snapshot,
            (n - 1) as nat,
        ));
    }
}

proof fn lemma_signatures_have_no_separator(snapshot: SnapshotView, n: nat)
    ensures
        separator_free(row_signatures(snapshot, n)),
{
    let all = row_signatures(snapshot, n);
    assert forall|i: int| 0 <= i < all.len() implies !(#[trigger] all[i]).contains(
        SEPARATOR as char,
    ) by {
        law_hex_text_is_lower_hex(
            blake3_digest(
                row_signature_bytes(
                    snapshot.values,
                    snapshot.formulas,
                    snapshot.style_ids,
                    i,
                ),
            ),
        );
        let text = all[i];
        if text.contains(SEPARATOR as char) {
            let k = choose|k: int| 0 <= k < text.len() && text[k] == SEPARATOR as char;
            let d = choose|d: int| 0 <= d < 16 && text[k] == hex_digit(d);
            assert(hex_digit(d) != SEPARATOR as char);
        }
    }
}

/// What is hashed for a sheet tells sheets apart, however many rows they have: sheets
/// for which the same bytes are hashed have the same number of rows, and the same
/// signature of each.
pub proof fn law_hashed_sheets_are_told_apart(x: SnapshotView, y: SnapshotView)
    requires
        sheet_bytes(x, row_count(x)) == sheet_bytes(y, row_count(y)),
    ensures
        row_count(x) == row_count(y),
        forall|i: int|
            0 <= i < row_count(x) ==> #[trigger] row_signature(
                x.values,
                x.formulas,
                x.style_ids,
                i,
            ) == row_signature(y.values, y.formulas, y.style_ids, i),
{
    let s = row_signatures(x, row_count(x));
    let t = row_signatures(y, row_count(y));
    lemma_sheet_bytes_are_parts(x, row_count(x));
    lemma_sheet_bytes_are_parts(y, row_count(y));
    lemma_signatures_have_no_separator(x, row_count(x));
    lemma_signatures_have_no_separator(y, row_count(y));
    lemma_parts_are_told_apart(s, t);
    assert(s.len() == row_count(x) && t.len() == row_count(y));
    assert forall|i: int| 0 <= i < row_count(x) implies #[trigger] row_signature(
        x.values,
        x.formulas,
        x.style_ids,
        i,
    ) == row_signature(y.values, y.formulas, y.style_ids, i) by {
        assert(s[i] == t[i]);
    }
}

/// The view of a sheet's contents holds each of its grids.
pub proof fn law_snapshot_view_keeps_every_grid(snapshot: SheetSnapshot)
    ensures
        snapshot.deep_view().values == snapshot.values.deep_view(),
        snapshot.deep_view().formulas == snapshot.formulas.deep_view(),
        snapshot.deep_view().style_ids == snapshot.style_ids.deep_view(),
{
}

/// A row is hashed cell by cell: a further cell adds the UTF-8 form of its text and the
/// byte of the unit separator.
pub proof fn law_row_is_hashed_cell_by_cell(row: Seq<DataView>, cell: DataView)
    ensures
        row_bytes(Seq::<DataView>::empty()).len() == 0,
        row_bytes(row.push(cell)) == row_bytes(row) + encode_utf8(cell_text(cell)) + seq![0x1fu8],
{
    assert(row.push(cell).drop_last() =~= row);
    assert(row_bytes(row.push(cell)) =~= row_bytes(row) + encode_utf8(cell_text(cell))
        + seq![0x1fu8]);
}

/// The signature of a row takes in its columns one by one: of each the value, then the
/// formula, then the style number in decimal, in UTF-8 and each with the byte of the
/// unit separator behind it. What a grid lacks is taken as empty.
pub proof fn law_signed_row_is_hashed_column_by_column(
    values: Option<Seq<DataView>>,
    formulas: Option<Seq<Seq<char>>>,
    styles: Option<Seq<Option<u32>>>,
    c: nat,
)
    ensures
        signature_bytes(values, formulas, styles, 0).len() == 0,
        ({
            let value = match values {
                Some(row) if c < row.len() => cell_text(row[c as int]),
                _ => Seq::empty(),
            };
            let formula = match formulas {
                Some(row) if c < row.len() => row[c as int],
                _ => Seq::empty(),
            };
            let style = match styles {
                Some(row) if c < row.len() && row[c as int] is Some => decimal_text(
                    row[c as int]->0 as nat,
                ),
                _ => Seq::empty(),
            };
            signature_bytes(values, formulas, styles, c + 1) == signature_bytes(
                values,
                formulas,
                styles,
                c,
            ) + encode_utf8(value) + seq![0x1fu8] + encode_utf8(formula) + seq![0x1fu8]
                + encode_utf8(style) + seq![0x1fu8]
        }),
{
    let value = cell_text(item_at(values, c as int, DataView::Empty));
    let formula = item_at(formulas, c as int, Seq::empty());
    let style = style_text(item_at(styles, c as int, None));
    let before = signature_bytes(values, formulas, styles, c);
    assert(signature_bytes(values, formulas, styles, c + 1) == with_part(
        with_part(with_part(before, value), formula),
        style,
    ));
    assert(with_part(with_part(with_part(before, value), formula), style) =~= before + encode_utf8(
        value,
    ) + seq![0x1fu8] + encode_utf8(formula) + seq![0x1fu8] + encode_utf8(style) + seq![0x1fu8]);
}

/// The signature of a row takes in as many columns as the longest of its three grids
/// has there.
pub proof fn law_signed_row_reaches_its_last_column(x: SnapshotView, i: int, n: nat)
    requires
        0 <= i < x.values.len() ==> x.values[i].len() <= n,
        0 <= i < x.formulas.len() ==> x.formulas[i].len() <= n,
        x.style_ids matches Some(ids) ==> (0 <= i < ids.len() ==> ids[i].len() <= n),
        ({
            ||| n == 0
            ||| 0 <= i < x.values.len() && x.values[i].len() == n
            ||| 0 <= i < x.formulas.len() && x.formulas[i].len() == n
            ||| (x.style_ids matches Some(ids) && 0 <= i < ids.len() && ids[i].len() == n)
        }),
    ensures
        ({
            let values = if 0 <= i < x.values.len() {
                Some(x.values[i])
            } else {
                None
            };
            let formulas = if 0 <= i < x.formulas.len() {
                Some(x.formulas[i])
            } else {
                None
            };
            let styles = match x.style_ids {
                Some(ids) if 0 <= i < ids.len() => Some(ids[i]),
                _ => None,
            };
            row_signature_bytes(x.values, x.formulas, x.style_ids, i) == signature_bytes(
                values,
                formulas,
                styles,
                n,
            )
        }),
{
}

/// A sheet is hashed row by row: each row adds its signature and the byte of the unit
/// separator.
pub proof fn law_sheet_is_hashed_row_by_row(x: SnapshotView, n: nat)
    ensures
        sheet_bytes(x, 0).len() == 0,
        sheet_bytes(x, n + 1) == sheet_bytes(x, n) + encode_utf8(
            row_signature(x.values, x.formulas, x.style_ids, n as int),
        ) + seq![0x1fu8],
{
    let signature = row_signature(x.values, x.formulas, x.style_ids, n as int);
    assert(sheet_bytes(x, n + 1) == with_part(sheet_bytes(x, n), signature));
    assert(with_part(sheet_bytes(x, n), signature) =~= sheet_bytes(x, n) + encode_utf8(signature)
        + seq![0x1fu8]);
}

/// The two digits that a further byte adds are its high and its low half, from `0` to
/// `9` and from `a` to `f`.
pub proof fn law_byte_is_written_as_two_digits(bytes: Seq<u8>, high: u8, low: u8)
    requires
        high < 16,
        low < 16,
    ensures
        hex_text(Seq::<u8>::empty()).len() == 0,
        hex_text(bytes.push((16 * high + low) as u8)) == hex_text(bytes) + seq![
            "0123456789abcdef"@[high as int],
            "0123456789abcdef"@[low as int],
        ],
{
    reveal_strlit("0123456789abcdef");
    let byte = (16 * high + low) as u8;
    assert(byte as int / 16 == high && byte as int % 16 == low);
    assert(bytes.push(byte).drop_last() =~= bytes);
    lemma_digit_at(high);
    lemma_digit_at(low);
    assert(hex_text(bytes.push(byte)) =~= hex_text(bytes) + seq![
        hex_digit(high as int),
        hex_digit(low as int),
    ]);
}

proof fn lemma_digit_at(d: u8)
    requires
        d < 16,
    ensures
        hex_digit(d as int) == "0123456789abcdef"@[d as int],
{
    reveal_strlit("0123456789abcdef");
}

proof fn lemma_hex_of_start(bytes: Seq<u8>, n: int)
    requires
        0 <= n <= bytes.len(),
    ensures
        hex_text(bytes.take(n)) == hex_text(bytes).take(2 * n),
    decreases bytes.len() - n,
{
    law_hex_text_is_lower_hex(bytes);
    if n == bytes.len() {
        assert(bytes.take(n) =~= bytes);
        assert(hex_text(bytes).take(2 * n) =~= hex_text(bytes));
    } else {
        let shorter = bytes.drop_last();
        lemma_hex_of_start(shorter, n);
        law_hex_text_is_lower_hex(shorter);
        assert(shorter.take(n) =~= bytes.take(n));
        assert(hex_text(shorter).take(2 * n) =~= hex_text(bytes).take(2 * n));
    }
}

/// The fingerprint of a row is the start of the digest of what is hashed for it, in
/// sixteen hexadecimal digits; the signatures of rows and sheets are whole digests.
pub proof fn law_fingerprint_is_the_start_of_the_digest(row: Seq<DataView>, x: SnapshotView, i: int)
    requires
        blake3_digest(row_bytes(row)).len() == 32,
    ensures
        row_fingerprint(row) == hex_text(blake3_digest(row_bytes(row))).take(16),
        row_signature(x.values, x.formulas, x.style_ids, i) == hex_text(
            blake3_digest(row_signature_bytes(x.values, x.formulas, x.style_ids, i)),
        ),
        snapshot_signature(x) == hex_text(blake3_digest(sheet_bytes(x, row_count(x)))),
{
    lemma_hex_of_start(blake3_digest(row_bytes(row)), 8);
}

} // verus!
