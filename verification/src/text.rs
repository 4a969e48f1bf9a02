//! Text primitives: whitespace trimming, decimal numbers, ASCII letter case.

use vstd::prelude::*;

verus! {

/// The characters with the Unicode `White_Space` property.
pub open spec fn is_white_space(c: char) -> bool {
    let code = c as u32;
    ||| 0x09 <= code <= 0x0d
    ||| code == 0x20
    ||| code == 0x85
    ||| code == 0xa0
    ||| code == 0x1680
    ||| 0x2000 <= code <= 0x200a
    ||| code == 0x2028
    ||| code == 0x2029
    ||| code == 0x202f
    ||| code == 0x205f
    ||| code == 0x3000
}

/// `s` without its leading white space.
pub open spec fn trimmed_start(s: Seq<char>) -> Seq<char>
    decreases s.len(),
{
    if s.len() > 0 && is_white_space(s.first()) {
        trimmed_start(s.drop_first())
    } else {
        s
    }
}

/// `s` without its trailing white space.
pub open spec fn trimmed_end(s: Seq<char>) -> Seq<char>
    decreases s.len(),
{
    if s.len() > 0 && is_white_space(s.last()) {
        trimmed_end(s.drop_last())
    } else {
        s
    }
}

/// `s` without its leading and trailing white space.
pub open spec fn trimmed(s: Seq<char>) -> Seq<char> {
    trimmed_end(trimmed_start(s))
}

/// The decimal digit for `d`, which is below ten.
pub open spec fn digit_char(d: int) -> char {
    (0x30 + d) as char
}

/// The decimal notation of a natural number, without leading zeros.
pub open spec fn decimal_text(n: nat) -> Seq<char>
    decreases n,
{
    if n < 10 {
        seq![digit_char(n as int)]
    } else {
        decimal_text(n / 10).push(digit_char((n % 10) as int))
    }
}

/// The decimal notation of an integer: a minus sign leads a negative one.
pub open spec fn integer_text(i: int) -> Seq<char> {
    if i < 0 {
        seq!['-'] + decimal_text((-i) as nat)
    } else {
        decimal_text(i as nat)
    }
}

pub open spec fn is_digit(c: char) -> bool {
    0x30 <= c as u32 <= 0x39
}

/// The number that a string of decimal digits denotes; `None` if another
/// character occurs. The empty string denotes zero.
pub open spec fn digits_value(s: Seq<char>) -> Option<nat>
    decreases s.len(),
{
    if s.len() == 0 {
        Some(0)
    } else {
        match digits_value(s.drop_last()) {
            Some(v) if is_digit(s.last()) => Some((v * 10 + (s.last() as u32 - 0x30)) as nat),
            _ => None,
        }
    }
}

/// The number that an unsigned numeral denotes: an optional plus sign and at
/// least one decimal digit. `None` for every other string.
pub open spec fn numeral_value(s: Seq<char>) -> Option<nat> {
    let digits = if s.len() > 0 && s[0] == '+' { s.drop_first() } else { s };
    if digits.len() == 0 {
        None
    } else {
        digits_value(digits)
    }
}

/// `numeral_value`, where it is no larger than `max`.
pub open spec fn bounded_numeral(s: Seq<char>, max: nat) -> Option<nat> {
    match numeral_value(s) {
        Some(v) if v <= max => Some(v),
        _ => None,
    }
}

pub open spec fn is_ascii_letter(c: char) -> bool {
    0x41 <= c as u32 <= 0x5a || 0x61 <= c as u32 <= 0x7a
}

/// The lower-case form of an ASCII letter; any other character is kept.
pub open spec fn ascii_lower(c: char) -> char {
    if 0x41 <= c as u32 <= 0x5a {
        (c as u32 + 0x20) as char
    } else {
        c
    }
}

/// The view of a `Result`, part by part.
pub open spec fn result_view<T: DeepView, E: DeepView>(r: Result<T, E>) -> Result<T::V, E::V> {
    match r {
        Ok(t) => Ok(t.deep_view()),
        Err(e) => Err(e.deep_view()),
    }
}

/// Whether `c` has the Unicode `White_Space` property.
pub fn white_space(c: char) -> (r: bool)
    ensures
        r == is_white_space(c),
{
    let code: u32 = c as u32;
    (0x09 <= code && code <= 0x0d) || code == 0x20 || code == 0x85 || code == 0xa0 || code == 0x1680
        || (0x2000 <= code && code <= 0x200a) || code == 0x2028 || code == 0x2029 || code == 0x202f
        || code == 0x205f || code == 0x3000
}

/// The characters of `s`, in order.
pub fn chars_of(s: &str) -> (r: Vec<char>)
    ensures
        r@ == s@,
{
    let mut out: Vec<char> = Vec::new();
    for c in it: s.chars()
        invariant
            it.seq() == s@,
            out@ == s@.take(it.index() as int),
    {
        proof {
            assert(s@.take(it.index() + 1) =~= s@.take(it.index() as int).push(c));
        }
        out.push(c);
    }
    assert(s@.take(s@.len() as int) =~= s@);
    out
}

/// Whether the two strings hold the same characters.
pub fn same_text(a: &str, b: &str) -> (r: bool)
    ensures
        r == (a@ == b@),
{
    a.to_owned() == b.to_owned()
}

/// `a` and `b`, one behind the other.
pub fn joined(a: &str, b: &str) -> (r: String)
    ensures
        r@ == a@ + b@,
{
    let mut out = a.to_owned();
    out.append(b);
    out
}

proof fn lemma_trimmed_start_is_suffix(s: Seq<char>, k: int)
    requires
        0 <= k <= s.len(),
        forall|i: int| 0 <= i < k ==> is_white_space(#[trigger] s[i]),
        k < s.len() ==> !is_white_space(s[k]),
    ensures
        trimmed_start(s) == s.skip(k),
    decreases k,
{
    if k == 0 {
        assert(s.skip(0) =~= s);
    } else {
        let t = s.drop_first();
        assert(is_white_space(s[0]));
        assert forall|i: int| 0 <= i < k - 1 implies is_white_space(#[trigger] t[i]) by {
            assert(t[i] == s[i + 1]);
        }
        lemma_trimmed_start_is_suffix(t, k - 1);
        assert(t.skip(k - 1) =~= s.skip(k));
    }
}

proof fn lemma_trimmed_end_is_prefix(s: Seq<char>, k: int)
    requires
        0 <= k <= s.len(),
        forall|i: int| k <= i < s.len() ==> is_white_space(#[trigger] s[i]),
        k > 0 ==> !is_white_space(s[k - 1]),
    ensures
        trimmed_end(s) == s.take(k),
    decreases s.len() - k,
{
    if k == s.len() {
        assert(s.take(k) =~= s);
    } else {
        let t = s.drop_last();
        assert(is_white_space(s[s.len() - 1]));
        lemma_trimmed_end_is_prefix(t, k);
        assert(t.take(k) =~= s.take(k));
    }
}

/// `s` without its leading and trailing white space.
pub fn trim(s: &str) -> (r: String)
    ensures
        r@ == trimmed(s@),
{
    let chars = chars_of(s);
    let n: usize = chars.len();
    let mut from: usize = 0;
    while from < n && white_space(chars[from])
        invariant
            n == chars.len(),
            from <= n,
            chars@ == s@,
            forall|i: int| 0 <= i < from ==> is_white_space(#[trigger] chars[i]),
        decreases n - from,
    {
        from = from + 1;
    }
    let mut to: usize = n;
    while to > from && white_space(chars[to - 1])
        invariant
            n == chars.len(),
            from <= to <= n,
            chars@ == s@,
            forall|i: int| to <= i < n ==> is_white_space(#[trigger] chars[i]),
        decreases to,
    {
        to = to - 1;
    }
    proof {
        lemma_trimmed_start_is_suffix(s@, from as int);
        let t = s@.skip(from as int);
        assert forall|i: int| to - from <= i < t.len() implies is_white_space(#[trigger] t[i]) by {
            assert(t[i] == chars[i + from]);
        }
        lemma_trimmed_end_is_prefix(t, to - from);
        assert(t.take(to - from) =~= s@.subrange(from as int, to as int));
    }
    s.substring_char(from, to).to_owned()
}

/// Trimming a trimmed string changes nothing.
pub proof fn law_trimmed_is_idempotent(s: Seq<char>)
    ensures
        trimmed(trimmed(s)) == trimmed(s),
{
    let t = trimmed_start(s);
    lemma_trimmed_start_head(s);
    lemma_trimmed_end_tail(t);
    lemma_trimmed_end_head(t);
    let u = trimmed_end(t);
    assert(trimmed_start(u) == u);
}

proof fn lemma_trimmed_start_head(s: Seq<char>)
    ensures
        trimmed_start(s).len() > 0 ==> !is_white_space(trimmed_start(s).first()),
    decreases s.len(),
{
    if s.len() > 0 && is_white_space(s.first()) {
        lemma_trimmed_start_head(s.drop_first());
    }
}

proof fn lemma_trimmed_end_tail(s: Seq<char>)
    ensures
        trimmed_end(s).len() > 0 ==> !is_white_space(trimmed_end(s).last()),
    decreases s.len(),
{
    if s.len() > 0 && is_white_space(s.last()) {
        lemma_trimmed_end_tail(s.drop_last());
    }
}

proof fn lemma_trimmed_end_head(s: Seq<char>)
    ensures
        trimmed_end(s).len() > 0 ==> s.len() > 0 && trimmed_end(s).first() == s.first(),
    decreases s.len(),
{
    if s.len() > 0 && is_white_space(s.last()) {
        lemma_trimmed_end_head(s.drop_last());
    }
}

/// The decimal digit for `d`.
fn digit_text(d: u64) -> (r: &'static str)
    requires
        d < 10,
    ensures
        r@ == seq![digit_char(d as int)],
{
    proof {
        reveal_strlit("0");
        reveal_strlit("1");
        reveal_strlit("2");
        reveal_strlit("3");
        reveal_strlit("4");
        reveal_strlit("5");
        reveal_strlit("6");
        reveal_strlit("7");
        reveal_strlit("8");
        reveal_strlit("9");
    }
    match d {
        0 => "0",
        1 => "1",
        2 => "2",
        3 => "3",
        4 => "4",
        5 => "5",
        6 => "6",
        7 => "7",
        8 => "8",
        _ => "9",
    }
}

/// The decimal notation of `n`.
pub fn u64_text(n: u64) -> (r: String)
    ensures
        r@ == decimal_text(n as nat),
    decreases n,
{
    if n < 10 {
        digit_text(n).to_owned()
    } else {
        let mut out = u64_text(n / 10);
        let ghost front = out@;
        out.append(digit_text(n % 10));
        assert(out@ =~= front.push(digit_char((n % 10) as int)));
        out
    }
}

/// The decimal notation of `i`.
pub fn i64_text(i: i64) -> (r: String)
    ensures
        r@ == integer_text(i as int),
{
    if i < 0 {
        let magnitude: u64 = (-(i as i128)) as u64;
        let mut out = "-".to_owned();
        proof {
            reveal_strlit("-");
        }
        out.append(u64_text(magnitude).as_str());
        assert(out@ =~= integer_text(i as int));
        out
    } else {
        u64_text(i as u64)
    }
}

/// The text of a truth value.
pub open spec fn bool_text(b: bool) -> Seq<char> {
    if b {
        "true"@
    } else {
        "false"@
    }
}

proof fn lemma_digits_grow(s: Seq<char>, k: int)
    requires
        0 <= k <= s.len(),
    ensures
        digits_value(s.take(k)) is None ==> digits_value(s) is None,
        digits_value(s) is Some ==> digits_value(s.take(k)) is Some && digits_value(s.take(k))->0
            <= digits_value(s)->0,
    decreases s.len() - k,
{
    if k == s.len() {
        assert(s.take(k) =~= s);
    } else {
        let t = s.drop_last();
        assert(t.take(k) =~= s.take(k));
        lemma_digits_grow(t, k);
    }
}

/// The value of an unsigned numeral that is no larger than `max`: an optional plus
/// sign and at least one decimal digit, and nothing else.
pub fn parse_numeral_chars(chars: &Vec<char>, max: u64) -> (r: Option<u64>)
    ensures
        match r {
            Some(v) => bounded_numeral(chars@, max as nat) == Some(v as nat),
            None => bounded_numeral(chars@, max as nat) is None,
        },
{
    let n: usize = chars.len();
    let start: usize = if n > 0 && chars[0] == '+' {
        1
    } else {
        0
    };
    let ghost digits = chars@.skip(start as int);
    proof {
        assert(chars@.skip(0) =~= chars@);
        if chars@.len() > 0 {
            assert(chars@.skip(1) =~= chars@.drop_first());
        }
    }
    if start == n {
        return None;
    }
    let mut value: u64 = 0;
    let mut i: usize = start;
    assert(digits.take(0) =~= Seq::empty());
    while i < n
        invariant
            start <= i <= n,
            n == chars.len(),
            digits == chars@.skip(start as int),
            digits.len() > 0,
            numeral_value(chars@) == digits_value(digits),
            digits_value(digits.take(i - start)) == Some(value as nat),
            value <= max,
        decreases n - i,
    {
        let c: char = chars[i];
        proof {
            let next = digits.take(i - start + 1);
            assert(next.drop_last() =~= digits.take(i - start));
            assert(next.last() == c);
            lemma_digits_grow(digits, i - start + 1);
        }
        let code: u32 = c as u32;
        if code < 0x30 || code > 0x39 {
            return None;
        }
        let d: u64 = (code - 0x30) as u64;
        let wide: u128 = value as u128 * 10 + d as u128;
        if wide > max as u128 {
            return None;
        }
        value = wide as u64;
        i = i + 1;
    }
    assert(digits.take(n - start) =~= digits);
    Some(value)
}

/// `parse_numeral_chars` for a string.
pub fn parse_numeral(s: &str, max: u64) -> (r: Option<u64>)
    ensures
        match r {
            Some(v) => bounded_numeral(s@, max as nat) == Some(v as nat),
            None => bounded_numeral(s@, max as nat) is None,
        },
{
    parse_numeral_chars(&chars_of(s), max)
}

/// `parse_numeral` for an index.
pub fn parse_index(s: &str) -> (r: Option<usize>)
    ensures
        match r {
            Some(v) => bounded_numeral(s@, usize::MAX as nat) == Some(v as nat),
            None => bounded_numeral(s@, usize::MAX as nat) is None,
        },
{
    match parse_numeral(s, usize::MAX as u64) {
        Some(v) => Some(v as usize),
        None => None,
    }
}

proof fn lemma_decimal_text_digits(n: nat)
    ensures
        digits_value(decimal_text(n)) == Some(n),
        decimal_text(n).len() > 0,
        is_digit(decimal_text(n)[0]),
    decreases n,
{
    let s = decimal_text(n);
    if n < 10 {
        assert(s.drop_last() =~= Seq::empty());
        assert(digits_value(s.drop_last()) == Some(0nat));
    } else {
        lemma_decimal_text_digits(n / 10);
        assert(s.drop_last() =~= decimal_text(n / 10));
    }
}

/// A numeral reads back as the number it was written for.
pub proof fn law_decimal_round_trip(n: nat)
    ensures
        numeral_value(decimal_text(n)) == Some(n),
{
    lemma_decimal_text_digits(n);
}

/// Different integers have different texts.
pub proof fn law_integer_text_injective(i: int, j: int)
    ensures
        integer_text(i) == integer_text(j) <==> i == j,
{
    let mi = (if i < 0 { -i } else { i }) as nat;
    let mj = (if j < 0 { -j } else { j }) as nat;
    lemma_decimal_text_digits(mi);
    lemma_decimal_text_digits(mj);
    if integer_text(i) == integer_text(j) {
        assert(integer_text(i)[0] == integer_text(j)[0]);
        if i < 0 && j < 0 {
            assert(integer_text(i).drop_first() =~= decimal_text(mi));
            assert(integer_text(j).drop_first() =~= decimal_text(mj));
        }
    }
}

proof fn lemma_trimmed_start_at(s: Seq<char>) -> (k: int)
    ensures
        0 <= k <= s.len(),
        trimmed_start(s) == s.skip(k),
        forall|i: int| 0 <= i < k ==> is_white_space(#[trigger] s[i]),
        k < s.len() ==> !is_white_space(s[k]),
    decreases s.len(),
{
    if s.len() > 0 && is_white_space(s.first()) {
        let rest = s.drop_first();
        let k = lemma_trimmed_start_at(rest);
        assert(rest.skip(k) =~= s.skip(k + 1));
        assert forall|i: int| 0 <= i < k + 1 implies is_white_space(#[trigger] s[i]) by {
            if i > 0 {
                assert(s[i] == rest[i - 1]);
            }
        }
        k + 1
    } else {
        assert(s.skip(0) =~= s);
        0
    }
}

proof fn lemma_trimmed_end_at(s: Seq<char>) -> (k: int)
    ensures
        0 <= k <= s.len(),
        trimmed_end(s) == s.take(k),
        forall|i: int| k <= i < s.len() ==> is_white_space(#[trigger] s[i]),
        k > 0 ==> !is_white_space(s[k - 1]),
    decreases s.len(),
{
    if s.len() > 0 && is_white_space(s.last()) {
        let rest = s.drop_last();
        let k = lemma_trimmed_end_at(rest);
        assert(rest.take(k) =~= s.take(k));
        assert forall|i: int| k <= i < s.len() implies is_white_space(#[trigger] s[i]) by {
            if i < rest.len() {
                assert(s[i] == rest[i]);
            }
        }
        k
    } else {
        assert(s.take(s.len() as int) =~= s);
        s.len() as int
    }
}

/// Trimming cuts white space off both ends of a text and nothing else: what is left
/// is a piece of the text that neither begins nor ends with white space, and all
/// that stands around it is white space.
pub proof fn law_trimming_cuts_white_space_only(s: Seq<char>)
    ensures
        exists|i: int, j: int|
            {
                &&& 0 <= i <= j <= s.len()
                &&& trimmed(s) == #[trigger] s.subrange(i, j)
                &&& forall|k: int| 0 <= k < i || j <= k < s.len() ==> is_white_space(s[k])
            },
        trimmed(s).len() > 0 ==> !is_white_space(trimmed(s).first()) && !is_white_space(
            trimmed(s).last(),
        ),
{
    let i = lemma_trimmed_start_at(s);
    let start = s.skip(i);
    let n = lemma_trimmed_end_at(start);
    let j = i + n;
    assert(start.take(n) =~= s.subrange(i, j));
    assert forall|k: int| 0 <= k < i || j <= k < s.len() implies is_white_space(s[k]) by {
        if j <= k < s.len() {
            assert(s[k] == start[k - i]);
        }
    }
    if n > 0 {
        assert(trimmed(s).first() == s[i]);
        assert(trimmed(s).last() == start[n - 1]);
    }
}

/// Reading a numeral digit by digit: a further digit multiplies what was read by ten
/// and adds itself; any other character makes the text unreadable.
pub proof fn law_digits_are_read_in_decimal(s: Seq<char>, c: char)
    ensures
        digits_value(Seq::<char>::empty()) == Some(0nat),
        digits_value(s.push(c)) == (match digits_value(s) {
            Some(v) if '0' as u32 <= c as u32 <= '9' as u32 => Some(
                (10 * v + (c as u32 - '0' as u32)) as nat,
            ),
            _ => None,
        }),
{
    assert(s.push(c).drop_last() =~= s);
}

/// A numeral is a text of digits, at least one, with or without a plus sign before
/// them; it is read up to the given maximum.
pub proof fn law_numeral_may_have_a_plus_sign(s: Seq<char>, max: nat)
    ensures
        numeral_value(Seq::<char>::empty()) is None,
        s.len() > 0 && s[0] != '+' ==> numeral_value(s) == digits_value(s),
        numeral_value(seq!['+'] + s) == (if s.len() > 0 {
            digits_value(s)
        } else {
            None
        }),
        bounded_numeral(s, max) == (match numeral_value(s) {
            Some(v) if v <= max => Some(v),
            _ => None,
        }),
{
    assert((seq!['+'] + s).drop_first() =~= s);
}

/// The decimal text of a number is that of its tenth, followed by its last digit.
pub proof fn law_decimal_text_by_digit(n: nat, d: nat)
    requires
        d < 10,
    ensures
        decimal_text(d) == seq![('0' as u32 + d) as char],
        n > 0 ==> decimal_text(10 * n + d) == decimal_text(n).push(('0' as u32 + d) as char),
{
    if n > 0 {
        assert((10 * n + d) / 10 == n && (10 * n + d) % 10 == d);
    }
}

/// The text of an integer is the decimal text of its absolute value, behind a minus
/// sign where it is negative.
pub proof fn law_integer_text_has_a_sign(n: nat)
    ensures
        integer_text(n as int) == decimal_text(n),
        n > 0 ==> integer_text(-(n as int)) == seq!['-'] + decimal_text(n),
{
}

/// Only the letters from `A` to `Z` have another lower-case form, thirty-two places
/// further on.
pub proof fn law_lower_case_of_ascii(c: char)
    ensures
        ascii_lower(c) as u32 == (if 'A' as u32 <= c as u32 <= 'Z' as u32 {
            c as u32 + 32
        } else {
            c as u32 as int
        }),
        is_ascii_letter(c) <==> 'A' as u32 <= c as u32 <= 'Z' as u32 || 'a' as u32 <= c as u32
            <= 'z' as u32,
        is_digit(c) <==> '0' as u32 <= c as u32 <= '9' as u32,
{
}

/// The view of a result is a success exactly if the result is one, and holds the view
/// of what the result holds.
pub proof fn law_result_view_keeps_success_and_error<T: DeepView, E: DeepView>(value: T, error: E)
    ensures
        result_view(Ok::<T, E>(value)) == Ok::<T::V, E::V>(value.deep_view()),
        result_view(Err::<T, E>(error)) == Err::<T::V, E::V>(error.deep_view()),
{
}

proof fn lemma_decimal_text_is_digits(n: nat, i: int)
    requires
        0 <= i < decimal_text(n).len(),
    ensures
        is_digit(decimal_text(n)[i]),
    decreases n,
{
    if n >= 10 && i < decimal_text(n).len() - 1 {
        lemma_decimal_text_is_digits(n / 10, i);
    }
}

/// The decimal text of a number consists of digits, and of at least one.
pub proof fn law_decimal_text_is_digits(n: nat)
    ensures
        decimal_text(n).len() > 0,
        forall|i: int| 0 <= i < decimal_text(n).len() ==> is_digit(#[trigger] decimal_text(n)[i]),
{
    lemma_decimal_text_digits(n);
    assert forall|i: int| 0 <= i < decimal_text(n).len() implies is_digit(
        #[trigger] decimal_text(n)[i],
    ) by {
        lemma_decimal_text_is_digits(n, i);
    }
}

/// White space is the ASCII space, tab, line breaks and form feed, the next-line and
/// no-break characters, the spaces of general punctuation, the separators of lines and
/// paragraphs, and the Ogham and ideographic spaces; the zero-width space is none.
pub proof fn law_white_space_characters(c: char)
    ensures
        is_white_space(c) <==> {
            ||| c == ' ' || c == '\t' || c == '\n' || c == '\u{b}' || c == '\u{c}' || c == '\r'
            ||| c == '\u{85}' || c == '\u{a0}' || c == '\u{1680}'
            ||| '\u{2000}' <= c && c <= '\u{200a}'
            ||| c == '\u{2028}' || c == '\u{2029}' || c == '\u{202f}' || c == '\u{205f}'
            ||| c == '\u{3000}'
        },
{
}

} // verus!
