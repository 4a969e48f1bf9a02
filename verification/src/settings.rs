//! Limits, and what is decided by a file's name or the machine's size.

use crate::text::{
    ascii_lower, bounded_numeral, chars_of, decimal_text, law_decimal_round_trip, parse_index,
    parse_numeral,
};
use std::path::Path;
use vstd::prelude::*;

verus! {

/// The largest input file, in bytes, unless set otherwise: 200 MiB.
pub const DEFAULT_MAX_INPUT_BYTES: u64 = 209_715_200;

/// The largest number of cells of a sheet, unless set otherwise.
pub const DEFAULT_MAX_CELL_COUNT: usize = 10_000_000;

/// The largest number of pairs of rows that are compared by fingerprint, unless set
/// otherwise.
pub const DEFAULT_LCS_MAX_PAIRWISE: usize = 5_000_000;

/// The number that the text of a setting gives, or `fallback` where the setting is
/// missing or no number up to `max`.
pub open spec fn setting(value: Option<Seq<char>>, max: nat, fallback: nat) -> nat {
    match value {
        Some(text) => match bounded_numeral(text, max) {
            Some(n) => n,
            None => fallback,
        },
        None => fallback,
    }
}

/// The value of a setting whose text, if it has one, is `value`.
pub fn env_u64(value: Option<&str>, fallback: u64) -> (r: u64)
    ensures
        r == setting(value.deep_view(), u64::MAX as nat, fallback as nat),
{
    match value {
        Some(text) => match parse_numeral(text, u64::MAX) {
            Some(n) => n,
            None => fallback,
        },
        None => fallback,
    }
}

/// The value of a setting whose text, if it has one, is `value`.
pub fn env_usize(value: Option<&str>, fallback: usize) -> (r: usize)
    ensures
        r == setting(value.deep_view(), usize::MAX as nat, fallback as nat),
{
    match value {
        Some(text) => match parse_index(text) {
            Some(n) => n,
            None => fallback,
        },
        None => fallback,
    }
}

/// What stands behind the last occurrence of `mark`.
pub open spec fn behind_last(s: Seq<char>, mark: char) -> Seq<char>
    decreases s.len(),
{
    if s.len() == 0 || s.last() == mark {
        Seq::empty()
    } else {
        behind_last(s.drop_last(), mark).push(s.last())
    }
}

/// A path without the slashes, and the references of a directory to itself, at its
/// end.
pub open spec fn without_end_slashes(path: Seq<char>) -> Seq<char>
    decreases path.len(),
{
    let n = path.len();
    if n > 0 && path[n - 1] == '/' {
        without_end_slashes(path.drop_last())
    } else if n > 1 && path[n - 1] == '.' && path[n - 2] == '/' {
        without_end_slashes(path.drop_last())
    } else {
        path
    }
}

/// The extension of a file with the given name: what stands behind its last dot,
/// unless that is the first character.
pub open spec fn name_extension(name: Seq<char>) -> Option<Seq<char>> {
    if name.contains('.') && name != seq!['.', '.'] && behind_last(name, '.').len() + 1
        < name.len() {
        Some(behind_last(name, '.'))
    } else {
        None
    }
}

/// The extension of the file that a path leads to.
pub open spec fn extension_of(path: Seq<char>) -> Option<Seq<char>> {
    name_extension(behind_last(without_end_slashes(path), '/'))
}

/// Whether a path means the same everywhere: it has no backslash and no colon, and
/// does not begin with two slashes.
pub open spec fn plain_path(path: Seq<char>) -> bool {
    &&& !path.contains('\\')
    &&& !path.contains(':')
    &&& !(path.len() > 1 && path[0] == '/' && path[1] == '/')
}

/// Whether a character separates the components of a path, on some platform or on
/// all.
pub open spec fn is_separator(c: char) -> bool {
    c == '/' || c == '\\'
}

/// Whether a path begins with two separators, as a network path does.
pub open spec fn begins_with_two_separators(path: Seq<char>) -> bool {
    path.len() > 1 && is_separator(path[0]) && is_separator(path[1])
}

/// Whether what stands behind the last slash is the last component of the path on
/// every platform.
pub open spec fn ends_in_a_component(path: Seq<char>) -> bool {
    let name = behind_last(path, '/');
    &&& path.contains('/')
    &&& name.len() > 0
    &&& name != seq!['.']
    &&& !name.contains('\\')
    &&& !name.contains(':')
}

/// Whether what stands behind the last dot is an extension on every platform: it
/// holds no separator and no colon, and neither of them nor another dot stands just
/// before that dot.
pub open spec fn ends_in_an_extension(path: Seq<char>) -> bool {
    let extension = behind_last(path, '.');
    let dot = path.len() - extension.len() - 1;
    &&& dot > 0
    &&& !is_separator(path[dot - 1]) && path[dot - 1] != ':' && path[dot - 1] != '.'
    &&& !extension.contains('/') && !extension.contains('\\') && !extension.contains(':')
}

/// The extension of a path, if every platform reads it alike; `None` where that
/// depends on the platform.
pub open spec fn portable_extension(path: Seq<char>) -> Option<Option<Seq<char>>> {
    if plain_path(path) {
        Some(extension_of(path))
    } else if !path.contains('.') {
        Some(None)
    } else if begins_with_two_separators(path) {
        None
    } else if ends_in_a_component(path) {
        Some(name_extension(behind_last(path, '/')))
    } else if ends_in_an_extension(path) {
        Some(Some(behind_last(path, '.')))
    } else {
        None
    }
}

/// The extension of a path, by `std::path::Path::extension`.
///
/// Claimed: it is what stands behind the last dot of the path's last component,
/// which slashes and lone dots at the path's end do not count towards; there is
/// none where that dot is missing or comes first, nor behind `..`. With backslashes
/// or colons it depends on the platform what a component is. Of such a path this is
/// claimed where the last component, or the extension, is the same on every
/// platform, and nothing where it is not: `a\.xlsx`, a backslash at the end, or a
/// network path with a dot in it.
#[verifier::external_body]
fn path_extension(path: &str) -> (r: Option<String>)
    ensures
        portable_extension(path@) matches Some(extension) ==> r.deep_view() == extension,
{
    Path::new(path).extension().and_then(|e| e.to_str()).map(|e| e.to_owned())
}

/// A text with its ASCII letters in lower case.
pub open spec fn lower_text(s: Seq<char>) -> Seq<char> {
    s.map_values(|c: char| ascii_lower(c))
}

/// Whether an extension is that of a workbook stored as a ZIP archive of XML; case
/// does not matter.
pub open spec fn xlsx_like(extension: Option<Seq<char>>) -> bool {
    match extension {
        Some(text) => {
            ||| lower_text(text) == "xlsx"@
            ||| lower_text(text) == "xlsm"@
            ||| lower_text(text) == "xlam"@
        },
        None => false,
    }
}

/// Whether `e` is the lower-case form of `c`.
fn is_lower_of(c: char, e: char) -> (r: bool)
    ensures
        r == (ascii_lower(c) == e),
{
    let code: u32 = c as u32;
    if 0x41 <= code && code <= 0x5a {
        code + 0x20 == e as u32
    } else {
        c == e
    }
}

fn same_in_lower_case(chars: &Vec<char>, text: &str) -> (r: bool)
    ensures
        r == (lower_text(chars@) == text@),
{
    let expected = chars_of(text);
    if chars.len() != expected.len() {
        assert(lower_text(chars@).len() != text@.len());
        return false;
    }
    let mut i: usize = 0;
    while i < chars.len()
        invariant
            i <= chars.len(),
            chars.len() == expected.len(),
            expected@ == text@,
            forall|k: int| 0 <= k < i ==> lower_text(chars@)[k] == #[trigger] expected@[k],
        decreases chars.len() - i,
    {
        assert(lower_text(chars@)[i as int] == ascii_lower(chars@[i as int]));
        if !is_lower_of(chars[i], expected[i]) {
            return false;
        }
        i = i + 1;
    }
    assert(lower_text(chars@) =~= text@);
    true
}

/// Whether an extension is that of a workbook stored as a ZIP archive of XML.
pub fn is_xlsx_like_extension(extension: Option<&str>) -> (r: bool)
    ensures
        r == xlsx_like(extension.deep_view()),
{
    match extension {
        Some(text) => {
            let chars = chars_of(text);
            same_in_lower_case(&chars, "xlsx") || same_in_lower_case(&chars, "xlsm")
                || same_in_lower_case(&chars, "xlam")
        },
        None => false,
    }
}

/// Whether a path leads to a workbook stored as a ZIP archive of XML, going by its
/// extension. Where the platforms differ in what the extension is, nothing is
/// stated.
pub fn is_xlsx_like_path(file_path: &str) -> (r: bool)
    ensures
        portable_extension(file_path@) matches Some(extension) ==> r == xlsx_like(extension),
{
    let extension = path_extension(file_path);
    match &extension {
        Some(text) => is_xlsx_like_extension(Some(text.as_str())),
        None => is_xlsx_like_extension(None),
    }
}

/// All processors but one, and at least one.
pub open spec fn thread_count(processors: usize) -> usize {
    if processors >= 2 {
        (processors - 1) as usize
    } else {
        1
    }
}

/// One processor is left free where there are several; there is always a thread.
pub proof fn law_one_processor_is_left_free(processors: usize)
    ensures
        thread_count(processors) >= 1,
        processors >= 2 ==> thread_count(processors) + 1 == processors,
        processors < 2 ==> thread_count(processors) == 1,
{
}

/// The number of worker threads on a machine with the given number of processors:
/// all but one, and at least one.
pub fn worker_threads(processors: usize) -> (r: usize)
    ensures
        r == thread_count(processors),
{
    let others: usize = processors.saturating_sub(1);
    if others >= 1 {
        others
    } else {
        1
    }
}

/// A limit that is not set is 200 MiB for the length of a file, ten million for the
/// cells of a sheet, and five million for the pairs of rows.
pub proof fn law_default_limits()
    ensures
        DEFAULT_MAX_INPUT_BYTES == 200 * 1024 * 1024,
        DEFAULT_MAX_CELL_COUNT == 10 * 1000 * 1000,
        DEFAULT_LCS_MAX_PAIRWISE == 5 * 1000 * 1000,
{
}

/// A setting has the number that its text gives, and the fallback where it has no text
/// or one that is no number within the bounds.
pub proof fn law_unreadable_setting_falls_back(text: Seq<char>, max: nat, fallback: nat)
    ensures
        setting(None, max, fallback) == fallback,
        bounded_numeral(text, max) is None ==> setting(Some(text), max, fallback) == fallback,
        bounded_numeral(text, max) matches Some(n) ==> setting(Some(text), max, fallback) == n,
{
}

/// A number that is written out as the text of a setting is its value.
pub proof fn law_written_setting_is_read_back(n: nat, max: nat, fallback: nat)
    requires
        n <= max,
    ensures
        setting(Some(decimal_text(n)), max, fallback) == n,
{
    law_decimal_round_trip(n);
}

/// What stands behind the last mark is all that follows it; without a mark it is the
/// whole text.
pub proof fn law_behind_the_last_mark(head: Seq<char>, tail: Seq<char>, mark: char)
    requires
        !tail.contains(mark),
    ensures
        behind_last(head.push(mark) + tail, mark) == tail,
        behind_last(tail, mark) == tail,
    decreases tail.len(),
{
    if tail.len() == 0 {
        assert(head.push(mark) + tail =~= head.push(mark));
        assert(tail =~= Seq::empty());
    } else {
        let shorter = tail.drop_last();
        assert(tail[tail.len() - 1] == tail.last());
        assert(!shorter.contains(mark)) by {
            if shorter.contains(mark) {
                let k = choose|k: int| 0 <= k < shorter.len() && shorter[k] == mark;
                assert(tail[k] == mark);
            }
        }
        law_behind_the_last_mark(head, shorter, mark);
        assert((head.push(mark) + tail).drop_last() =~= head.push(mark) + shorter);
        assert((head.push(mark) + tail).last() == tail.last());
        assert(tail =~= shorter.push(tail.last()));
    }
}

/// An extension means a workbook stored as a ZIP archive of XML exactly if it is
/// `xlsx`, `xlsm` or `xlam`, each letter in upper or lower case.
pub proof fn law_extensions_of_zipped_workbooks(t: Seq<char>)
    ensures
        !xlsx_like(None),
        xlsx_like(Some(t)) <==> {
            &&& t.len() == 4
            &&& t[0] == 'x' || t[0] == 'X'
            &&& t[1] == 'l' || t[1] == 'L'
            &&& {
                ||| (t[2] == 's' || t[2] == 'S') && (t[3] == 'x' || t[3] == 'X' || t[3] == 'm'
                    || t[3] == 'M')
                ||| (t[2] == 'a' || t[2] == 'A') && (t[3] == 'm' || t[3] == 'M')
            }
        },
{
    reveal_strlit("xlsx");
    reveal_strlit("xlsm");
    reveal_strlit("xlam");
    let lower = lower_text(t);
    assert(lower.len() == t.len());
    if t.len() == 4 {
        assert forall|k: int| 0 <= k < 4 implies lower[k] == ascii_lower(#[trigger] t[k]) by {}
        lemma_lower_letters(t[0]);
        lemma_lower_letters(t[1]);
        lemma_lower_letters(t[2]);
        lemma_lower_letters(t[3]);
        if lower[0] == 'x' && lower[1] == 'l' && lower[2] == 's' && lower[3] == 'x' {
            assert(lower =~= "xlsx"@);
        }
        if lower[0] == 'x' && lower[1] == 'l' && lower[2] == 's' && lower[3] == 'm' {
            assert(lower =~= "xlsm"@);
        }
        if lower[0] == 'x' && lower[1] == 'l' && lower[2] == 'a' && lower[3] == 'm' {
            assert(lower =~= "xlam"@);
        }
    }
}

proof fn lemma_lower_letters(c: char)
    ensures
        ascii_lower(c) == 'x' <==> c == 'x' || c == 'X',
        ascii_lower(c) == 'l' <==> c == 'l' || c == 'L',
        ascii_lower(c) == 's' <==> c == 's' || c == 'S',
        ascii_lower(c) == 'm' <==> c == 'm' || c == 'M',
        ascii_lower(c) == 'a' <==> c == 'a' || c == 'A',
{
}

proof fn lemma_behind_last_of_sum(s: Seq<char>, t: Seq<char>, mark: char)
    requires
        !t.contains(mark),
    ensures
        behind_last(s + t, mark) == behind_last(s, mark) + t,
    decreases t.len(),
{
    if t.len() == 0 {
        assert(s + t =~= s);
        assert(behind_last(s, mark) + t =~= behind_last(s, mark));
    } else {
        let shorter = t.drop_last();
        assert(t[t.len() - 1] == t.last());
        assert(!shorter.contains(mark)) by {
            if shorter.contains(mark) {
                let k = choose|k: int| 0 <= k < shorter.len() && shorter[k] == mark;
                assert(t[k] == mark);
            }
        }
        lemma_behind_last_of_sum(s, shorter, mark);
        assert((s + t).drop_last() =~= s + shorter);
        assert((s + t).last() == t.last());
        assert(behind_last(s, mark) + t =~= (behind_last(s, mark) + shorter).push(t.last()));
    }
}

proof fn lemma_extension_of_name(tail: Seq<char>, extension: Seq<char>)
    requires
        tail.len() > 0,
        tail.last() != '.',
        !extension.contains('.'),
    ensures
        name_extension(tail.push('.') + extension) == Some(extension),
{
    let name = tail.push('.') + extension;
    law_behind_the_last_mark(tail, extension, '.');
    assert(name[tail.len() as int] == '.');
    assert(name[tail.len() - 1] == tail.last());
    assert(name != seq!['.', '.']) by {
        if name == seq!['.', '.'] {
            assert(name.len() == 2);
            assert(name[0] == '.');
        }
    }
}

/// The extension of a path is what stands behind its last dot, whatever directories it
/// leads through and whatever dots come before, if the file has a name before the dot;
/// it must not begin as a network path does.
pub proof fn law_extension_stands_behind_the_last_dot(head: Seq<char>, extension: Seq<char>)
    requires
        head.len() > 0,
        head.last() != '/' && head.last() != '\\' && head.last() != ':' && head.last() != '.',
        !extension.contains('.') && !extension.contains('/') && !extension.contains('\\')
            && !extension.contains(':'),
        head.len() > 1 ==> !(is_separator(head[0]) && is_separator(head[1])),
    ensures
        portable_extension(head.push('.') + extension) == Some(Some(extension)),
{
    let path = head.push('.') + extension;
    let end = seq!['.'] + extension;
    let tail = behind_last(head, '/');
    assert(path =~= head + end);
    assert(!end.contains('/')) by {
        if end.contains('/') {
            let k = choose|k: int| 0 <= k < end.len() && end[k] == '/';
            assert(extension[k - 1] == '/');
        }
    }
    lemma_behind_last_of_sum(head, end, '/');
    assert(tail.len() > 0 && tail.last() == head.last());
    assert(tail + end =~= tail.push('.') + extension);
    lemma_extension_of_name(tail, extension);
    law_behind_the_last_mark(head, extension, '.');
    let n = path.len();
    let dot = head.len() as int;
    assert(path[dot] == '.');
    assert(path[dot - 1] == head.last());
    assert(path.contains('.'));
    assert(without_end_slashes(path) == path) by {
        if extension.len() > 0 {
            assert(path[n - 1] == extension[extension.len() - 1]);
            assert(extension.contains(extension[extension.len() - 1]));
        } else {
            assert(n == dot + 1);
        }
    }
    assert(!begins_with_two_separators(path)) by {
        assert(path[0] == head[0]);
        if head.len() > 1 {
            assert(path[1] == head[1]);
        }
    }
    assert(ends_in_an_extension(path));
}

/// Slashes at the end of a path, and references of a directory to itself behind them,
/// do not count.
pub proof fn law_end_slashes_do_not_count(path: Seq<char>)
    ensures
        extension_of(path.push('/')) == extension_of(path),
        extension_of(path.push('/').push('.')) == extension_of(path),
{
    assert(path.push('/').drop_last() =~= path);
    assert(path.push('/').push('.').drop_last() =~= path.push('/'));
    assert(without_end_slashes(path.push('/')) == without_end_slashes(path));
    assert(without_end_slashes(path.push('/').push('.')) == without_end_slashes(path.push('/')));
}

/// A file whose name has no dot has no extension, nor has one whose only dot comes
/// first.
pub proof fn law_files_without_extension(dir: Seq<char>, name: Seq<char>)
    requires
        !name.contains('.') && !name.contains('/'),
        name.len() > 0,
    ensures
        extension_of(dir.push('/') + name) is None,
        extension_of(dir.push('/') + (seq!['.'] + name)) is None,
        extension_of(name) is None,
        extension_of(seq!['.'] + name) is None,
{
    let hidden = seq!['.'] + name;
    assert(!hidden.contains('/')) by {
        if hidden.contains('/') {
            let k = choose|k: int| 0 <= k < hidden.len() && hidden[k] == '/';
            assert(name[k - 1] == '/');
        }
    }
    law_behind_the_last_mark(dir, name, '/');
    law_behind_the_last_mark(dir, hidden, '/');
    assert(hidden =~= Seq::<char>::empty().push('.') + name);
    law_behind_the_last_mark(Seq::empty(), name, '.');
    let last = name[name.len() - 1];
    assert(name.contains(last));
    let a = dir.push('/') + name;
    let b = dir.push('/') + hidden;
    assert(a[a.len() - 1] == last && b[b.len() - 1] == last && hidden[hidden.len() - 1] == last);
    assert(without_end_slashes(a) == a && without_end_slashes(b) == b);
    assert(without_end_slashes(name) == name && without_end_slashes(hidden) == hidden);
}

} // verus!
