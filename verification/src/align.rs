//! Which row of the new sheet belongs to which row of the old one.

use crate::cell::{cell_text, cell_to_string, Data, DataView};
use crate::fingerprint::{row_fingerprint, row_fingerprint_hex};
use crate::lcs::{
    is_common_subsequence, law_no_longer_common_subsequence, law_pairs_are_common, law_self_pairs,
    lcs_len, lcs_matches, lcs_pairs,
};
use vstd::hash_map::StringHashMap;
use vstd::prelude::*;

verus! {

/// What became of a row: matched, with its old and its new index; deleted, with
/// its old index; or added, with its new index.
#[derive(Clone, Copy, Debug, PartialEq, Eq, Structural)]
pub enum RowAlignment {
    Matched(usize, usize),
    Deleted(usize),
    Added(usize),
}

/// Whether an alignment speaks of rows that `n` old and `m` new rows have.
pub open spec fn alignment_in_bounds(alignment: RowAlignment, n: nat, m: nat) -> bool {
    match alignment {
        RowAlignment::Matched(o, w) => o < n && w < m,
        RowAlignment::Deleted(o) => o < n,
        RowAlignment::Added(w) => w < m,
    }
}

pub open spec fn in_bounds(alignments: Seq<RowAlignment>, n: nat, m: nat) -> bool {
    forall|k: int|
        0 <= k < alignments.len() ==> alignment_in_bounds(#[trigger] alignments[k], n, m)
}

/// The text of a row's cell in the key column.
pub open spec fn row_key(row: Seq<DataView>, key_index: usize) -> Option<Seq<char>> {
    if key_index < row.len() {
        Some(cell_text(row[key_index as int]))
    } else {
        None
    }
}

/// The last row with the key `key`.
pub open spec fn last_row_with_key(
    rows: Seq<Seq<DataView>>,
    key_index: usize,
    key: Seq<char>,
) -> Option<usize>
    decreases rows.len(),
{
    if rows.len() == 0 {
        None
    } else if row_key(rows.last(), key_index) == Some(key) {
        Some((rows.len() - 1) as usize)
    } else {
        last_row_with_key(rows.drop_last(), key_index, key)
    }
}

/// The old row that a new row is matched with: the last with its key. An empty key
/// is none.
pub open spec fn keyed_match(
    old: Seq<Seq<DataView>>,
    row: Seq<DataView>,
    key_index: usize,
) -> Option<usize> {
    match row_key(row, key_index) {
        Some(key) if key.len() > 0 => last_row_with_key(old, key_index, key),
        _ => None,
    }
}

/// What became of the new row `j`.
pub open spec fn keyed_new_row(
    old: Seq<Seq<DataView>>,
    new: Seq<Seq<DataView>>,
    key_index: usize,
    j: int,
) -> RowAlignment {
    match keyed_match(old, new[j], key_index) {
        Some(i) => RowAlignment::Matched(i, j as usize),
        None => RowAlignment::Added(j as usize),
    }
}

/// Whether a new row is matched with the old row `i`.
pub open spec fn has_match(
    old: Seq<Seq<DataView>>,
    new: Seq<Seq<DataView>>,
    key_index: usize,
    i: int,
) -> bool {
    exists|j: int|
        0 <= j < new.len() && keyed_match(old, #[trigger] new[j], key_index) == Some(i as usize)
}

/// The rows among the first `n` old ones that no new row is matched with.
pub open spec fn keyed_deletions(
    old: Seq<Seq<DataView>>,
    new: Seq<Seq<DataView>>,
    key_index: usize,
    n: nat,
) -> Seq<RowAlignment>
    decreases n,
{
    if n == 0 {
        Seq::empty()
    } else {
        let before = keyed_deletions(old, new, key_index, (n - 1) as nat);
        if has_match(old, new, key_index, n - 1) {
            before
        } else {
            before.push(RowAlignment::Deleted((n - 1) as usize))
        }
    }
}

/// The alignment by key: the new rows in order, then the old rows that are gone.
pub open spec fn keyed_alignment(
    old: Seq<Seq<DataView>>,
    new: Seq<Seq<DataView>>,
    key_index: usize,
) -> Seq<RowAlignment> {
    Seq::new(new.len(), |j: int| keyed_new_row(old, new, key_index, j)) + keyed_deletions(
        old,
        new,
        key_index,
        old.len(),
    )
}

/// The old rows from `a` up to `b`, deleted.
pub open spec fn deletions(a: nat, b: nat) -> Seq<RowAlignment> {
    Seq::new(
        if a < b {
            (b - a) as nat
        } else {
            0
        },
        |k: int| RowAlignment::Deleted((a + k) as usize),
    )
}

/// The new rows from `a` up to `b`, added.
pub open spec fn additions(a: nat, b: nat) -> Seq<RowAlignment> {
    Seq::new(
        if a < b {
            (b - a) as nat
        } else {
            0
        },
        |k: int| RowAlignment::Added((a + k) as usize),
    )
}

/// The first old row behind the matched pairs.
pub open spec fn next_old(pairs: Seq<(usize, usize)>) -> nat {
    if pairs.len() == 0 {
        0
    } else {
        (pairs.last().0 + 1) as nat
    }
}

/// The first new row behind the matched pairs.
pub open spec fn next_new(pairs: Seq<(usize, usize)>) -> nat {
    if pairs.len() == 0 {
        0
    } else {
        (pairs.last().1 + 1) as nat
    }
}

/// The matched pairs, each with the deleted and added rows that stand before it.
pub open spec fn woven_pairs(pairs: Seq<(usize, usize)>) -> Seq<RowAlignment>
    decreases pairs.len(),
{
    if pairs.len() == 0 {
        Seq::empty()
    } else {
        let before = pairs.drop_last();
        let (o, w) = pairs.last();
        (woven_pairs(before) + deletions(next_old(before), o as nat) + additions(
            next_new(before),
            w as nat,
        )).push(RowAlignment::Matched(o, w))
    }
}

/// The matched pairs with the deleted and added rows between and behind them.
pub open spec fn woven(pairs: Seq<(usize, usize)>, n: nat, m: nat) -> Seq<RowAlignment> {
    woven_pairs(pairs) + deletions(next_old(pairs), n) + additions(next_new(pairs), m)
}

/// Row for row, as far as both sides go.
pub open spec fn positional(n: nat, m: nat) -> Seq<RowAlignment> {
    Seq::new(
        if n >= m {
            n
        } else {
            m
        },
        |i: int|
            if i < n && i < m {
                RowAlignment::Matched(i as usize, i as usize)
            } else if i < n {
                RowAlignment::Deleted(i as usize)
            } else {
                RowAlignment::Added(i as usize)
            },
    )
}

/// Whether comparing each old with each new row takes more steps than allowed.
pub open spec fn too_many_pairs(n: nat, m: nat, pairwise_limit: usize) -> bool {
    n > 0 && m > 0 && n * m > pairwise_limit
}

/// The alignment by fingerprint: along a longest common subsequence, or position by
/// position where that takes too many steps.
pub open spec fn fingerprint_alignment(
    old: Seq<Seq<char>>,
    new: Seq<Seq<char>>,
    pairwise_limit: usize,
) -> Seq<RowAlignment> {
    if too_many_pairs(old.len(), new.len(), pairwise_limit) {
        positional(old.len(), new.len())
    } else {
        woven(lcs_pairs(old, new, old.len(), new.len()), old.len(), new.len())
    }
}

/// The fingerprints of rows.
pub open spec fn fingerprints(rows: Seq<Seq<DataView>>) -> Seq<Seq<char>> {
    rows.map_values(|row: Seq<DataView>| row_fingerprint(row))
}

/// The alignment of two sheets' rows: by key where a key column is given, else by
/// fingerprint.
pub open spec fn row_alignment(
    old: Seq<Seq<DataView>>,
    new: Seq<Seq<DataView>>,
    key_index: Option<usize>,
    pairwise_limit: usize,
) -> Seq<RowAlignment> {
    match key_index {
        Some(index) => keyed_alignment(old, new, index),
        None => fingerprint_alignment(fingerprints(old), fingerprints(new), pairwise_limit),
    }
}

proof fn lemma_last_row_with_key(rows: Seq<Seq<DataView>>, key_index: usize, key: Seq<char>)
    requires
        rows.len() <= usize::MAX,
    ensures
        match last_row_with_key(rows, key_index, key) {
            Some(i) => {
                &&& i < rows.len()
                &&& row_key(rows[i as int], key_index) == Some(key)
                &&& forall|k: int|
                    i < k < rows.len() ==> row_key(#[trigger] rows[k], key_index) != Some(key)
            },
            None => forall|k: int|
                0 <= k < rows.len() ==> row_key(#[trigger] rows[k], key_index) != Some(key),
        },
    decreases rows.len(),
{
    if rows.len() > 0 && row_key(rows.last(), key_index) != Some(key) {
        let t = rows.drop_last();
        lemma_last_row_with_key(t, key_index, key);
        assert forall|k: int| 0 <= k < t.len() implies t[k] == #[trigger] rows[k] by {}
    }
}

/// The key of a row.
fn key_text(row: &Vec<Data>, key_index: usize) -> (r: Option<String>)
    ensures
        r.deep_view() == row_key(row.deep_view(), key_index),
{
    if key_index < row.len() {
        Some(cell_to_string(&row[key_index]))
    } else {
        None
    }
}

fn index_by_key(rows: &[Vec<Data>], key_index: usize) -> (r: StringHashMap<usize>)
    ensures
        forall|key: Seq<char>|
            #![trigger r@.contains_key(key)]
            r@.contains_key(key) <==> key.len() > 0 && last_row_with_key(
                rows.deep_view(),
                key_index,
                key,
            ) is Some,
        forall|key: Seq<char>|
            #![trigger r@.contains_key(key)]
            r@.contains_key(key) ==> last_row_with_key(rows.deep_view(), key_index, key) == Some(
                r@[key],
            ),
{
    let ghost all = rows.deep_view();
    let mut map: StringHashMap<usize> = StringHashMap::new();
    let mut i: usize = 0;
    assert(all.take(0) =~= Seq::empty());
    while i < rows.len()
        invariant
            i <= rows.len(),
            all == rows.deep_view(),
            forall|key: Seq<char>|
                #![trigger map@.contains_key(key)]
                map@.contains_key(key) <==> key.len() > 0 && last_row_with_key(
                    all.take(i as int),
                    key_index,
                    key,
                ) is Some,
            forall|key: Seq<char>|
                #![trigger map@.contains_key(key)]
                map@.contains_key(key) ==> last_row_with_key(all.take(i as int), key_index, key)
                    == Some(map@[key]),
        decreases rows.len() - i,
    {
        let ghost before = map@;
        proof {
            assert(all.take(i + 1).drop_last() =~= all.take(i as int));
            assert(all.take(i + 1).last() == rows@[i as int].deep_view());
        }
        if let Some(key) = key_text(&rows[i], key_index) {
            if !key.as_str().is_empty() {
                map.insert(key, i);
            }
        }
        assert forall|key: Seq<char>| #![trigger map@.contains_key(key)]
            (map@.contains_key(key) <==> key.len() > 0 && last_row_with_key(
                all.take(i + 1),
                key_index,
                key,
            ) is Some) && (map@.contains_key(key) ==> last_row_with_key(
                all.take(i + 1),
                key_index,
                key,
            ) == Some(map@[key])) by {
            assert(before.contains_key(key) || !before.contains_key(key));
        }
        i = i + 1;
    }
    assert(all.take(all.len() as int) =~= all);
    map
}

fn align_by_key(old_grid: &[Vec<Data>], new_grid: &[Vec<Data>], key_index: usize) -> (r: Vec<
    RowAlignment,
>)
    ensures
        r@ == keyed_alignment(old_grid.deep_view(), new_grid.deep_view(), key_index),
{
    let ghost old = old_grid.deep_view();
    let ghost new = new_grid.deep_view();
    let map = index_by_key(old_grid, key_index);
    let n: usize = old_grid.len();
    let m: usize = new_grid.len();
    let mut matched: Vec<bool> = Vec::new();
    matched.resize(n, false);
    let mut alignments: Vec<RowAlignment> = Vec::new();
    let mut j: usize = 0;
    while j < m
        invariant
            j <= m,
            m == new_grid@.len(),
            n == old_grid@.len(),
            n == matched.len(),
            old == old_grid.deep_view(),
            new == new_grid.deep_view(),
            forall|key: Seq<char>|
                #![trigger map@.contains_key(key)]
                map@.contains_key(key) <==> key.len() > 0 && last_row_with_key(
                    old,
                    key_index,
                    key,
                ) is Some,
            forall|key: Seq<char>|
                #![trigger map@.contains_key(key)]
                map@.contains_key(key) ==> last_row_with_key(old, key_index, key) == Some(
                    map@[key],
                ),
            alignments@ == Seq::new(j as nat, |k: int| keyed_new_row(old, new, key_index, k)),
            forall|i: int|
                0 <= i < n ==> (#[trigger] matched@[i] <==> has_match(
                    old,
                    new.take(j as int),
                    key_index,
                    i,
                )),
        decreases m - j,
    {
        let key = key_text(&new_grid[j], key_index);
        assert(new[j as int] == new_grid@[j as int].deep_view());
        let mut found: Option<usize> = None;
        if let Some(key) = key {
            if let Some(old_index) = map.get(key.as_str()) {
                found = Some(*old_index);
            }
        }
        assert(found == keyed_match(old, new[j as int], key_index));
        let ghost before = matched@;
        proof {
            if let Some(i) = found {
                lemma_last_row_with_key(old, key_index, row_key(new[j as int], key_index)->0);
            }
        }
        match found {
            Some(i) => {
                alignments.push(RowAlignment::Matched(i, j));
                matched.set(i, true);
            },
            None => {
                alignments.push(RowAlignment::Added(j));
            },
        }
        proof {
            let shorter = new.take(j as int);
            let longer = new.take(j + 1);
            assert forall|i: int| 0 <= i < n implies (#[trigger] matched@[i] <==> has_match(
                old,
                longer,
                key_index,
                i,
            )) by {
                if before[i] {
                    let k = choose|k: int|
                        0 <= k < shorter.len() && keyed_match(old, #[trigger] shorter[k], key_index)
                            == Some(i as usize);
                    assert(longer[k] == shorter[k]);
                }
                if found == Some(i as usize) {
                    assert(longer[j as int] == new[j as int]);
                }
                if has_match(old, longer, key_index, i) {
                    let k = choose|k: int|
                        0 <= k < longer.len() && keyed_match(old, #[trigger] longer[k], key_index)
                            == Some(i as usize);
                    if k < j {
                        assert(shorter[k] == longer[k]);
                    }
                }
            }
            assert(alignments@ =~= Seq::new(
                (j + 1) as nat,
                |k: int| keyed_new_row(old, new, key_index, k),
            ));
        }
        j = j + 1;
    }
    assert(new.take(new.len() as int) =~= new);
    let ghost head = alignments@;
    let mut i: usize = 0;
    assert(alignments@ =~= head + keyed_deletions(old, new, key_index, 0));
    while i < n
        invariant
            i <= n,
            n == matched.len(),
            forall|k: int|
                0 <= k < n ==> (#[trigger] matched@[k] <==> has_match(old, new, key_index, k)),
            alignments@ == head + keyed_deletions(old, new, key_index, i as nat),
        decreases n - i,
    {
        if !matched[i] {
            alignments.push(RowAlignment::Deleted(i));
        }
        assert(alignments@ =~= head + keyed_deletions(old, new, key_index, (i + 1) as nat));
        i = i + 1;
    }
    alignments
}

fn push_deletions(alignments: &mut Vec<RowAlignment>, from: usize, to: usize)
    ensures
        final(alignments)@ == old(alignments)@ + deletions(from as nat, to as nat),
{
    let ghost before = alignments@;
    let mut i: usize = from;
    assert(alignments@ =~= before + deletions(from as nat, i as nat));
    while i < to
        invariant
            from <= i,
            i <= to || i == from,
            alignments@ == before + deletions(from as nat, i as nat),
        decreases to - i,
    {
        alignments.push(RowAlignment::Deleted(i));
        i = i + 1;
        assert(alignments@ =~= before + deletions(from as nat, i as nat));
    }
    assert(alignments@ =~= before + deletions(from as nat, to as nat));
}

fn push_additions(alignments: &mut Vec<RowAlignment>, from: usize, to: usize)
    ensures
        final(alignments)@ == old(alignments)@ + additions(from as nat, to as nat),
{
    let ghost before = alignments@;
    let mut i: usize = from;
    assert(alignments@ =~= before + additions(from as nat, i as nat));
    while i < to
        invariant
            from <= i,
            i <= to || i == from,
            alignments@ == before + additions(from as nat, i as nat),
        decreases to - i,
    {
        alignments.push(RowAlignment::Added(i));
        i = i + 1;
        assert(alignments@ =~= before + additions(from as nat, i as nat));
    }
    assert(alignments@ =~= before + additions(from as nat, to as nat));
}

/// Weaves deleted and added rows in between matched pairs of rows.
fn weave(pairs: &Vec<(usize, usize)>, n: usize, m: usize) -> (r: Vec<RowAlignment>)
    requires
        forall|k: int|
            0 <= k < pairs@.len() ==> (#[trigger] pairs@[k]).0 < n && pairs@[k].1 < m,
    ensures
        r@ == woven(pairs@, n as nat, m as nat),
{
    let mut alignments: Vec<RowAlignment> = Vec::new();
    let mut old_index: usize = 0;
    let mut new_index: usize = 0;
    let mut k: usize = 0;
    assert(pairs@.take(0) =~= Seq::empty());
    while k < pairs.len()
        invariant
            k <= pairs.len(),
            forall|x: int|
                0 <= x < pairs@.len() ==> (#[trigger] pairs@[x]).0 < n && pairs@[x].1 < m,
            old_index == next_old(pairs@.take(k as int)),
            new_index == next_new(pairs@.take(k as int)),
            alignments@ == woven_pairs(pairs@.take(k as int)),
        decreases pairs.len() - k,
    {
        let (o, w) = pairs[k];
        proof {
            assert(pairs@.take(k + 1).drop_last() =~= pairs@.take(k as int));
            assert(pairs@.take(k + 1).last() == (o, w));
            assert(pairs@[k as int] == (o, w));
        }
        push_deletions(&mut alignments, old_index, o);
        push_additions(&mut alignments, new_index, w);
        alignments.push(RowAlignment::Matched(o, w));
        old_index = o + 1;
        new_index = w + 1;
        k = k + 1;
    }
    assert(pairs@.take(pairs@.len() as int) =~= pairs@);
    push_deletions(&mut alignments, old_index, n);
    push_additions(&mut alignments, new_index, m);
    alignments
}

fn align_by_position(n: usize, m: usize) -> (r: Vec<RowAlignment>)
    ensures
        r@ == positional(n as nat, m as nat),
{
    let max: usize = if n >= m {
        n
    } else {
        m
    };
    let mut alignments: Vec<RowAlignment> = Vec::new();
    let mut i: usize = 0;
    while i < max
        invariant
            i <= max,
            max == positional(n as nat, m as nat).len(),
            alignments@ == positional(n as nat, m as nat).take(i as int),
        decreases max - i,
    {
        if i < n && i < m {
            alignments.push(RowAlignment::Matched(i, i));
        } else if i < n {
            alignments.push(RowAlignment::Deleted(i));
        } else {
            alignments.push(RowAlignment::Added(i));
        }
        i = i + 1;
        assert(alignments@ =~= positional(n as nat, m as nat).take(i as int));
    }
    assert(alignments@ =~= positional(n as nat, m as nat));
    alignments
}

/// Aligns rows by their fingerprints.
pub fn align_by_fingerprints(old_fps: &[String], new_fps: &[String], pairwise_limit: usize) -> (r:
    Vec<RowAlignment>)
    ensures
        r@ == fingerprint_alignment(old_fps.deep_view(), new_fps.deep_view(), pairwise_limit),
{
    let n: usize = old_fps.len();
    let m: usize = new_fps.len();
    match lcs_matches(old_fps, new_fps, pairwise_limit) {
        Some(pairs) => {
            proof {
                law_pairs_are_common(
                    old_fps.deep_view(),
                    new_fps.deep_view(),
                    n as nat,
                    m as nat,
                );
            }
            weave(&pairs, n, m)
        },
        None => align_by_position(n, m),
    }
}

fn fingerprints_of(rows: &[Vec<Data>]) -> (r: Vec<String>)
    ensures
        r.deep_view() == fingerprints(rows.deep_view()),
{
    let ghost expected = fingerprints(rows.deep_view());
    let mut out: Vec<String> = Vec::new();
    let mut i: usize = 0;
    while i < rows.len()
        invariant
            i <= rows.len(),
            out.len() == i,
            expected == fingerprints(rows.deep_view()),
            forall|k: int| 0 <= k < i ==> (#[trigger] out@[k])@ == expected[k],
        decreases rows.len() - i,
    {
        assert(expected[i as int] == row_fingerprint(rows@[i as int].deep_view()));
        out.push(row_fingerprint_hex(rows[i].as_slice()));
        i = i + 1;
    }
    assert(out.deep_view() =~= expected);
    out
}

/// Aligns the rows of two sheets: by the key column, where one is given, else by
/// the fingerprints of the rows.
pub fn align_matrices(
    old_grid: &[Vec<Data>],
    new_grid: &[Vec<Data>],
    key_index: Option<usize>,
    pairwise_limit: usize,
) -> (r: Vec<RowAlignment>)
    ensures
        r@ == row_alignment(
            old_grid.deep_view(),
            new_grid.deep_view(),
            key_index,
            pairwise_limit,
        ),
        in_bounds(r@, old_grid@.len(), new_grid@.len()),
{
    proof {
        assert(old_grid.deep_view().len() == old_grid.len());
        assert(new_grid.deep_view().len() == new_grid.len());
        law_alignment_in_bounds(
            old_grid.deep_view(),
            new_grid.deep_view(),
            key_index,
            pairwise_limit,
        );
    }
    match key_index {
        Some(index) => align_by_key(old_grid, new_grid, index),
        None => {
            let old_fps = fingerprints_of(old_grid);
            let new_fps = fingerprints_of(new_grid);
            align_by_fingerprints(old_fps.as_slice(), new_fps.as_slice(), pairwise_limit)
        },
    }
}

/// Pairs that increase on both sides and stay below `n` and `m`.
pub open spec fn ordered_pairs(pairs: Seq<(usize, usize)>, n: nat, m: nat) -> bool {
    &&& forall|k: int| 0 <= k < pairs.len() ==> (#[trigger] pairs[k]).0 < n && pairs[k].1 < m
    &&& forall|k: int, l: int|
        0 <= k < l < pairs.len() ==> (#[trigger] pairs[k]).0 < (#[trigger] pairs[l]).0 && pairs[k].1
            < pairs[l].1
}

proof fn lemma_woven_pairs_in_bounds(pairs: Seq<(usize, usize)>, n: nat, m: nat)
    requires
        ordered_pairs(pairs, n, m),
    ensures
        in_bounds(woven_pairs(pairs), n, m),
    decreases pairs.len(),
{
    if pairs.len() > 0 {
        let before = pairs.drop_last();
        assert forall|k: int| 0 <= k < before.len() implies before[k] == #[trigger] pairs[k] by {}
        lemma_woven_pairs_in_bounds(before, n, m);
        assert(pairs[pairs.len() - 1] == pairs.last());
    }
}

proof fn lemma_keyed_deletions_in_bounds(
    old: Seq<Seq<DataView>>,
    new: Seq<Seq<DataView>>,
    key_index: usize,
    n: nat,
)
    requires
        n <= old.len() <= usize::MAX,
    ensures
        in_bounds(keyed_deletions(old, new, key_index, n), old.len(), new.len()),
    decreases n,
{
    if n > 0 {
        lemma_keyed_deletions_in_bounds(old, new, key_index, (n - 1) as nat);
    }
}

/// An alignment speaks only of rows that the sheets have.
pub proof fn law_alignment_in_bounds(
    old: Seq<Seq<DataView>>,
    new: Seq<Seq<DataView>>,
    key_index: Option<usize>,
    pairwise_limit: usize,
)
    requires
        old.len() <= usize::MAX,
        new.len() <= usize::MAX,
    ensures
        in_bounds(
            row_alignment(old, new, key_index, pairwise_limit),
            old.len(),
            new.len(),
        ),
{
    let n = old.len();
    let m = new.len();
    match key_index {
        Some(index) => {
            lemma_keyed_deletions_in_bounds(old, new, index, n);
            let head = Seq::new(m, |j: int| keyed_new_row(old, new, index, j));
            assert forall|j: int| 0 <= j < m implies alignment_in_bounds(
                #[trigger] head[j],
                n,
                m,
            ) by {
                if let Some(i) = keyed_match(old, new[j], index) {
                    lemma_last_row_with_key(old, index, row_key(new[j], index)->0);
                }
            }
        },
        None => {
            let a = fingerprints(old);
            let b = fingerprints(new);
            let pairs = lcs_pairs(a, b, n, m);
            law_pairs_are_common(a, b, n, m);
            lemma_woven_pairs_in_bounds(pairs, n, m);
        },
    }
}

/// The old rows of which an alignment speaks, in its order.
pub open spec fn old_rows(alignments: Seq<RowAlignment>) -> Seq<usize>
    decreases alignments.len(),
{
    if alignments.len() == 0 {
        Seq::empty()
    } else {
        match alignments.last() {
            RowAlignment::Matched(o, _) => old_rows(alignments.drop_last()).push(o),
            RowAlignment::Deleted(o) => old_rows(alignments.drop_last()).push(o),
            RowAlignment::Added(_) => old_rows(alignments.drop_last()),
        }
    }
}

/// The new rows of which an alignment speaks, in its order.
pub open spec fn new_rows(alignments: Seq<RowAlignment>) -> Seq<usize>
    decreases alignments.len(),
{
    if alignments.len() == 0 {
        Seq::empty()
    } else {
        match alignments.last() {
            RowAlignment::Matched(_, w) => new_rows(alignments.drop_last()).push(w),
            RowAlignment::Deleted(_) => new_rows(alignments.drop_last()),
            RowAlignment::Added(w) => new_rows(alignments.drop_last()).push(w),
        }
    }
}

/// The indices from `a` up to `b`.
pub open spec fn index_range(a: nat, b: nat) -> Seq<usize> {
    Seq::new(
        if a < b {
            (b - a) as nat
        } else {
            0
        },
        |k: int| (a + k) as usize,
    )
}

proof fn lemma_rows_of_concatenation(s: Seq<RowAlignment>, t: Seq<RowAlignment>)
    ensures
        old_rows(s + t) == old_rows(s) + old_rows(t),
        new_rows(s + t) == new_rows(s) + new_rows(t),
    decreases t.len(),
{
    if t.len() == 0 {
        assert(s + t =~= s);
    } else {
        lemma_rows_of_concatenation(s, t.drop_last());
        assert((s + t).drop_last() =~= s + t.drop_last());
        assert((s + t).last() == t.last());
    }
    assert(old_rows(s + t) =~= old_rows(s) + old_rows(t));
    assert(new_rows(s + t) =~= new_rows(s) + new_rows(t));
}

proof fn lemma_rows_of_deletions(a: nat, b: nat)
    ensures
        old_rows(deletions(a, b)) == index_range(a, b),
        new_rows(deletions(a, b)) == Seq::<usize>::empty(),
    decreases b,
{
    if a < b {
        lemma_rows_of_deletions(a, (b - 1) as nat);
        assert(deletions(a, b).drop_last() =~= deletions(a, (b - 1) as nat));
    }
    assert(old_rows(deletions(a, b)) =~= index_range(a, b));
}

proof fn lemma_rows_of_additions(a: nat, b: nat)
    ensures
        old_rows(additions(a, b)) == Seq::<usize>::empty(),
        new_rows(additions(a, b)) == index_range(a, b),
    decreases b,
{
    if a < b {
        lemma_rows_of_additions(a, (b - 1) as nat);
        assert(additions(a, b).drop_last() =~= additions(a, (b - 1) as nat));
    }
    assert(new_rows(additions(a, b)) =~= index_range(a, b));
}

proof fn lemma_rows_of_woven_pairs(pairs: Seq<(usize, usize)>, n: nat, m: nat)
    requires
        ordered_pairs(pairs, n, m),
    ensures
        next_old(pairs) <= n,
        next_new(pairs) <= m,
        old_rows(woven_pairs(pairs)) == index_range(0, next_old(pairs)),
        new_rows(woven_pairs(pairs)) == index_range(0, next_new(pairs)),
    decreases pairs.len(),
{
    if pairs.len() > 0 {
        let before = pairs.drop_last();
        let (o, w) = pairs.last();
        assert(pairs[pairs.len() - 1] == (o, w));
        assert forall|k: int| 0 <= k < before.len() implies before[k] == #[trigger] pairs[k] by {}
        lemma_rows_of_woven_pairs(before, n, m);
        if before.len() > 0 {
            assert(before.last() == pairs[pairs.len() - 2]);
        }
        let x = woven_pairs(before);
        let d = deletions(next_old(before), o as nat);
        let a = additions(next_new(before), w as nat);
        lemma_rows_of_concatenation(x, d);
        lemma_rows_of_concatenation(x + d, a);
        lemma_rows_of_deletions(next_old(before), o as nat);
        lemma_rows_of_additions(next_new(before), w as nat);
        assert(woven_pairs(pairs).drop_last() =~= x + d + a);
        assert(old_rows(woven_pairs(pairs)) =~= index_range(0, next_old(pairs)));
        assert(new_rows(woven_pairs(pairs)) =~= index_range(0, next_new(pairs)));
    } else {
        assert(old_rows(woven_pairs(pairs)) =~= index_range(0, 0));
        assert(new_rows(woven_pairs(pairs)) =~= index_range(0, 0));
    }
}

proof fn lemma_rows_of_positional(n: nat, m: nat, k: nat)
    requires
        k <= positional(n, m).len(),
    ensures
        old_rows(positional(n, m).take(k as int)) == index_range(
            0,
            if k <= n {
                k
            } else {
                n
            },
        ),
        new_rows(positional(n, m).take(k as int)) == index_range(
            0,
            if k <= m {
                k
            } else {
                m
            },
        ),
    decreases k,
{
    let s = positional(n, m).take(k as int);
    if k > 0 {
        lemma_rows_of_positional(n, m, (k - 1) as nat);
        assert(s.drop_last() =~= positional(n, m).take(k - 1));
        assert(s.last() == positional(n, m)[k - 1]);
    }
    assert(old_rows(s) =~= index_range(
        0,
        if k <= n {
            k
        } else {
            n
        },
    ));
    assert(new_rows(s) =~= index_range(
        0,
        if k <= m {
            k
        } else {
            m
        },
    ));
}

/// Without a key column an alignment speaks of each old row once and of each new
/// row once, and of both in their order.
pub proof fn law_fingerprint_alignment_is_complete(
    old: Seq<Seq<char>>,
    new: Seq<Seq<char>>,
    pairwise_limit: usize,
)
    requires
        old.len() <= usize::MAX,
        new.len() <= usize::MAX,
    ensures
        old_rows(fingerprint_alignment(old, new, pairwise_limit)) == index_range(0, old.len()),
        new_rows(fingerprint_alignment(old, new, pairwise_limit)) == index_range(0, new.len()),
{
    let n = old.len();
    let m = new.len();
    if too_many_pairs(n, m, pairwise_limit) {
        let s = positional(n, m);
        lemma_rows_of_positional(n, m, s.len());
        assert(s.take(s.len() as int) =~= s);
    } else {
        let pairs = lcs_pairs(old, new, n, m);
        law_pairs_are_common(old, new, n, m);
        lemma_rows_of_woven_pairs(pairs, n, m);
        let x = woven_pairs(pairs);
        let d = deletions(next_old(pairs), n);
        let a = additions(next_new(pairs), m);
        lemma_rows_of_concatenation(x, d);
        lemma_rows_of_concatenation(x + d, a);
        lemma_rows_of_deletions(next_old(pairs), n);
        lemma_rows_of_additions(next_new(pairs), m);
        assert(old_rows(woven(pairs, n, m)) =~= index_range(0, n));
        assert(new_rows(woven(pairs, n, m)) =~= index_range(0, m));
    }
}

/// The matched rows of an alignment.
pub open spec fn matched_rows(alignments: Seq<RowAlignment>) -> Seq<(usize, usize)>
    decreases alignments.len(),
{
    if alignments.len() == 0 {
        Seq::empty()
    } else {
        match alignments.last() {
            RowAlignment::Matched(o, w) => matched_rows(alignments.drop_last()).push((o, w)),
            _ => matched_rows(alignments.drop_last()),
        }
    }
}

proof fn lemma_no_matches_appended(s: Seq<RowAlignment>, t: Seq<RowAlignment>)
    requires
        forall|k: int| 0 <= k < t.len() ==> !(#[trigger] t[k] is Matched),
    ensures
        matched_rows(s + t) == matched_rows(s),
    decreases t.len(),
{
    if t.len() == 0 {
        assert(s + t =~= s);
    } else {
        let u = t.drop_last();
        assert forall|k: int| 0 <= k < u.len() implies !(#[trigger] u[k] is Matched) by {
            assert(u[k] == t[k]);
        }
        lemma_no_matches_appended(s, u);
        assert((s + t).drop_last() =~= s + u);
        assert((s + t).last() == t[t.len() - 1]);
    }
}

proof fn lemma_matches_of_woven_pairs(pairs: Seq<(usize, usize)>)
    ensures
        matched_rows(woven_pairs(pairs)) == pairs,
    decreases pairs.len(),
{
    if pairs.len() > 0 {
        let before = pairs.drop_last();
        let (o, w) = pairs.last();
        lemma_matches_of_woven_pairs(before);
        let x = woven_pairs(before);
        let d = deletions(next_old(before), o as nat);
        let a = additions(next_new(before), w as nat);
        lemma_no_matches_appended(x, d);
        lemma_no_matches_appended(x + d, a);
        assert(woven_pairs(pairs).drop_last() =~= x + d + a);
    }
    assert(matched_rows(woven_pairs(pairs)) =~= pairs);
}

/// Where the number of pairs allows it, the rows that are matched without a key
/// column are a common subsequence of the fingerprints, and none is longer.
pub proof fn law_matches_are_a_longest_common_subsequence(
    old: Seq<Seq<char>>,
    new: Seq<Seq<char>>,
    pairwise_limit: usize,
)
    requires
        old.len() <= usize::MAX,
        new.len() <= usize::MAX,
        !too_many_pairs(old.len(), new.len(), pairwise_limit),
    ensures
        ({
            let pairs = matched_rows(fingerprint_alignment(old, new, pairwise_limit));
            &&& is_common_subsequence(old, new, old.len(), new.len(), pairs)
            &&& pairs.len() == lcs_len(old, new, old.len(), new.len())
        }),
{
    let n = old.len();
    let m = new.len();
    let pairs = lcs_pairs(old, new, n, m);
    law_pairs_are_common(old, new, n, m);
    lemma_matches_of_woven_pairs(pairs);
    let x = woven_pairs(pairs);
    let d = deletions(next_old(pairs), n);
    let a = additions(next_new(pairs), m);
    lemma_no_matches_appended(x, d);
    lemma_no_matches_appended(x + d, a);
}

proof fn lemma_woven_diagonal(n: nat)
    requires
        n <= usize::MAX,
    ensures
        woven_pairs(Seq::new(n, |k: int| (k as usize, k as usize))) == Seq::new(
            n,
            |k: int| RowAlignment::Matched(k as usize, k as usize),
        ),
    decreases n,
{
    let pairs = Seq::new(n, |k: int| (k as usize, k as usize));
    if n > 0 {
        let before = Seq::new((n - 1) as nat, |k: int| (k as usize, k as usize));
        assert(pairs.drop_last() =~= before);
        lemma_woven_diagonal((n - 1) as nat);
        if n > 1 {
            assert(before.last() == ((n - 2) as usize, (n - 2) as usize));
        }
        assert(deletions(next_old(before), (n - 1) as nat) =~= Seq::empty());
        assert(additions(next_new(before), (n - 1) as nat) =~= Seq::empty());
    }
    assert(woven_pairs(pairs) =~= Seq::new(
        n,
        |k: int| RowAlignment::Matched(k as usize, k as usize),
    ));
}

/// Rows aligned with themselves by fingerprint: each is matched with itself.
pub proof fn law_rows_match_themselves(rows: Seq<Seq<char>>, pairwise_limit: usize)
    requires
        rows.len() <= usize::MAX,
    ensures
        fingerprint_alignment(rows, rows, pairwise_limit) == Seq::new(
            rows.len(),
            |k: int| RowAlignment::Matched(k as usize, k as usize),
        ),
{
    let n = rows.len();
    let diagonal = Seq::new(n, |k: int| RowAlignment::Matched(k as usize, k as usize));
    if too_many_pairs(n, n, pairwise_limit) {
        assert(positional(n, n) =~= diagonal);
    } else {
        let pairs = Seq::new(n, |k: int| (k as usize, k as usize));
        law_self_pairs(rows, n);
        lemma_woven_diagonal(n);
        if n > 0 {
            assert(pairs.last() == ((n - 1) as usize, (n - 1) as usize));
        }
        assert(woven(pairs, n, n) =~= diagonal);
    }
}

proof fn lemma_keyed_deletions(
    old: Seq<Seq<DataView>>,
    new: Seq<Seq<DataView>>,
    key_index: usize,
    n: nat,
)
    requires
        n <= old.len() <= usize::MAX,
    ensures
        new_rows(keyed_deletions(old, new, key_index, n)) == Seq::<usize>::empty(),
        forall|i: usize|
            #[trigger] keyed_deletions(old, new, key_index, n).contains(RowAlignment::Deleted(i))
                <==> i < n && !has_match(old, new, key_index, i as int),
        keyed_deletions(old, new, key_index, n).no_duplicates(),
        forall|k: int|
            0 <= k < keyed_deletions(old, new, key_index, n).len() ==> (
            #[trigger] keyed_deletions(old, new, key_index, n)[k]) is Deleted,
    decreases n,
{
    if n > 0 {
        let before = keyed_deletions(old, new, key_index, (n - 1) as nat);
        let all = keyed_deletions(old, new, key_index, n);
        let last = RowAlignment::Deleted((n - 1) as usize);
        lemma_keyed_deletions(old, new, key_index, (n - 1) as nat);
        if !has_match(old, new, key_index, n - 1) {
            assert(all.drop_last() =~= before);
            assert(!before.contains(last));
            assert forall|i: usize|
                #[trigger] all.contains(RowAlignment::Deleted(i)) <==> i < n && !has_match(
                    old,
                    new,
                    key_index,
                    i as int,
                ) by {
                let d = RowAlignment::Deleted(i);
                if all.contains(d) {
                    let k = choose|k: int| 0 <= k < all.len() && all[k] == d;
                    if k < before.len() {
                        assert(before[k] == d);
                    }
                }
                if before.contains(d) {
                    let k = choose|k: int| 0 <= k < before.len() && before[k] == d;
                    assert(all[k] == d);
                }
                if i == n - 1 {
                    assert(all[all.len() - 1] == d);
                }
            }
            assert forall|x: int, y: int|
                0 <= x < all.len() && 0 <= y < all.len() && x != y implies all[x] != all[y] by {
                if x < before.len() {
                    assert(before.contains(before[x]));
                }
                if y < before.len() {
                    assert(before.contains(before[y]));
                }
            }
        }
    }
}

proof fn lemma_new_rows_of_head(
    old: Seq<Seq<DataView>>,
    new: Seq<Seq<DataView>>,
    key_index: usize,
    m: nat,
)
    ensures
        new_rows(Seq::new(m, |j: int| keyed_new_row(old, new, key_index, j))) == index_range(0, m),
    decreases m,
{
    let head = Seq::new(m, |j: int| keyed_new_row(old, new, key_index, j));
    if m > 0 {
        lemma_new_rows_of_head(old, new, key_index, (m - 1) as nat);
        assert(head.drop_last() =~= Seq::new(
            (m - 1) as nat,
            |j: int| keyed_new_row(old, new, key_index, j),
        ));
    }
    assert(new_rows(head) =~= index_range(0, m));
}

/// With a key column an alignment speaks of each new row once, in order; and of
/// each old row it says either that it is gone, once, or which new rows it is
/// matched with.
pub proof fn law_keyed_alignment_is_complete(
    old: Seq<Seq<DataView>>,
    new: Seq<Seq<DataView>>,
    key_index: usize,
    i: usize,
)
    requires
        i < old.len() <= usize::MAX,
        new.len() <= usize::MAX,
    ensures
        new_rows(keyed_alignment(old, new, key_index)) == index_range(0, new.len()),
        keyed_alignment(old, new, key_index).contains(RowAlignment::Deleted(i)) <==> !(exists|
            j: usize,
        |
            #[trigger] keyed_alignment(old, new, key_index).contains(RowAlignment::Matched(i, j))),
        keyed_alignment(old, new, key_index).no_duplicates(),
{
    let n = old.len();
    let m = new.len();
    let head = Seq::new(m, |j: int| keyed_new_row(old, new, key_index, j));
    let tail = keyed_deletions(old, new, key_index, n);
    let all = keyed_alignment(old, new, key_index);
    lemma_keyed_deletions(old, new, key_index, n);
    lemma_new_rows_of_head(old, new, key_index, m);
    lemma_rows_of_concatenation(head, tail);
    assert(new_rows(all) =~= index_range(0, m));
    let gone = RowAlignment::Deleted(i);
    if all.contains(gone) {
        let k = choose|k: int| 0 <= k < all.len() && all[k] == gone;
        assert(k >= m);
        assert(tail[k - m] == gone);
        assert(tail.contains(gone));
    }
    if !has_match(old, new, key_index, i as int) {
        assert(tail.contains(gone));
        let k = choose|k: int| 0 <= k < tail.len() && tail[k] == gone;
        assert(all[m + k] == gone);
        assert forall|j: usize| !(#[trigger] all.contains(RowAlignment::Matched(i, j))) by {
            if all.contains(RowAlignment::Matched(i, j)) {
                let k = choose|k: int|
                    0 <= k < all.len() && all[k] == RowAlignment::Matched(i, j);
                if k >= m {
                    assert(tail[k - m] is Deleted);
                }
                assert(keyed_match(old, new[k], key_index) == Some(i));
            }
        }
    } else {
        let j = choose|j: int|
            0 <= j < m && keyed_match(old, #[trigger] new[j], key_index) == Some(i as usize);
        assert(all[j] == RowAlignment::Matched(i, j as usize));
        assert(all.contains(RowAlignment::Matched(i, j as usize)));
    }
    assert forall|x: int, y: int|
        0 <= x < all.len() && 0 <= y < all.len() && x != y implies all[x] != all[y] by {
        if x >= m && y >= m {
            assert(tail[x - m] != tail[y - m]);
        } else if x >= m {
            assert(tail[x - m] is Deleted);
        } else if y >= m {
            assert(tail[y - m] is Deleted);
        }
    }
}

/// Rows that are matched by key have the same key, which is not empty; and no later
/// old row has that key.
pub proof fn law_keyed_matches_share_their_key(
    old: Seq<Seq<DataView>>,
    new: Seq<Seq<DataView>>,
    key_index: usize,
    i: usize,
    j: usize,
)
    requires
        old.len() <= usize::MAX,
        new.len() <= usize::MAX,
        keyed_alignment(old, new, key_index).contains(RowAlignment::Matched(i, j)),
    ensures
        i < old.len(),
        j < new.len(),
        row_key(new[j as int], key_index) is Some,
        row_key(new[j as int], key_index)->0.len() > 0,
        row_key(old[i as int], key_index) == row_key(new[j as int], key_index),
        forall|k: int|
            i < k < old.len() ==> row_key(#[trigger] old[k], key_index) != row_key(
                new[j as int],
                key_index,
            ),
{
    let all = keyed_alignment(old, new, key_index);
    let tail = keyed_deletions(old, new, key_index, old.len());
    lemma_keyed_deletions(old, new, key_index, old.len());
    let k = choose|k: int| 0 <= k < all.len() && all[k] == RowAlignment::Matched(i, j);
    if k >= new.len() {
        assert(tail[k - new.len()] is Deleted);
    }
    assert(keyed_match(old, new[k], key_index) == Some(i));
    lemma_last_row_with_key(old, key_index, row_key(new[k], key_index)->0);
}

/// Whether no two rows have the same key; rows without a key do not count.
pub open spec fn keys_are_unique(rows: Seq<Seq<DataView>>, key_index: usize) -> bool {
    forall|x: int, y: int|
        0 <= x < rows.len() && 0 <= y < rows.len() && x != y && has_key(rows[x], key_index)
            ==> row_key(#[trigger] rows[x], key_index) != row_key(#[trigger] rows[y], key_index)
}

/// Whether a row has a key: a text in the key column that is not empty.
pub open spec fn has_key(row: Seq<DataView>, key_index: usize) -> bool {
    row_key(row, key_index) matches Some(key) && key.len() > 0
}

/// Where the keys of the old rows are unique, rows are matched exactly if they have
/// the same key, wherever they stand.
pub proof fn law_unique_keys_decide(
    old: Seq<Seq<DataView>>,
    new: Seq<Seq<DataView>>,
    key_index: usize,
    i: usize,
    j: usize,
)
    requires
        i < old.len() <= usize::MAX,
        j < new.len() <= usize::MAX,
        keys_are_unique(old, key_index),
    ensures
        keyed_alignment(old, new, key_index).contains(RowAlignment::Matched(i, j)) <==> has_key(
            new[j as int],
            key_index,
        ) && row_key(old[i as int], key_index) == row_key(new[j as int], key_index),
{
    let all = keyed_alignment(old, new, key_index);
    if all.contains(RowAlignment::Matched(i, j)) {
        law_keyed_matches_share_their_key(old, new, key_index, i, j);
    }
    if has_key(new[j as int], key_index) && row_key(old[i as int], key_index) == row_key(
        new[j as int],
        key_index,
    ) {
        let key = row_key(new[j as int], key_index)->0;
        lemma_last_row_with_key(old, key_index, key);
        assert(row_key(old[i as int], key_index) == Some(key));
        let found = last_row_with_key(old, key_index, key)->0;
        assert(found == i) by {
            if found != i {
                assert(row_key(old[found as int], key_index) != row_key(
                    old[i as int],
                    key_index,
                ));
            }
        }
        assert(all[j as int] == RowAlignment::Matched(i, j));
    }
}

/// Rows with unique keys, aligned with themselves by key: each is matched with
/// itself.
pub proof fn law_keyed_rows_match_themselves(rows: Seq<Seq<DataView>>, key_index: usize)
    requires
        rows.len() <= usize::MAX,
        fully_keyed(rows, key_index),
    ensures
        keyed_alignment(rows, rows, key_index) == Seq::new(
            rows.len(),
            |k: int| RowAlignment::Matched(k as usize, k as usize),
        ),
{
    let n = rows.len();
    let head = Seq::new(n, |j: int| keyed_new_row(rows, rows, key_index, j));
    let tail = keyed_deletions(rows, rows, key_index, n);
    let all = keyed_alignment(rows, rows, key_index);
    assert forall|j: int| 0 <= j < n implies #[trigger] all[j] == RowAlignment::Matched(
        j as usize,
        j as usize,
    ) && has_match(rows, rows, key_index, j) by {
        assert(has_key(rows[j], key_index));
        let key = row_key(rows[j], key_index)->0;
        lemma_last_row_with_key(rows, key_index, key);
        let found = last_row_with_key(rows, key_index, key)->0;
        assert(found == j) by {
            if found != j {
                assert(row_key(rows[found as int], key_index) != row_key(rows[j], key_index));
            }
        }
        assert(keyed_match(rows, rows[j], key_index) == Some(j as usize));
    }
    lemma_keyed_deletions(rows, rows, key_index, n);
    assert(tail.len() == 0) by {
        if tail.len() > 0 {
            assert(tail[0] is Deleted);
            let i = tail[0]->Deleted_0;
            assert(tail.contains(RowAlignment::Deleted(i)));
            assert(all[i as int] == RowAlignment::Matched(i, i));
        }
    }
    assert(all =~= Seq::new(n, |k: int| RowAlignment::Matched(k as usize, k as usize)));
}

/// Whether every row has a key, and no other row has the same.
pub open spec fn fully_keyed(rows: Seq<Seq<DataView>>, key_index: usize) -> bool {
    &&& keys_are_unique(rows, key_index)
    &&& forall|i: int| 0 <= i < rows.len() ==> has_key(#[trigger] rows[i], key_index)
}

/// A sheet's rows, aligned with themselves: each is matched with itself. With a key
/// column this takes a key in each row, and no key twice.
pub proof fn law_sheet_aligns_with_itself(
    rows: Seq<Seq<DataView>>,
    key_index: Option<usize>,
    pairwise_limit: usize,
)
    requires
        rows.len() <= usize::MAX,
        key_index matches Some(index) ==> fully_keyed(rows, index),
    ensures
        row_alignment(rows, rows, key_index, pairwise_limit) == Seq::new(
            rows.len(),
            |k: int| RowAlignment::Matched(k as usize, k as usize),
        ),
{
    match key_index {
        Some(index) => law_keyed_rows_match_themselves(rows, index),
        None => law_rows_match_themselves(fingerprints(rows), pairwise_limit),
    }
}

/// The key of a row is the text of its cell in the key column, whatever the kind of
/// the cell. A row has a key exactly if it has that cell and the text is not empty,
/// and two rows have the same key exactly if the texts are the same.
pub proof fn law_key_is_the_text_of_the_key_cell(
    row: Seq<DataView>,
    other: Seq<DataView>,
    key_index: usize,
)
    ensures
        has_key(row, key_index) <==> key_index < row.len() && cell_text(row[key_index as int]).len()
            > 0,
        key_index < row.len() ==> row_key(row, key_index) == Some(
            cell_text(row[key_index as int]),
        ),
        key_index >= row.len() ==> row_key(row, key_index) is None,
        key_index < row.len() && key_index < other.len() ==> (row_key(row, key_index) == row_key(
            other,
            key_index,
        ) <==> cell_text(row[key_index as int]) == cell_text(other[key_index as int])),
{
}

/// With a key column a new row is matched with the last old row in which the cell of
/// the key column has the same text, if the text is not empty and there is such a
/// row; otherwise it is added.
pub proof fn law_rows_are_matched_by_the_text_of_the_key_cell(
    old: Seq<Seq<DataView>>,
    new: Seq<Seq<DataView>>,
    key_index: usize,
    i: usize,
    j: usize,
)
    requires
        i < old.len() <= usize::MAX,
        j < new.len() <= usize::MAX,
    ensures
        ({
            let k = key_index as int;
            let row = new[j as int];
            let all = row_alignment(old, new, Some(key_index), 0);
            let keyed = k < row.len() && cell_text(row[k]).len() > 0;
            &&& all.contains(RowAlignment::Matched(i, j)) <==> {
                &&& keyed
                &&& k < old[i as int].len() && cell_text(old[i as int][k]) == cell_text(row[k])
                &&& forall|l: int|
                    i < l < old.len() ==> !(k < (#[trigger] old[l]).len() && cell_text(old[l][k])
                        == cell_text(row[k]))
            }
            &&& all.contains(RowAlignment::Added(j)) <==> !(keyed && exists|l: int|
                0 <= l < old.len() && k < (#[trigger] old[l]).len() && cell_text(old[l][k])
                    == cell_text(row[k]))
        }),
{
    let k = key_index as int;
    let row = new[j as int];
    let all = keyed_alignment(old, new, key_index);
    let m = new.len();
    let tail = keyed_deletions(old, new, key_index, old.len());
    lemma_keyed_deletions(old, new, key_index, old.len());
    if k < row.len() {
        lemma_last_row_with_key(old, key_index, cell_text(row[k]));
    }
    assert(all[j as int] == keyed_new_row(old, new, key_index, j as int));
    assert forall|x: int| 0 <= x < all.len() && x != j implies all[x] != RowAlignment::Matched(i, j)
        && all[x] != RowAlignment::Added(j) by {
        if x >= m {
            assert(tail[x - m] is Deleted);
        }
    }
    if all.contains(RowAlignment::Matched(i, j)) {
        let x = choose|x: int| 0 <= x < all.len() && all[x] == RowAlignment::Matched(i, j);
        assert(x == j);
    }
    if all.contains(RowAlignment::Added(j)) {
        let x = choose|x: int| 0 <= x < all.len() && all[x] == RowAlignment::Added(j);
        assert(x == j);
    }
    assert forall|l: int| 0 <= l < old.len() implies (row_key(#[trigger] old[l], key_index)
        == Some(cell_text(row[k])) <==> k < old[l].len() && cell_text(old[l][k]) == cell_text(
        row[k],
    )) by {}
    if k < row.len() && cell_text(row[k]).len() > 0 {
        match last_row_with_key(old, key_index, cell_text(row[k])) {
            Some(found) => {
                assert(k < old[found as int].len());
                assert(all[j as int] == RowAlignment::Matched(found, j));
                if found < i {
                    assert(row_key(old[i as int], key_index) != Some(cell_text(row[k])));
                }
                assert(all.contains(RowAlignment::Matched(found, j)));
            },
            None => {
                assert(all[j as int] == RowAlignment::Added(j));
            },
        }
    } else {
        assert(all[j as int] == RowAlignment::Added(j));
    }
}

proof fn lemma_keyed_deletions_ascend(
    old: Seq<Seq<DataView>>,
    new: Seq<Seq<DataView>>,
    key_index: usize,
    n: nat,
)
    requires
        n <= old.len() <= usize::MAX,
    ensures
        ({
            let tail = keyed_deletions(old, new, key_index, n);
            &&& forall|x: int|
                0 <= x < tail.len() ==> (#[trigger] tail[x]) is Deleted && tail[x]->Deleted_0 < n
            &&& forall|x: int, y: int|
                0 <= x < y < tail.len() ==> (#[trigger] tail[x])->Deleted_0 < (
                #[trigger] tail[y])->Deleted_0
        }),
    decreases n,
{
    if n > 0 {
        lemma_keyed_deletions_ascend(old, new, key_index, (n - 1) as nat);
    }
}

/// With a key column the alignment begins with the new rows, in order, and goes on
/// with the old rows that are gone, in order.
pub proof fn law_keyed_alignment_is_in_order(
    old: Seq<Seq<DataView>>,
    new: Seq<Seq<DataView>>,
    key_index: usize,
)
    requires
        old.len() <= usize::MAX,
        new.len() <= usize::MAX,
    ensures
        ({
            let all = row_alignment(old, new, Some(key_index), 0);
            let m = new.len() as int;
            &&& all.len() >= m
            &&& forall|j: int|
                0 <= j < m ==> (match #[trigger] all[j] {
                    RowAlignment::Matched(_, w) => w == j,
                    RowAlignment::Added(w) => w == j,
                    RowAlignment::Deleted(_) => false,
                })
            &&& forall|x: int| m <= x < all.len() ==> (#[trigger] all[x]) is Deleted
            &&& forall|x: int, y: int|
                m <= x < y < all.len() ==> (#[trigger] all[x])->Deleted_0 < (
                #[trigger] all[y])->Deleted_0
        }),
{
    let all = keyed_alignment(old, new, key_index);
    let tail = keyed_deletions(old, new, key_index, old.len());
    let m = new.len() as int;
    lemma_keyed_deletions_ascend(old, new, key_index, old.len());
    assert forall|x: int| m <= x < all.len() implies (#[trigger] all[x]) == tail[x - m] by {}
    assert forall|x: int, y: int| m <= x < y < all.len() implies (#[trigger] all[x])->Deleted_0 < (
    #[trigger] all[y])->Deleted_0 by {
        assert(tail[x - m]->Deleted_0 < tail[y - m]->Deleted_0);
    }
}

proof fn lemma_no_addition_before_a_deletion(pairs: Seq<(usize, usize)>)
    ensures
        ({
            let s = woven_pairs(pairs);
            &&& pairs.len() > 0 ==> s.len() > 0 && s.last() is Matched
            &&& pairs.len() == 0 ==> s.len() == 0
            &&& forall|k: int|
                0 <= k && k + 1 < s.len() ==> !((#[trigger] s[k]) is Added && s[k + 1] is Deleted)
        }),
    decreases pairs.len(),
{
    if pairs.len() > 0 {
        lemma_no_addition_before_a_deletion(pairs.drop_last());
    }
}

/// Without a key column, and where the product of the numbers of rows is within the
/// limit, the matched rows have the same fingerprints, are in order on both sides,
/// and as many as can be; every row that is not matched is deleted or added at its
/// place, deleted rows before added ones.
pub proof fn law_rows_are_aligned_along_a_longest_common_subsequence(
    old: Seq<Seq<DataView>>,
    new: Seq<Seq<DataView>>,
    pairwise_limit: usize,
    other: Seq<(usize, usize)>,
)
    requires
        old.len() <= usize::MAX,
        new.len() <= usize::MAX,
        old.len() * new.len() <= pairwise_limit,
    ensures
        ({
            let all = row_alignment(old, new, None, pairwise_limit);
            let pairs = matched_rows(all);
            &&& forall|k: int|
                0 <= k < pairs.len() ==> {
                    &&& (#[trigger] pairs[k]).0 < old.len() && pairs[k].1 < new.len()
                    &&& row_fingerprint(old[pairs[k].0 as int]) == row_fingerprint(
                        new[pairs[k].1 as int],
                    )
                }
            &&& forall|k: int, l: int|
                0 <= k < l < pairs.len() ==> (#[trigger] pairs[k]).0 < (#[trigger] pairs[l]).0
                    && pairs[k].1 < pairs[l].1
            &&& is_common_subsequence(
                fingerprints(old),
                fingerprints(new),
                old.len(),
                new.len(),
                other,
            ) ==> other.len() <= pairs.len()
            &&& old_rows(all) == index_range(0, old.len())
            &&& new_rows(all) == index_range(0, new.len())
            &&& forall|k: int|
                0 <= k && k + 1 < all.len() ==> !((#[trigger] all[k]) is Added && all[k + 1] is Deleted)
        }),
{
    let a = fingerprints(old);
    let b = fingerprints(new);
    law_matches_are_a_longest_common_subsequence(a, b, pairwise_limit);
    law_fingerprint_alignment_is_complete(a, b, pairwise_limit);
    let pairs = lcs_pairs(a, b, a.len(), b.len());
    lemma_no_addition_before_a_deletion(pairs);
    let found = matched_rows(row_alignment(old, new, None, pairwise_limit));
    assert forall|k: int| 0 <= k < found.len() implies {
        &&& (#[trigger] found[k]).0 < old.len() && found[k].1 < new.len()
        &&& row_fingerprint(old[found[k].0 as int]) == row_fingerprint(new[found[k].1 as int])
    } by {
        assert(a[found[k].0 as int] == b[found[k].1 as int]);
    }
    if is_common_subsequence(a, b, a.len(), b.len(), other) {
        law_no_longer_common_subsequence(a, b, a.len(), b.len(), other);
    }
}

/// Without a key column, and where the product of the numbers of rows exceeds the
/// limit, rows are matched by their index as far as both sides go, and the rest is
/// deleted or added.
pub proof fn law_rows_are_aligned_by_position_beyond_the_limit(
    old: Seq<Seq<DataView>>,
    new: Seq<Seq<DataView>>,
    pairwise_limit: usize,
    i: int,
)
    requires
        old.len() <= usize::MAX,
        new.len() <= usize::MAX,
        old.len() * new.len() > pairwise_limit,
    ensures
        ({
            let all = row_alignment(old, new, None, pairwise_limit);
            &&& all.len() >= old.len() && all.len() >= new.len()
            &&& all.len() == old.len() || all.len() == new.len()
            &&& 0 <= i < old.len() && i < new.len() ==> all[i] == RowAlignment::Matched(
                i as usize,
                i as usize,
            )
            &&& new.len() <= i < old.len() ==> all[i] == RowAlignment::Deleted(i as usize)
            &&& old.len() <= i < new.len() ==> all[i] == RowAlignment::Added(i as usize)
        }),
{
    assert(old.len() > 0 && new.len() > 0) by (nonlinear_arith)
        requires
            old.len() * new.len() > pairwise_limit,
    ;
}

/// The limit and the fingerprints play no part where a key column is given.
pub proof fn law_limit_plays_no_part_with_a_key(
    old: Seq<Seq<DataView>>,
    new: Seq<Seq<DataView>>,
    key_index: usize,
    limit: usize,
    other_limit: usize,
)
    ensures
        row_alignment(old, new, Some(key_index), limit) == row_alignment(
            old,
            new,
            Some(key_index),
            other_limit,
        ),
{
}

} // verus!
