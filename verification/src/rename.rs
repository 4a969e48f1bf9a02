//! Sheets that are on one side only, matched by their contents.

use crate::fingerprint::{sheet_signature, snapshot_signature, SheetSnapshot, SnapshotView};
use crate::text::same_text;
use vstd::prelude::*;
use vstd::seq_lib::lemma_multiset_commutative;

verus! {

/// A sheet that is on one side only: its name, the signature of its contents and
/// the number of its rows.
#[derive(Debug)]
pub struct SheetEntry {
    pub name: String,
    pub signature: String,
    pub row_count: usize,
}

#[verifier::ext_equal]
pub struct EntryView {
    pub name: Seq<char>,
    pub signature: Seq<char>,
    pub row_count: usize,
}

impl DeepView for SheetEntry {
    type V = EntryView;

    open spec fn deep_view(&self) -> EntryView {
        EntryView { name: self.name@, signature: self.signature@, row_count: self.row_count }
    }
}

impl Clone for SheetEntry {
    fn clone(&self) -> (r: Self)
        ensures
            r.deep_view() == self.deep_view(),
    {
        SheetEntry {
            name: self.name.clone(),
            signature: self.signature.clone(),
            row_count: self.row_count,
        }
    }
}

/// The entry of a sheet with the given contents.
pub open spec fn entry_of(name: Seq<char>, snapshot: SnapshotView) -> EntryView {
    EntryView {
        name,
        signature: snapshot_signature(snapshot),
        row_count: snapshot.values.len() as usize,
    }
}

/// The entry of a sheet tells its name, the signature of its contents and the number of
/// its rows of values.
pub proof fn law_entry_tells_name_signature_and_rows(name: Seq<char>, snapshot: SnapshotView)
    requires
        snapshot.values.len() <= usize::MAX,
    ensures
        entry_of(name, snapshot).name == name,
        entry_of(name, snapshot).signature == snapshot_signature(snapshot),
        entry_of(name, snapshot).row_count == snapshot.values.len(),
{
}

/// The entry of a sheet with the given contents.
pub fn sheet_entry(name: &str, snapshot: &SheetSnapshot) -> (r: SheetEntry)
    ensures
        r.deep_view() == entry_of(name@, snapshot.deep_view()),
{
    SheetEntry {
        name: name.to_owned(),
        signature: sheet_signature(snapshot),
        row_count: snapshot.values.len(),
    }
}

/// Having the given signature.
pub open spec fn bears(signature: Seq<char>) -> spec_fn(EntryView) -> bool {
    |entry: EntryView| entry.signature == signature
}

/// The entries with the given signature.
pub open spec fn bearers(entries: Seq<EntryView>, signature: Seq<char>) -> Seq<EntryView> {
    entries.filter(bears(signature))
}

/// The number of sheets with the given signature that can be paired.
pub open spec fn pair_count(
    a: Seq<EntryView>,
    b: Seq<EntryView>,
    signature: Seq<char>,
) -> nat {
    let n = bearers(a, signature).len();
    let m = bearers(b, signature).len();
    if n <= m {
        n
    } else {
        m
    }
}

/// The renamed sheets, signature by signature: of the deleted and the added sheets
/// with the same signature the first belongs to the first, and so on.
pub open spec fn renamed_pairs(
    deleted: Seq<EntryView>,
    added: Seq<EntryView>,
    signatures: Seq<Seq<char>>,
) -> Seq<(EntryView, EntryView)>
    decreases signatures.len(),
{
    if signatures.len() == 0 {
        Seq::empty()
    } else {
        let signature = signatures.last();
        renamed_pairs(deleted, added, signatures.drop_last()) + Seq::new(
            pair_count(deleted, added, signature),
            |i: int| (bearers(deleted, signature)[i], bearers(added, signature)[i]),
        )
    }
}

/// The entries that have no partner among `others`, signature by signature.
pub open spec fn left_over(
    entries: Seq<EntryView>,
    others: Seq<EntryView>,
    signatures: Seq<Seq<char>>,
) -> Seq<EntryView>
    decreases signatures.len(),
{
    if signatures.len() == 0 {
        Seq::empty()
    } else {
        let signature = signatures.last();
        left_over(entries, others, signatures.drop_last()) + bearers(entries, signature).skip(
            pair_count(entries, others, signature) as int,
        )
    }
}

/// The sheets that are on one side only, matched.
#[derive(Debug)]
pub struct SheetMatches {
    /// The old and the new sheet of each pair.
    pub renamed: Vec<(SheetEntry, SheetEntry)>,
    pub deleted: Vec<SheetEntry>,
    pub added: Vec<SheetEntry>,
}

#[verifier::ext_equal]
pub struct MatchesView {
    pub renamed: Seq<(EntryView, EntryView)>,
    pub deleted: Seq<EntryView>,
    pub added: Seq<EntryView>,
}

impl DeepView for SheetMatches {
    type V = MatchesView;

    open spec fn deep_view(&self) -> MatchesView {
        MatchesView {
            renamed: self.renamed.deep_view(),
            deleted: self.deleted.deep_view(),
            added: self.added.deep_view(),
        }
    }
}

/// The matched sheets, in the order of the given signatures.
pub open spec fn sheet_matches(
    deleted: Seq<EntryView>,
    added: Seq<EntryView>,
    signatures: Seq<Seq<char>>,
) -> MatchesView {
    MatchesView {
        renamed: renamed_pairs(deleted, added, signatures),
        deleted: left_over(deleted, added, signatures),
        added: left_over(added, deleted, signatures),
    }
}

/// The texts without repetitions, in the order in which they first occur.
pub open spec fn distinct(texts: Seq<Seq<char>>) -> Seq<Seq<char>>
    decreases texts.len(),
{
    if texts.len() == 0 {
        Seq::empty()
    } else {
        let before = distinct(texts.drop_last());
        if before.contains(texts.last()) {
            before
        } else {
            before.push(texts.last())
        }
    }
}

/// The signatures of entries.
pub open spec fn signatures_of(entries: Seq<EntryView>) -> Seq<Seq<char>> {
    entries.map_values(|entry: EntryView| entry.signature)
}

/// The signatures of the deleted and the added sheets, each once.
pub open spec fn all_signatures(deleted: Seq<EntryView>, added: Seq<EntryView>) -> Seq<Seq<char>> {
    distinct(signatures_of(deleted) + signatures_of(added))
}

fn has_text(texts: &Vec<String>, text: &str) -> (r: bool)
    ensures
        r == texts.deep_view().contains(text@),
{
    let mut i: usize = 0;
    while i < texts.len()
        invariant
            i <= texts.len(),
            forall|k: int| 0 <= k < i ==> texts.deep_view()[k] != text@,
        decreases texts.len() - i,
    {
        if same_text(texts[i].as_str(), text) {
            assert(texts.deep_view()[i as int] == text@);
            return true;
        }
        i = i + 1;
    }
    false
}

fn add_signatures(signatures: &mut Vec<String>, entries: &Vec<SheetEntry>, Ghost(head): Ghost<
    Seq<Seq<char>>,
>)
    requires
        old(signatures).deep_view() == distinct(head),
    ensures
        final(signatures).deep_view() == distinct(head + signatures_of(entries.deep_view())),
{
    let ghost tail = signatures_of(entries.deep_view());
    let mut i: usize = 0;
    assert(head + tail.take(0) =~= head);
    while i < entries.len()
        invariant
            i <= entries.len(),
            tail == signatures_of(entries.deep_view()),
            signatures.deep_view() == distinct(head + tail.take(i as int)),
        decreases entries.len() - i,
    {
        let ghost before = signatures.deep_view();
        let signature = &entries[i].signature;
        proof {
            assert(tail[i as int] == signature@);
            assert((head + tail.take(i + 1)).drop_last() =~= head + tail.take(i as int));
            assert((head + tail.take(i + 1)).last() == signature@);
        }
        if !has_text(signatures, signature.as_str()) {
            signatures.push(signature.clone());
            assert(signatures.deep_view() =~= before.push(signature@));
        }
        i = i + 1;
    }
    assert(tail.take(tail.len() as int) =~= tail);
}

/// The signatures of the deleted and the added sheets, each once, in the order in
/// which they first occur.
pub fn signature_order(deleted: &Vec<SheetEntry>, added: &Vec<SheetEntry>) -> (r: Vec<String>)
    ensures
        r.deep_view() == all_signatures(deleted.deep_view(), added.deep_view()),
{
    let mut signatures: Vec<String> = Vec::new();
    assert(signatures.deep_view() =~= distinct(Seq::empty()));
    add_signatures(&mut signatures, deleted, Ghost(Seq::empty()));
    assert(Seq::<Seq<char>>::empty() + signatures_of(deleted.deep_view()) =~= signatures_of(
        deleted.deep_view(),
    ));
    add_signatures(&mut signatures, added, Ghost(signatures_of(deleted.deep_view())));
    signatures
}

fn entries_with(entries: &Vec<SheetEntry>, signature: &str) -> (r: Vec<SheetEntry>)
    ensures
        r.deep_view() == bearers(entries.deep_view(), signature@),
{
    let ghost all = entries.deep_view();
    let ghost pred = bears(signature@);
    let mut out: Vec<SheetEntry> = Vec::new();
    let mut i: usize = 0;
    proof {
        reveal(Seq::filter);
        assert(all.take(0) =~= Seq::empty());
        assert(out.deep_view() =~= all.take(0).filter(pred));
    }
    while i < entries.len()
        invariant
            i <= entries.len(),
            all == entries.deep_view(),
            pred == bears(signature@),
            out.deep_view() == all.take(i as int).filter(pred),
        decreases entries.len() - i,
    {
        let ghost before = out.deep_view();
        proof {
            reveal(Seq::filter);
            assert(all.take(i + 1).drop_last() =~= all.take(i as int));
            assert(all.take(i + 1).last() == entries@[i as int].deep_view());
        }
        if same_text(entries[i].signature.as_str(), signature) {
            out.push(entries[i].clone());
            assert(out.deep_view() =~= before.push(all[i as int]));
        }
        i = i + 1;
    }
    assert(all.take(all.len() as int) =~= all);
    out
}

fn append_from(out: &mut Vec<SheetEntry>, entries: &Vec<SheetEntry>, from: usize)
    requires
        from <= entries@.len(),
    ensures
        final(out).deep_view() == old(out).deep_view() + entries.deep_view().skip(from as int),
{
    let ghost head = out.deep_view();
    let ghost all = entries.deep_view();
    let mut i: usize = from;
    assert(out.deep_view() =~= head + all.subrange(from as int, i as int));
    while i < entries.len()
        invariant
            from <= i <= entries.len(),
            all == entries.deep_view(),
            out.deep_view() == head + all.subrange(from as int, i as int),
        decreases entries.len() - i,
    {
        let ghost before = out.deep_view();
        out.push(entries[i].clone());
        i = i + 1;
        assert(out.deep_view() =~= before.push(all[i - 1]));
        assert(out.deep_view() =~= head + all.subrange(from as int, i as int));
    }
    assert(out.deep_view() =~= head + all.skip(from as int));
}

fn append_pairs(
    out: &mut Vec<(SheetEntry, SheetEntry)>,
    a: &Vec<SheetEntry>,
    b: &Vec<SheetEntry>,
    count: usize,
)
    requires
        count <= a@.len(),
        count <= b@.len(),
    ensures
        final(out).deep_view() == old(out).deep_view() + Seq::new(
            count as nat,
            |i: int| (a.deep_view()[i], b.deep_view()[i]),
        ),
{
    let ghost head = out.deep_view();
    let ghost pairs = Seq::new(count as nat, |i: int| (a.deep_view()[i], b.deep_view()[i]));
    let mut i: usize = 0;
    assert(out.deep_view() =~= head + pairs.take(0));
    while i < count
        invariant
            i <= count,
            count <= a@.len(),
            count <= b@.len(),
            pairs == Seq::new(count as nat, |i: int| (a.deep_view()[i], b.deep_view()[i])),
            out.deep_view() == head + pairs.take(i as int),
        decreases count - i,
    {
        let ghost before = out.deep_view();
        out.push((a[i].clone(), b[i].clone()));
        i = i + 1;
        assert(out.deep_view() =~= before.push(pairs[i - 1]));
        assert(out.deep_view() =~= head + pairs.take(i as int));
    }
    assert(pairs.take(count as int) =~= pairs);
}

/// Matches the deleted with the added sheets, in the order of the given signatures.
pub fn match_sheets(
    deleted: &Vec<SheetEntry>,
    added: &Vec<SheetEntry>,
    signatures: &Vec<String>,
) -> (r: SheetMatches)
    ensures
        r.deep_view() == sheet_matches(
            deleted.deep_view(),
            added.deep_view(),
            signatures.deep_view(),
        ),
{
    let ghost d = deleted.deep_view();
    let ghost a = added.deep_view();
    let ghost all = signatures.deep_view();
    let mut renamed: Vec<(SheetEntry, SheetEntry)> = Vec::new();
    let mut left_deleted: Vec<SheetEntry> = Vec::new();
    let mut left_added: Vec<SheetEntry> = Vec::new();
    let mut i: usize = 0;
    proof {
        assert(all.take(0) =~= Seq::empty());
        assert(renamed.deep_view() =~= Seq::empty());
        assert(left_deleted.deep_view() =~= Seq::empty());
        assert(left_added.deep_view() =~= Seq::empty());
    }
    while i < signatures.len()
        invariant
            i <= signatures.len(),
            d == deleted.deep_view(),
            a == added.deep_view(),
            all == signatures.deep_view(),
            renamed.deep_view() == renamed_pairs(d, a, all.take(i as int)),
            left_deleted.deep_view() == left_over(d, a, all.take(i as int)),
            left_added.deep_view() == left_over(a, d, all.take(i as int)),
        decreases signatures.len() - i,
    {
        proof {
            assert(all.take(i + 1).drop_last() =~= all.take(i as int));
            assert(all.take(i + 1).last() == signatures@[i as int]@);
        }
        let ghost signature = signatures@[i as int]@;
        let deleted_items = entries_with(deleted, signatures[i].as_str());
        let added_items = entries_with(added, signatures[i].as_str());
        let rename_count: usize = if deleted_items.len() <= added_items.len() {
            deleted_items.len()
        } else {
            added_items.len()
        };
        assert(deleted_items.deep_view().len() == deleted_items.len());
        assert(added_items.deep_view().len() == added_items.len());
        append_pairs(&mut renamed, &deleted_items, &added_items, rename_count);
        append_from(&mut left_deleted, &deleted_items, rename_count);
        append_from(&mut left_added, &added_items, rename_count);
        assert(Seq::new(
            rename_count as nat,
            |k: int| (deleted_items.deep_view()[k], added_items.deep_view()[k]),
        ) =~= Seq::new(
            pair_count(d, a, signature),
            |k: int| (bearers(d, signature)[k], bearers(a, signature)[k]),
        ));
        i = i + 1;
    }
    assert(all.take(all.len() as int) =~= all);
    SheetMatches { renamed, deleted: left_deleted, added: left_added }
}

/// Matches the deleted with the added sheets.
pub fn find_renames(deleted: &Vec<SheetEntry>, added: &Vec<SheetEntry>) -> (r: SheetMatches)
    ensures
        r.deep_view() == sheet_matches(
            deleted.deep_view(),
            added.deep_view(),
            all_signatures(deleted.deep_view(), added.deep_view()),
        ),
{
    let signatures = signature_order(deleted, added);
    match_sheets(deleted, added, &signatures)
}

proof fn lemma_bearers_bear(entries: Seq<EntryView>, signature: Seq<char>)
    ensures
        forall|i: int|
            0 <= i < bearers(entries, signature).len() ==> {
                &&& (#[trigger] bearers(entries, signature)[i]).signature == signature
                &&& entries.contains(bearers(entries, signature)[i])
            },
    decreases entries.len(),
{
    reveal(Seq::filter);
    if entries.len() > 0 {
        let shorter = entries.drop_last();
        let before = bearers(shorter, signature);
        let all = bearers(entries, signature);
        lemma_bearers_bear(shorter, signature);
        assert forall|i: int| 0 <= i < all.len() implies {
            &&& (#[trigger] all[i]).signature == signature
            &&& entries.contains(all[i])
        } by {
            if i < before.len() {
                assert(all[i] == before[i]);
                let k = choose|k: int| 0 <= k < shorter.len() && shorter[k] == before[i];
                assert(entries[k] == all[i]);
            } else {
                assert(entries[entries.len() - 1] == all[i]);
            }
        }
    }
}

/// The two sheets of a renamed pair are a deleted and an added one with the same
/// signature.
pub proof fn law_renamed_sheets_have_one_signature(
    deleted: Seq<EntryView>,
    added: Seq<EntryView>,
    signatures: Seq<Seq<char>>,
    i: int,
)
    requires
        0 <= i < renamed_pairs(deleted, added, signatures).len(),
    ensures
        ({
            let (old, new) = renamed_pairs(deleted, added, signatures)[i];
            &&& old.signature == new.signature
            &&& deleted.contains(old)
            &&& added.contains(new)
        }),
    decreases signatures.len(),
{
    let before = renamed_pairs(deleted, added, signatures.drop_last());
    if i < before.len() {
        law_renamed_sheets_have_one_signature(deleted, added, signatures.drop_last(), i);
    } else {
        let signature = signatures.last();
        lemma_bearers_bear(deleted, signature);
        lemma_bearers_bear(added, signature);
        let k = i - before.len();
        assert(renamed_pairs(deleted, added, signatures)[i] == (
            bearers(deleted, signature)[k],
            bearers(added, signature)[k],
        ));
    }
}

proof fn lemma_left_over_signatures(
    entries: Seq<EntryView>,
    others: Seq<EntryView>,
    signatures: Seq<Seq<char>>,
    i: int,
)
    requires
        0 <= i < left_over(entries, others, signatures).len(),
    ensures
        ({
            let entry = left_over(entries, others, signatures)[i];
            &&& signatures.contains(entry.signature)
            &&& pair_count(entries, others, entry.signature) < bearers(
                entries,
                entry.signature,
            ).len()
        }),
    decreases signatures.len(),
{
    let before = left_over(entries, others, signatures.drop_last());
    let entry = left_over(entries, others, signatures)[i];
    if i < before.len() {
        lemma_left_over_signatures(entries, others, signatures.drop_last(), i);
        assert(before[i] == entry);
        let k = choose|k: int|
            0 <= k < signatures.drop_last().len() && signatures.drop_last()[k] == entry.signature;
        assert(signatures[k] == entry.signature);
    } else {
        let signature = signatures.last();
        let n = pair_count(entries, others, signature) as int;
        lemma_bearers_bear(entries, signature);
        let k = i - before.len();
        assert(entry == bearers(entries, signature).skip(n)[k]);
        assert(entry == bearers(entries, signature)[n + k]);
        assert(signatures[signatures.len() - 1] == signature);
    }
}

/// No deleted sheet that is left over has the signature of an added sheet that is
/// left over.
pub proof fn law_no_pair_is_left_over(
    deleted: Seq<EntryView>,
    added: Seq<EntryView>,
    signatures: Seq<Seq<char>>,
    i: int,
    j: int,
)
    requires
        0 <= i < left_over(deleted, added, signatures).len(),
        0 <= j < left_over(added, deleted, signatures).len(),
    ensures
        left_over(deleted, added, signatures)[i].signature != left_over(
            added,
            deleted,
            signatures,
        )[j].signature,
{
    lemma_left_over_signatures(deleted, added, signatures, i);
    lemma_left_over_signatures(added, deleted, signatures, j);
}

/// The old sheets of renamed pairs.
pub open spec fn old_sheets(pairs: Seq<(EntryView, EntryView)>) -> Seq<EntryView> {
    pairs.map_values(|pair: (EntryView, EntryView)| pair.0)
}

/// The new sheets of renamed pairs.
pub open spec fn new_sheets(pairs: Seq<(EntryView, EntryView)>) -> Seq<EntryView> {
    pairs.map_values(|pair: (EntryView, EntryView)| pair.1)
}

proof fn lemma_bearers_count(entries: Seq<EntryView>, signature: Seq<char>, entry: EntryView)
    ensures
        bearers(entries, signature).to_multiset().count(entry) == (if entry.signature
            == signature {
            entries.to_multiset().count(entry)
        } else {
            0
        }),
    decreases entries.len(),
{
    broadcast use vstd::seq_lib::group_to_multiset_ensures;

    reveal(Seq::filter);
    if entries.len() > 0 {
        let shorter = entries.drop_last();
        lemma_bearers_count(shorter, signature, entry);
        assert(entries =~= shorter.push(entries.last()));
    } else {
        assert(entries.to_multiset().count(entry) == 0);
        assert(bearers(entries, signature).to_multiset().count(entry) == 0);
    }
}

/// The entries of one side that are paired, signature by signature.
spec fn paired(
    entries: Seq<EntryView>,
    others: Seq<EntryView>,
    signatures: Seq<Seq<char>>,
) -> Seq<EntryView>
    decreases signatures.len(),
{
    if signatures.len() == 0 {
        Seq::empty()
    } else {
        let signature = signatures.last();
        paired(entries, others, signatures.drop_last()) + bearers(entries, signature).take(
            pair_count(entries, others, signature) as int,
        )
    }
}

proof fn lemma_paired_sides(
    deleted: Seq<EntryView>,
    added: Seq<EntryView>,
    signatures: Seq<Seq<char>>,
)
    ensures
        old_sheets(renamed_pairs(deleted, added, signatures)) == paired(
            deleted,
            added,
            signatures,
        ),
        new_sheets(renamed_pairs(deleted, added, signatures)) == paired(
            added,
            deleted,
            signatures,
        ),
    decreases signatures.len(),
{
    if signatures.len() > 0 {
        lemma_paired_sides(deleted, added, signatures.drop_last());
    }
    assert(old_sheets(renamed_pairs(deleted, added, signatures)) =~= paired(
        deleted,
        added,
        signatures,
    ));
    assert(new_sheets(renamed_pairs(deleted, added, signatures)) =~= paired(
        added,
        deleted,
        signatures,
    ));
}

proof fn lemma_accounted_count(
    entries: Seq<EntryView>,
    others: Seq<EntryView>,
    signatures: Seq<Seq<char>>,
    entry: EntryView,
)
    requires
        signatures.no_duplicates(),
    ensures
        paired(entries, others, signatures).to_multiset().count(entry) + left_over(
            entries,
            others,
            signatures,
        ).to_multiset().count(entry) == (if signatures.contains(entry.signature) {
            entries.to_multiset().count(entry)
        } else {
            0
        }),
    decreases signatures.len(),
{
    broadcast use vstd::seq_lib::group_to_multiset_ensures;

    if signatures.len() > 0 {
        let shorter = signatures.drop_last();
        let signature = signatures.last();
        assert(shorter.no_duplicates());
        lemma_accounted_count(entries, others, shorter, entry);
        lemma_bearers_count(entries, signature, entry);
        let group = bearers(entries, signature);
        let n = pair_count(entries, others, signature) as int;
        lemma_multiset_commutative(group.take(n), group.skip(n));
        assert(group.take(n) + group.skip(n) =~= group);
        lemma_multiset_commutative(paired(entries, others, shorter), group.take(n));
        lemma_multiset_commutative(left_over(entries, others, shorter), group.skip(n));
        assert(signatures =~= shorter.push(signature));
        assert(!shorter.contains(signature)) by {
            if shorter.contains(signature) {
                let k = choose|k: int| 0 <= k < shorter.len() && shorter[k] == signature;
                assert(signatures[k] == signatures[signatures.len() - 1]);
            }
        }
        assert(signatures.contains(entry.signature) <==> shorter.contains(entry.signature)
            || entry.signature == signature) by {
            if shorter.contains(entry.signature) {
                let k = choose|k: int| 0 <= k < shorter.len() && shorter[k] == entry.signature;
                assert(signatures[k] == entry.signature);
            }
            if signatures.contains(entry.signature) {
                let k = choose|k: int|
                    0 <= k < signatures.len() && signatures[k] == entry.signature;
                if k < shorter.len() {
                    assert(shorter[k] == entry.signature);
                }
            }
            assert(signatures[signatures.len() - 1] == signature);
        }
    } else {
        assert(paired(entries, others, signatures).to_multiset().count(entry) == 0);
        assert(left_over(entries, others, signatures).to_multiset().count(entry) == 0);
    }
}

proof fn lemma_accounted(
    entries: Seq<EntryView>,
    others: Seq<EntryView>,
    signatures: Seq<Seq<char>>,
)
    requires
        signatures.no_duplicates(),
        forall|i: int|
            0 <= i < entries.len() ==> signatures.contains((#[trigger] entries[i]).signature),
    ensures
        paired(entries, others, signatures).to_multiset().add(
            left_over(entries, others, signatures).to_multiset(),
        ) == entries.to_multiset(),
{
    broadcast use vstd::seq_lib::group_to_multiset_ensures;

    let both = paired(entries, others, signatures).to_multiset().add(
        left_over(entries, others, signatures).to_multiset(),
    );
    assert forall|entry: EntryView| both.count(entry) == entries.to_multiset().count(entry) by {
        lemma_accounted_count(entries, others, signatures, entry);
        if entries.to_multiset().count(entry) > 0 {
            assert(entries.contains(entry));
            let i = choose|i: int| 0 <= i < entries.len() && entries[i] == entry;
            assert(signatures.contains(entries[i].signature));
        }
    }
    assert(both =~= entries.to_multiset());
}

/// Every deleted sheet is either the old sheet of one renamed pair or left over,
/// and every added sheet either the new sheet of one pair or left over, whatever
/// the order of the signatures.
pub proof fn law_every_sheet_is_accounted_for(
    deleted: Seq<EntryView>,
    added: Seq<EntryView>,
    signatures: Seq<Seq<char>>,
)
    requires
        signatures.no_duplicates(),
        forall|i: int|
            0 <= i < deleted.len() ==> signatures.contains((#[trigger] deleted[i]).signature),
        forall|i: int|
            0 <= i < added.len() ==> signatures.contains((#[trigger] added[i]).signature),
    ensures
        ({
            let matches = sheet_matches(deleted, added, signatures);
            &&& old_sheets(matches.renamed).to_multiset().add(matches.deleted.to_multiset())
                == deleted.to_multiset()
            &&& new_sheets(matches.renamed).to_multiset().add(matches.added.to_multiset())
                == added.to_multiset()
            &&& matches.renamed.len() + matches.deleted.len() == deleted.len()
            &&& matches.renamed.len() + matches.added.len() == added.len()
        }),
{
    broadcast use vstd::seq_lib::group_to_multiset_ensures;

    lemma_paired_sides(deleted, added, signatures);
    lemma_accounted(deleted, added, signatures);
    lemma_accounted(added, deleted, signatures);
    let matches = sheet_matches(deleted, added, signatures);
    let x = old_sheets(matches.renamed);
    let y = new_sheets(matches.renamed);
    assert(x.len() == matches.renamed.len() && y.len() == matches.renamed.len());
    assert(x.to_multiset().add(matches.deleted.to_multiset()).len() == x.len()
        + matches.deleted.len());
    assert(y.to_multiset().add(matches.added.to_multiset()).len() == y.len()
        + matches.added.len());
}

proof fn lemma_distinct(texts: Seq<Seq<char>>)
    ensures
        distinct(texts).no_duplicates(),
        forall|text: Seq<char>| #[trigger]
            distinct(texts).contains(text) <==> texts.contains(text),
    decreases texts.len(),
{
    if texts.len() > 0 {
        let shorter = texts.drop_last();
        let last = texts.last();
        let before = distinct(shorter);
        let all = distinct(texts);
        lemma_distinct(shorter);
        assert(texts =~= shorter.push(last));
        if !before.contains(last) {
            assert forall|x: int, y: int|
                0 <= x < all.len() && 0 <= y < all.len() && x != y implies all[x] != all[y] by {
                if x < before.len() {
                    assert(before.contains(before[x]));
                }
                if y < before.len() {
                    assert(before.contains(before[y]));
                }
            }
        }
        assert forall|text: Seq<char>| #[trigger] all.contains(text) <==> texts.contains(text) by {
            if all.contains(text) {
                let k = choose|k: int| 0 <= k < all.len() && all[k] == text;
                if k < before.len() {
                    assert(before[k] == text);
                    assert(before.contains(text));
                    let i = choose|i: int| 0 <= i < shorter.len() && shorter[i] == text;
                    assert(texts[i] == text);
                } else {
                    assert(texts[texts.len() - 1] == text);
                }
            }
            if texts.contains(text) {
                let i = choose|i: int| 0 <= i < texts.len() && texts[i] == text;
                if i < shorter.len() {
                    assert(shorter[i] == text);
                    assert(before.contains(text));
                    let k = choose|k: int| 0 <= k < before.len() && before[k] == text;
                    assert(all[k] == text);
                } else if before.contains(last) {
                    assert(all == before);
                } else {
                    assert(all[all.len() - 1] == text);
                }
            }
        }
    }
}

/// The order of signatures by first occurrence holds each signature of a deleted or
/// added sheet once.
pub proof fn law_signature_order_is_complete(deleted: Seq<EntryView>, added: Seq<EntryView>)
    ensures
        all_signatures(deleted, added).no_duplicates(),
        forall|i: int|
            0 <= i < deleted.len() ==> all_signatures(deleted, added).contains(
                (#[trigger] deleted[i]).signature,
            ),
        forall|i: int|
            0 <= i < added.len() ==> all_signatures(deleted, added).contains(
                (#[trigger] added[i]).signature,
            ),
{
    let texts = signatures_of(deleted) + signatures_of(added);
    lemma_distinct(texts);
    assert forall|i: int| 0 <= i < deleted.len() implies all_signatures(deleted, added).contains(
        (#[trigger] deleted[i]).signature,
    ) by {
        assert(texts[i] == deleted[i].signature);
        assert(texts.contains(deleted[i].signature));
    }
    assert forall|i: int| 0 <= i < added.len() implies all_signatures(deleted, added).contains(
        (#[trigger] added[i]).signature,
    ) by {
        assert(texts[deleted.len() + i] == added[i].signature);
        assert(texts.contains(added[i].signature));
    }
}

/// The views of an entry and of matches hold every field.
pub proof fn law_entry_views_keep_every_field(entry: SheetEntry, matches: SheetMatches)
    ensures
        entry.deep_view().name == entry.name@,
        entry.deep_view().signature == entry.signature@,
        entry.deep_view().row_count == entry.row_count,
        matches.deep_view().renamed == matches.renamed.deep_view(),
        matches.deep_view().deleted == matches.deleted.deep_view(),
        matches.deep_view().added == matches.added.deep_view(),
{
}

/// The sheets with a signature are those that have it, in their order.
pub proof fn law_sheets_with_a_signature(
    entries: Seq<EntryView>,
    entry: EntryView,
    signature: Seq<char>,
)
    ensures
        bearers(Seq::empty(), signature).len() == 0,
        entry.signature == signature ==> bearers(entries.push(entry), signature) == bearers(
            entries,
            signature,
        ).push(entry),
        entry.signature != signature ==> bearers(entries.push(entry), signature) == bearers(
            entries,
            signature,
        ),
{
    reveal(Seq::filter);
    assert(entries.push(entry).drop_last() =~= entries);
}

proof fn lemma_bearers_of_sum(a: Seq<EntryView>, b: Seq<EntryView>, signature: Seq<char>)
    ensures
        bearers(a + b, signature) == bearers(a, signature) + bearers(b, signature),
{
    Seq::filter_distributes_over_add(a, b, bears(signature));
}

proof fn lemma_bearers_of_one_signature(
    entries: Seq<EntryView>,
    held: Seq<char>,
    signature: Seq<char>,
)
    requires
        forall|i: int| 0 <= i < entries.len() ==> (#[trigger] entries[i]).signature == held,
    ensures
        held == signature ==> bearers(entries, signature) == entries,
        held != signature ==> bearers(entries, signature) == Seq::<EntryView>::empty(),
    decreases entries.len(),
{
    reveal(Seq::filter);
    if entries.len() > 0 {
        let shorter = entries.drop_last();
        assert forall|i: int| 0 <= i < shorter.len() implies (#[trigger] shorter[i]).signature
            == held by {
            assert(shorter[i] == entries[i]);
        }
        lemma_bearers_of_one_signature(shorter, held, signature);
        assert(entries[entries.len() - 1].signature == held);
        assert(entries =~= shorter.push(entries.last()));
    }
}

proof fn lemma_signatures_but_last(signatures: Seq<Seq<char>>, signature: Seq<char>)
    requires
        signatures.no_duplicates(),
        signatures.len() > 0,
    ensures
        signatures.drop_last().no_duplicates(),
        !signatures.drop_last().contains(signatures.last()),
        signatures.contains(signature) <==> signatures.drop_last().contains(signature)
            || signature == signatures.last(),
{
    let shorter = signatures.drop_last();
    let last = signatures.last();
    if shorter.contains(last) {
        let k = choose|k: int| 0 <= k < shorter.len() && shorter[k] == last;
        assert(signatures[k] == signatures[signatures.len() - 1]);
    }
    if shorter.contains(signature) {
        let k = choose|k: int| 0 <= k < shorter.len() && shorter[k] == signature;
        assert(signatures[k] == signature);
    }
    if signatures.contains(signature) {
        let k = choose|k: int| 0 <= k < signatures.len() && signatures[k] == signature;
        if k < shorter.len() {
            assert(shorter[k] == signature);
        }
    }
    assert(signatures[signatures.len() - 1] == last);
}

proof fn lemma_bearers_of_part(
    entries: Seq<EntryView>,
    held: Seq<char>,
    signature: Seq<char>,
    from: int,
    to: int,
)
    requires
        0 <= from <= to <= bearers(entries, held).len(),
    ensures
        ({
            let part = bearers(entries, held).subrange(from, to);
            &&& held == signature ==> bearers(part, signature) == part
            &&& held != signature ==> bearers(part, signature) == Seq::<EntryView>::empty()
        }),
{
    let group = bearers(entries, held);
    let part = group.subrange(from, to);
    lemma_bearers_bear(entries, held);
    assert forall|i: int| 0 <= i < part.len() implies (#[trigger] part[i]).signature == held by {
        assert(part[i] == group[from + i]);
    }
    lemma_bearers_of_one_signature(part, held, signature);
}

proof fn lemma_bearers_of_more(
    before: Seq<EntryView>,
    part: Seq<EntryView>,
    signature: Seq<char>,
    expected: Seq<EntryView>,
)
    ensures
        bearers(before, signature) == expected && bearers(part, signature) == Seq::<
            EntryView,
        >::empty() ==> bearers(before + part, signature) == expected,
        bearers(before, signature).len() == 0 && bearers(part, signature) == expected ==> bearers(
            before + part,
            signature,
        ) == expected,
{
    lemma_bearers_of_sum(before, part, signature);
    let sum = bearers(before + part, signature);
    if bearers(before, signature) == expected && bearers(part, signature) == Seq::<
        EntryView,
    >::empty() {
        assert(sum =~= expected);
    }
    if bearers(before, signature).len() == 0 && bearers(part, signature) == expected {
        assert(sum =~= expected);
    }
}

proof fn lemma_no_bearers(signature: Seq<char>)
    ensures
        bearers(Seq::empty(), signature) == Seq::<EntryView>::empty(),
{
    reveal(Seq::filter);
}

proof fn lemma_paired_of_one_signature(
    entries: Seq<EntryView>,
    others: Seq<EntryView>,
    signatures: Seq<Seq<char>>,
    signature: Seq<char>,
)
    requires
        signatures.no_duplicates(),
    ensures
        signatures.contains(signature) ==> bearers(paired(entries, others, signatures), signature)
            == bearers(entries, signature).take(pair_count(entries, others, signature) as int),
        !signatures.contains(signature) ==> bearers(
            paired(entries, others, signatures),
            signature,
        ) == Seq::<EntryView>::empty(),
    decreases signatures.len(),
{
    if signatures.len() == 0 {
        lemma_no_bearers(signature);
    } else {
        let shorter = signatures.drop_last();
        let last = signatures.last();
        let n = pair_count(entries, others, last) as int;
        let before = paired(entries, others, shorter);
        let part = bearers(entries, last).take(n);
        lemma_signatures_but_last(signatures, signature);
        lemma_paired_of_one_signature(entries, others, shorter, signature);
        lemma_bearers_of_part(entries, last, signature, 0, n);
        assert(part == bearers(entries, last).subrange(0, n));
        assert(paired(entries, others, signatures) == before + part);
        if signature == last {
            lemma_bearers_of_more(before, part, signature, part);
        } else {
            lemma_bearers_of_more(before, part, signature, bearers(before, signature));
        }
    }
}

proof fn lemma_left_over_of_one_signature(
    entries: Seq<EntryView>,
    others: Seq<EntryView>,
    signatures: Seq<Seq<char>>,
    signature: Seq<char>,
)
    requires
        signatures.no_duplicates(),
    ensures
        signatures.contains(signature) ==> bearers(
            left_over(entries, others, signatures),
            signature,
        ) == bearers(entries, signature).skip(pair_count(entries, others, signature) as int),
        !signatures.contains(signature) ==> bearers(
            left_over(entries, others, signatures),
            signature,
        ) == Seq::<EntryView>::empty(),
    decreases signatures.len(),
{
    if signatures.len() == 0 {
        lemma_no_bearers(signature);
    } else {
        let shorter = signatures.drop_last();
        let last = signatures.last();
        let n = pair_count(entries, others, last) as int;
        let before = left_over(entries, others, shorter);
        let part = bearers(entries, last).skip(n);
        let m = bearers(entries, last).len() as int;
        lemma_signatures_but_last(signatures, signature);
        lemma_left_over_of_one_signature(entries, others, shorter, signature);
        lemma_bearers_of_part(entries, last, signature, n, m);
        assert(part == bearers(entries, last).subrange(n, m));
        assert(left_over(entries, others, signatures) == before + part);
        if signature == last {
            lemma_bearers_of_more(before, part, signature, part);
        } else {
            lemma_bearers_of_more(before, part, signature, bearers(before, signature));
        }
    }
}

/// Of the deleted and the added sheets with a signature as many are paired as both
/// sides have, the first ones of each side in their order; the others are left over,
/// in their order too.
pub proof fn law_first_sheets_are_paired(
    deleted: Seq<EntryView>,
    added: Seq<EntryView>,
    signatures: Seq<Seq<char>>,
    signature: Seq<char>,
    n: int,
)
    requires
        signatures.no_duplicates(),
        signatures.contains(signature),
        n <= bearers(deleted, signature).len(),
        n <= bearers(added, signature).len(),
        n == bearers(deleted, signature).len() || n == bearers(added, signature).len(),
    ensures
        ({
            let matches = sheet_matches(deleted, added, signatures);
            &&& bearers(old_sheets(matches.renamed), signature) == bearers(deleted, signature).take(
                n,
            )
            &&& bearers(new_sheets(matches.renamed), signature) == bearers(added, signature).take(n)
            &&& bearers(matches.deleted, signature) == bearers(deleted, signature).skip(n)
            &&& bearers(matches.added, signature) == bearers(added, signature).skip(n)
        }),
{
    lemma_paired_sides(deleted, added, signatures);
    lemma_paired_of_one_signature(deleted, added, signatures, signature);
    lemma_paired_of_one_signature(added, deleted, signatures, signature);
    lemma_left_over_of_one_signature(deleted, added, signatures, signature);
    lemma_left_over_of_one_signature(added, deleted, signatures, signature);
}

/// The matches come signature by signature, in the given order: those of the first
/// signatures stand before those of the following ones.
pub proof fn law_matches_come_signature_by_signature(
    deleted: Seq<EntryView>,
    added: Seq<EntryView>,
    first: Seq<Seq<char>>,
    following: Seq<Seq<char>>,
)
    ensures
        ({
            let both = sheet_matches(deleted, added, first + following);
            let x = sheet_matches(deleted, added, first);
            let y = sheet_matches(deleted, added, following);
            &&& both.renamed == x.renamed + y.renamed
            &&& both.deleted == x.deleted + y.deleted
            &&& both.added == x.added + y.added
        }),
    decreases following.len(),
{
    let both = sheet_matches(deleted, added, first + following);
    let x = sheet_matches(deleted, added, first);
    let y = sheet_matches(deleted, added, following);
    if following.len() == 0 {
        assert(first + following =~= first);
    } else {
        law_matches_come_signature_by_signature(deleted, added, first, following.drop_last());
        assert((first + following).drop_last() =~= first + following.drop_last());
        assert((first + following).last() == following.last());
    }
    assert(both.renamed =~= x.renamed + y.renamed);
    assert(both.deleted =~= x.deleted + y.deleted);
    assert(both.added =~= x.added + y.added);
}

/// The signatures are ordered by their first occurrence, those of the deleted sheets
/// before those that only added sheets have: a further added sheet puts its signature
/// at the end unless a sheet has it already, and so does a further deleted sheet where
/// nothing is added.
pub proof fn law_signatures_are_ordered_by_first_occurrence(
    deleted: Seq<EntryView>,
    added: Seq<EntryView>,
    entry: EntryView,
)
    ensures
        all_signatures(Seq::empty(), Seq::empty()).len() == 0,
        ({
            let known = exists|i: int|
                0 <= i < deleted.len() && (#[trigger] deleted[i]).signature == entry.signature;
            let met = exists|i: int|
                0 <= i < added.len() && (#[trigger] added[i]).signature == entry.signature;
            &&& known ==> all_signatures(deleted.push(entry), Seq::empty()) == all_signatures(
                deleted,
                Seq::empty(),
            )
            &&& !known ==> all_signatures(deleted.push(entry), Seq::empty()) == all_signatures(
                deleted,
                Seq::empty(),
            ).push(entry.signature)
            &&& known || met ==> all_signatures(deleted, added.push(entry)) == all_signatures(
                deleted,
                added,
            )
            &&& !known && !met ==> all_signatures(deleted, added.push(entry)) == all_signatures(
                deleted,
                added,
            ).push(entry.signature)
        }),
{
    let none = Seq::<EntryView>::empty();
    let d = signatures_of(deleted);
    let a = signatures_of(added);
    assert(signatures_of(none) =~= Seq::empty());
    assert(signatures_of(deleted.push(entry)) + signatures_of(none) =~= d.push(entry.signature));
    assert(d + signatures_of(none) =~= d);
    assert(d + signatures_of(added.push(entry)) =~= (d + a).push(entry.signature));
    assert(d.push(entry.signature).drop_last() =~= d);
    assert((d + a).push(entry.signature).drop_last() =~= d + a);
    lemma_distinct(d);
    lemma_distinct(d + a);
    if exists|i: int|
        0 <= i < deleted.len() && (#[trigger] deleted[i]).signature == entry.signature {
        let i = choose|i: int|
            0 <= i < deleted.len() && (#[trigger] deleted[i]).signature == entry.signature;
        assert(d[i] == entry.signature);
        assert((d + a)[i] == entry.signature);
    }
    if exists|i: int| 0 <= i < added.len() && (#[trigger] added[i]).signature == entry.signature {
        let i = choose|i: int|
            0 <= i < added.len() && (#[trigger] added[i]).signature == entry.signature;
        assert((d + a)[d.len() + i] == entry.signature);
    }
    if d.contains(entry.signature) {
        let i = choose|i: int| 0 <= i < d.len() && d[i] == entry.signature;
        assert(deleted[i].signature == entry.signature);
    }
    if (d + a).contains(entry.signature) {
        let i = choose|i: int| 0 <= i < (d + a).len() && (d + a)[i] == entry.signature;
        if i < d.len() {
            assert(deleted[i].signature == entry.signature);
        } else {
            assert(added[i - d.len()].signature == entry.signature);
        }
    }
    assert(distinct(d).contains(entry.signature) <==> d.contains(entry.signature));
    assert(distinct(d + a).contains(entry.signature) <==> (d + a).contains(entry.signature));
}

} // verus!
