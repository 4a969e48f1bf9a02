//! Which sheets of two workbooks are compared, and which are on one side only.

use vstd::hash_set::StringHashSet;
use vstd::prelude::*;

verus! {

/// The names of a selection, if there is one.
pub open spec fn selection(selected: Option<StringHashSet>) -> Option<Set<Seq<char>>> {
    match selected {
        Some(set) => Some(set@),
        None => None,
    }
}

/// Whether a sheet is selected; without a selection each is.
pub open spec fn selects(selected: Option<Set<Seq<char>>>, name: Seq<char>) -> bool {
    match selected {
        Some(names) => names.contains(name),
        None => true,
    }
}

fn set_of(names: &Vec<String>) -> (r: StringHashSet)
    ensures
        r@ == names.deep_view().to_set(),
{
    let ghost all = names.deep_view();
    let mut set = StringHashSet::new();
    let mut i: usize = 0;
    assert(all.take(0).to_set() =~= Set::empty());
    while i < names.len()
        invariant
            i <= names.len(),
            all == names.deep_view(),
            set@ == all.take(i as int).to_set(),
        decreases names.len() - i,
    {
        let ghost before = set@;
        set.insert(names[i].clone());
        proof {
            let shorter = all.take(i as int);
            let longer = all.take(i + 1);
            assert(longer =~= shorter.push(names@[i as int]@));
            assert forall|name: Seq<char>|
                set@.contains(name) == longer.to_set().contains(name) by {
                if longer.contains(name) {
                    let k = choose|k: int| 0 <= k < longer.len() && longer[k] == name;
                    if k < i {
                        assert(shorter[k] == name);
                        assert(shorter.contains(name));
                    }
                }
                if shorter.contains(name) {
                    let k = choose|k: int| 0 <= k < shorter.len() && shorter[k] == name;
                    assert(longer[k] == name);
                }
                assert(longer[i as int] == names@[i as int]@);
            }
            assert(set@ =~= longer.to_set());
        }
        i = i + 1;
    }
    assert(all.take(all.len() as int) =~= all);
    set
}

/// The selection of the given sheets, for looking names up.
pub fn selected_sheet_filter(selected_sheets: Option<Vec<String>>) -> (r: Option<StringHashSet>)
    ensures
        selection(r) == (match selected_sheets {
            Some(names) => Some(names.deep_view().to_set()),
            None => None,
        }),
{
    match selected_sheets {
        Some(names) => Some(set_of(&names)),
        None => None,
    }
}

/// Whether the sheet is to be compared.
pub fn should_compare_sheet(sheet_name: &str, selected: Option<&StringHashSet>) -> (r: bool)
    ensures
        r == (selected is Some ==> selected->0@.contains(sheet_name@)),
{
    match selected {
        Some(set) => set.contains(sheet_name),
        None => true,
    }
}

/// The sheets of two workbooks, told apart by name.
#[derive(Debug)]
pub struct SheetPlan {
    /// Only in the old workbook.
    pub deleted: Vec<String>,
    /// Only in the new workbook.
    pub added: Vec<String>,
    /// In both and selected.
    pub compared: Vec<String>,
}

#[verifier::ext_equal]
pub struct PlanView {
    pub deleted: Seq<Seq<char>>,
    pub added: Seq<Seq<char>>,
    pub compared: Seq<Seq<char>>,
}

impl DeepView for SheetPlan {
    type V = PlanView;

    open spec fn deep_view(&self) -> PlanView {
        PlanView {
            deleted: self.deleted.deep_view(),
            added: self.added.deep_view(),
            compared: self.compared.deep_view(),
        }
    }
}

/// Being none of `names`.
pub open spec fn missing_from(names: Seq<Seq<char>>) -> spec_fn(Seq<char>) -> bool {
    |name: Seq<char>| !names.contains(name)
}

/// Being one of `names`, and selected.
pub open spec fn wanted_from(
    names: Seq<Seq<char>>,
    selected: Option<Set<Seq<char>>>,
) -> spec_fn(Seq<char>) -> bool {
    |name: Seq<char>| names.contains(name) && selects(selected, name)
}

/// The plan for two workbooks with sheets of the given names. The selection bears
/// only on sheets that both workbooks have.
pub open spec fn sheet_plan(
    old: Seq<Seq<char>>,
    new: Seq<Seq<char>>,
    selected: Option<Set<Seq<char>>>,
) -> PlanView {
    PlanView {
        deleted: old.filter(missing_from(new)),
        added: new.filter(missing_from(old)),
        compared: old.filter(wanted_from(new, selected)),
    }
}

fn names_missing_from(names: &Vec<String>, others: &Vec<String>, other_set: &StringHashSet) -> (r:
    Vec<String>)
    requires
        other_set@ == others.deep_view().to_set(),
    ensures
        r.deep_view() == names.deep_view().filter(missing_from(others.deep_view())),
{
    let ghost all = names.deep_view();
    let ghost pred = missing_from(others.deep_view());
    let mut out: Vec<String> = Vec::new();
    let mut i: usize = 0;
    proof {
        reveal(Seq::filter);
        assert(all.take(0) =~= Seq::empty());
        assert(out.deep_view() =~= all.take(0).filter(pred));
    }
    while i < names.len()
        invariant
            i <= names.len(),
            all == names.deep_view(),
            pred == missing_from(others.deep_view()),
            other_set@ == others.deep_view().to_set(),
            out.deep_view() == all.take(i as int).filter(pred),
        decreases names.len() - i,
    {
        let ghost before = out.deep_view();
        proof {
            reveal(Seq::filter);
            assert(all.take(i + 1).drop_last() =~= all.take(i as int));
            assert(all.take(i + 1).last() == names@[i as int]@);
        }
        if !other_set.contains(names[i].as_str()) {
            out.push(names[i].clone());
            assert(out.deep_view() =~= before.push(names@[i as int]@));
        }
        i = i + 1;
    }
    assert(all.take(all.len() as int) =~= all);
    out
}

fn names_wanted_from(
    names: &Vec<String>,
    others: &Vec<String>,
    other_set: &StringHashSet,
    selected: &Option<StringHashSet>,
) -> (r: Vec<String>)
    requires
        other_set@ == others.deep_view().to_set(),
    ensures
        r.deep_view() == names.deep_view().filter(
            wanted_from(others.deep_view(), selection(*selected)),
        ),
{
    let ghost all = names.deep_view();
    let ghost pred = wanted_from(others.deep_view(), selection(*selected));
    let mut out: Vec<String> = Vec::new();
    let mut i: usize = 0;
    proof {
        reveal(Seq::filter);
        assert(all.take(0) =~= Seq::empty());
        assert(out.deep_view() =~= all.take(0).filter(pred));
    }
    while i < names.len()
        invariant
            i <= names.len(),
            all == names.deep_view(),
            pred == wanted_from(others.deep_view(), selection(*selected)),
            other_set@ == others.deep_view().to_set(),
            out.deep_view() == all.take(i as int).filter(pred),
        decreases names.len() - i,
    {
        let ghost before = out.deep_view();
        proof {
            reveal(Seq::filter);
            assert(all.take(i + 1).drop_last() =~= all.take(i as int));
            assert(all.take(i + 1).last() == names@[i as int]@);
        }
        if other_set.contains(names[i].as_str()) && should_compare_sheet(
            names[i].as_str(),
            selected.as_ref(),
        ) {
            out.push(names[i].clone());
            assert(out.deep_view() =~= before.push(names@[i as int]@));
        }
        i = i + 1;
    }
    assert(all.take(all.len() as int) =~= all);
    out
}

/// Plans the comparison of two workbooks with sheets of the given names.
pub fn plan_sheets(
    old_names: &Vec<String>,
    new_names: &Vec<String>,
    selected: &Option<StringHashSet>,
) -> (r: SheetPlan)
    ensures
        r.deep_view() == sheet_plan(
            old_names.deep_view(),
            new_names.deep_view(),
            selection(*selected),
        ),
{
    let old_set = set_of(old_names);
    let new_set = set_of(new_names);
    SheetPlan {
        deleted: names_missing_from(old_names, new_names, &new_set),
        added: names_missing_from(new_names, old_names, &old_set),
        compared: names_wanted_from(old_names, new_names, &new_set, selected),
    }
}

/// Every sheet is in the plan exactly where it belongs: it is
/// deleted if only the old workbook has it, added if only the new one has it, and
/// compared if both have it and it is selected.
pub proof fn law_every_sheet_is_planned(
    old: Seq<Seq<char>>,
    new: Seq<Seq<char>>,
    selected: Option<Set<Seq<char>>>,
    name: Seq<char>,
)
    ensures
        ({
            let plan = sheet_plan(old, new, selected);
            &&& plan.deleted.contains(name) <==> old.contains(name) && !new.contains(name)
            &&& plan.added.contains(name) <==> new.contains(name) && !old.contains(name)
            &&& plan.compared.contains(name) <==> old.contains(name) && new.contains(name)
                && selects(selected, name)
        }),
{
    lemma_filtered_names(old, missing_from(new), name);
    lemma_filtered_names(new, missing_from(old), name);
    lemma_filtered_names(old, wanted_from(new, selected), name);
}

proof fn lemma_filtered_names(
    names: Seq<Seq<char>>,
    pred: spec_fn(Seq<char>) -> bool,
    name: Seq<char>,
)
    ensures
        names.filter(pred).contains(name) <==> names.contains(name) && pred(name),
    decreases names.len(),
{
    reveal(Seq::filter);
    if names.len() > 0 {
        let shorter = names.drop_last();
        let kept = shorter.filter(pred);
        let all = names.filter(pred);
        lemma_filtered_names(shorter, pred, name);
        assert(names =~= shorter.push(names.last()));
        if pred(names.last()) {
            assert(all =~= kept.push(names.last()));
            if all.contains(name) {
                let k = choose|k: int| 0 <= k < all.len() && all[k] == name;
                if k < kept.len() {
                    assert(kept[k] == name);
                }
            }
            if kept.contains(name) {
                let k = choose|k: int| 0 <= k < kept.len() && kept[k] == name;
                assert(all[k] == name);
            }
            assert(all[all.len() - 1] == names.last());
        }
        if names.contains(name) {
            let k = choose|k: int| 0 <= k < names.len() && names[k] == name;
            if k < shorter.len() {
                assert(shorter[k] == name);
            }
        }
        if shorter.contains(name) {
            let k = choose|k: int| 0 <= k < shorter.len() && shorter[k] == name;
            assert(names[k] == name);
        }
        assert(names[names.len() - 1] == names.last());
    }
}

proof fn lemma_filters_split(
    names: Seq<Seq<char>>,
    p: spec_fn(Seq<char>) -> bool,
    q: spec_fn(Seq<char>) -> bool,
)
    requires
        forall|name: Seq<char>| #[trigger] p(name) == !q(name),
    ensures
        names.filter(p).to_multiset().add(names.filter(q).to_multiset()) == names.to_multiset(),
    decreases names.len(),
{
    broadcast use vstd::seq_lib::group_to_multiset_ensures;

    reveal(Seq::filter);
    let both = names.filter(p).to_multiset().add(names.filter(q).to_multiset());
    if names.len() > 0 {
        let shorter = names.drop_last();
        lemma_filters_split(shorter, p, q);
        assert(names =~= shorter.push(names.last()));
        assert(p(names.last()) == !q(names.last()));
        assert(both =~= names.to_multiset());
    } else {
        assert(both =~= names.to_multiset());
    }
}

proof fn lemma_filter_keeps_distinct(names: Seq<Seq<char>>, pred: spec_fn(Seq<char>) -> bool)
    requires
        names.no_duplicates(),
    ensures
        names.filter(pred).no_duplicates(),
    decreases names.len(),
{
    reveal(Seq::filter);
    if names.len() > 0 {
        let shorter = names.drop_last();
        let last = names.last();
        lemma_filter_keeps_distinct(shorter, pred);
        lemma_filtered_names(shorter, pred, last);
        assert(!shorter.contains(last)) by {
            if shorter.contains(last) {
                let k = choose|k: int| 0 <= k < shorter.len() && shorter[k] == last;
                assert(names[k] == names[names.len() - 1]);
            }
        }
        let kept = shorter.filter(pred);
        let all = names.filter(pred);
        assert forall|x: int, y: int|
            0 <= x < all.len() && 0 <= y < all.len() && x != y implies all[x] != all[y] by {
            if x < kept.len() {
                assert(kept.contains(kept[x]));
            }
            if y < kept.len() {
                assert(kept.contains(kept[y]));
            }
        }
    }
}

proof fn lemma_count_of_distinct(names: Seq<Seq<char>>, name: Seq<char>)
    requires
        names.no_duplicates(),
    ensures
        names.to_multiset().count(name) == (if names.contains(name) {
            1nat
        } else {
            0
        }),
{
    broadcast use vstd::seq_lib::group_to_multiset_ensures;

    names.lemma_multiset_has_no_duplicates();
}

/// Without a selection, and where no name occurs twice in a workbook, the deleted
/// and the compared sheets are the sheets of the old workbook, and the added and the
/// compared ones those of the new workbook.
pub proof fn law_plan_covers_both_workbooks(old: Seq<Seq<char>>, new: Seq<Seq<char>>)
    requires
        old.no_duplicates(),
        new.no_duplicates(),
    ensures
        ({
            let plan = sheet_plan(old, new, None);
            &&& plan.deleted.to_multiset().add(plan.compared.to_multiset()) == old.to_multiset()
            &&& plan.added.to_multiset().add(plan.compared.to_multiset()) == new.to_multiset()
            &&& plan.deleted.len() + plan.compared.len() == old.len()
            &&& plan.added.len() + plan.compared.len() == new.len()
        }),
{
    broadcast use vstd::seq_lib::group_to_multiset_ensures;

    let plan = sheet_plan(old, new, None);
    let common = new.filter(wanted_from(old, None));
    lemma_filters_split(old, missing_from(new), wanted_from(new, None));
    lemma_filters_split(new, missing_from(old), wanted_from(old, None));
    lemma_filter_keeps_distinct(old, wanted_from(new, None));
    lemma_filter_keeps_distinct(new, wanted_from(old, None));
    assert forall|name: Seq<char>|
        common.to_multiset().count(name) == plan.compared.to_multiset().count(name) by {
        lemma_filtered_names(old, wanted_from(new, None), name);
        lemma_filtered_names(new, wanted_from(old, None), name);
        lemma_count_of_distinct(common, name);
        lemma_count_of_distinct(plan.compared, name);
    }
    assert(common.to_multiset() =~= plan.compared.to_multiset());
    assert(plan.deleted.to_multiset().add(plan.compared.to_multiset()).len()
        == plan.deleted.to_multiset().len() + plan.compared.to_multiset().len());
    assert(plan.added.to_multiset().add(plan.compared.to_multiset()).len()
        == plan.added.to_multiset().len() + plan.compared.to_multiset().len());
}

proof fn lemma_filter_push(
    names: Seq<Seq<char>>,
    pred: spec_fn(Seq<char>) -> bool,
    name: Seq<char>,
)
    ensures
        names.push(name).filter(pred) == (if pred(name) {
            names.filter(pred).push(name)
        } else {
            names.filter(pred)
        }),
{
    reveal(Seq::filter);
    assert(names.push(name).drop_last() =~= names);
}

/// A further sheet of the old workbook is put behind the deleted sheets if the new
/// workbook has none of its name, and else behind the compared ones if it is selected:
/// the sheets keep their order, and none is left out or told twice.
pub proof fn law_old_sheets_are_planned_in_order(
    old: Seq<Seq<char>>,
    new: Seq<Seq<char>>,
    selected: Option<Set<Seq<char>>>,
    name: Seq<char>,
)
    ensures
        ({
            let before = sheet_plan(old, new, selected);
            let after = sheet_plan(old.push(name), new, selected);
            &&& sheet_plan(Seq::empty(), new, selected).deleted.len() == 0
            &&& sheet_plan(Seq::empty(), new, selected).compared.len() == 0
            &&& !new.contains(name) ==> after.deleted == before.deleted.push(name) && after.compared
                == before.compared
            &&& new.contains(name) && (selected matches Some(names) ==> names.contains(name))
                ==> after.deleted == before.deleted && after.compared == before.compared.push(name)
            &&& new.contains(name) && (selected matches Some(names) && !names.contains(name))
                ==> after.deleted == before.deleted && after.compared == before.compared
        }),
{
    reveal(Seq::filter);
    lemma_filter_push(old, missing_from(new), name);
    lemma_filter_push(old, wanted_from(new, selected), name);
}

/// A further sheet of the new workbook is put behind the added sheets if the old
/// workbook has none of its name, whether it is selected or not.
pub proof fn law_new_sheets_are_planned_in_order(
    old: Seq<Seq<char>>,
    new: Seq<Seq<char>>,
    selected: Option<Set<Seq<char>>>,
    name: Seq<char>,
)
    ensures
        ({
            let before = sheet_plan(old, new, selected);
            let after = sheet_plan(old, new.push(name), selected);
            &&& sheet_plan(old, Seq::empty(), selected).added.len() == 0
            &&& !old.contains(name) ==> after.added == before.added.push(name)
            &&& old.contains(name) ==> after.added == before.added
        }),
{
    reveal(Seq::filter);
    lemma_filter_push(new, missing_from(old), name);
}

/// A sheet is selected if its name is among those of the selection, and always where
/// there is no selection.
pub proof fn law_selection_is_by_name(names: Set<Seq<char>>, set: StringHashSet, name: Seq<char>)
    ensures
        selects(None, name),
        selects(Some(names), name) <==> names.contains(name),
        selection(None) is None,
        selection(Some(set)) == Some(set@),
{
}

/// The view of a plan holds the names of each of its lists.
pub proof fn law_plan_view_keeps_every_list(plan: SheetPlan)
    ensures
        plan.deep_view().deleted == plan.deleted.deep_view(),
        plan.deep_view().added == plan.added.deep_view(),
        plan.deep_view().compared == plan.compared.deep_view(),
{
}

} // verus!
