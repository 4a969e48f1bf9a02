//! Where the worksheets of a workbook are stored.

use crate::text::{chars_of, joined, result_view, same_text};
use crate::xml::{
    attr_pair, document_events, find_pair, read_events, Element, ElementView, EventView, XmlEvent,
};
use vstd::hash_map::StringHashMap;
use vstd::prelude::*;

verus! {

/// The pair that a tag adds to `pairs`: the values of its attributes `first` and
/// `second`, if it has the name `tag` and both attributes.
pub open spec fn with_pair(
    pairs: Seq<(Seq<char>, Seq<char>)>,
    element: ElementView,
    tag: Seq<char>,
    first: Seq<char>,
    second: Seq<char>,
) -> Result<Seq<(Seq<char>, Seq<char>)>, Seq<char>> {
    if element.name == tag {
        match find_pair(element.attributes, first, second) {
            Err(message) => Err(message),
            Ok((Some(x), Some(y))) => Ok(pairs.push((x, y))),
            Ok(_) => Ok(pairs),
        }
    } else {
        Ok(pairs)
    }
}

/// The values of the attributes `first` and `second` of the tags with the name
/// `tag` that have both, in order.
pub open spec fn tag_pairs(
    events: Seq<EventView>,
    tag: Seq<char>,
    first: Seq<char>,
    second: Seq<char>,
) -> Result<Seq<(Seq<char>, Seq<char>)>, Seq<char>>
    decreases events.len(),
{
    if events.len() == 0 {
        Ok(Seq::empty())
    } else {
        match tag_pairs(events.drop_last(), tag, first, second) {
            Err(message) => Err(message),
            Ok(pairs) => match events.last() {
                EventView::Start(element) => with_pair(pairs, element, tag, first, second),
                EventView::Empty(element) => with_pair(pairs, element, tag, first, second),
                EventView::Error(message) => Err(message),
                _ => Ok(pairs),
            },
        }
    }
}

/// The pairs as a map; of pairs with the same key the last counts.
pub open spec fn pair_map(pairs: Seq<(Seq<char>, Seq<char>)>) -> Map<Seq<char>, Seq<char>>
    decreases pairs.len(),
{
    if pairs.len() == 0 {
        Map::empty()
    } else {
        pair_map(pairs.drop_last()).insert(pairs.last().0, pairs.last().1)
    }
}

/// `s` without the slashes at its start.
pub open spec fn without_slashes(s: Seq<char>) -> Seq<char>
    decreases s.len(),
{
    if s.len() > 0 && s.first() == '/' {
        without_slashes(s.drop_first())
    } else {
        s
    }
}

/// The path inside the archive of a part that the workbook refers to.
pub open spec fn archive_path(target: Seq<char>) -> Seq<char> {
    if "xl/"@.is_prefix_of(target) {
        target
    } else {
        "xl/"@ + without_slashes(target)
    }
}

/// The paths of the sheets, by name. A sheet with no relationship has none; of
/// sheets with the same name the last that has one counts.
pub open spec fn sheet_paths(
    relationships: Map<Seq<char>, Seq<char>>,
    sheets: Seq<(Seq<char>, Seq<char>)>,
) -> Map<Seq<char>, Seq<char>>
    decreases sheets.len(),
{
    if sheets.len() == 0 {
        Map::empty()
    } else {
        let before = sheet_paths(relationships, sheets.drop_last());
        let (name, id) = sheets.last();
        if relationships.contains_key(id) {
            before.insert(name, archive_path(relationships[id]))
        } else {
            before
        }
    }
}

/// The paths of a workbook's sheets, by name: the sheets' relationships stand in
/// the workbook, and where they lead in the list of relationships.
pub open spec fn workbook_paths(relationships: Seq<EventView>, workbook: Seq<EventView>) -> Result<
    Map<Seq<char>, Seq<char>>,
    Seq<char>,
> {
    match tag_pairs(relationships, "Relationship"@, "Id"@, "Target"@) {
        Err(message) => Err(message),
        Ok(targets) => match tag_pairs(workbook, "sheet"@, "name"@, "r:id"@) {
            Err(message) => Err(message),
            Ok(sheets) => Ok(sheet_paths(pair_map(targets), sheets)),
        },
    }
}

/// The contents of a map of texts.
pub open spec fn text_map(map: StringHashMap<String>) -> Map<Seq<char>, Seq<char>> {
    map@.map_values(|text: String| text@)
}

/// The contents of the map, if there is one.
pub open spec fn text_map_result(r: Result<StringHashMap<String>, String>) -> Result<
    Map<Seq<char>, Seq<char>>,
    Seq<char>,
> {
    match r {
        Ok(map) => Ok(text_map(map)),
        Err(message) => Err(message@),
    }
}

proof fn lemma_pairs_error_stays(
    events: Seq<EventView>,
    tag: Seq<char>,
    first: Seq<char>,
    second: Seq<char>,
    k: int,
)
    requires
        0 <= k <= events.len(),
        tag_pairs(events.take(k), tag, first, second) is Err,
    ensures
        tag_pairs(events, tag, first, second) == tag_pairs(events.take(k), tag, first, second),
    decreases events.len() - k,
{
    if k == events.len() {
        assert(events.take(k) =~= events);
    } else {
        let t = events.drop_last();
        assert(t.take(k) =~= events.take(k));
        lemma_pairs_error_stays(t, tag, first, second, k);
    }
}

fn add_pair(
    pairs: &mut Vec<(String, String)>,
    element: &Element,
    tag: &str,
    first: &str,
    second: &str,
) -> (r: Result<(), String>)
    ensures
        match r {
            Ok(_) => with_pair(old(pairs).deep_view(), element.deep_view(), tag@, first@, second@)
                == Ok::<Seq<(Seq<char>, Seq<char>)>, Seq<char>>(final(pairs).deep_view()),
            Err(message) => with_pair(
                old(pairs).deep_view(),
                element.deep_view(),
                tag@,
                first@,
                second@,
            ) == Err::<Seq<(Seq<char>, Seq<char>)>, Seq<char>>(message@),
        },
{
    if same_text(element.name.as_str(), tag) {
        match attr_pair(element, first, second) {
            Err(message) => {
                return Err(message);
            },
            Ok((Some(x), Some(y))) => {
                pairs.push((x, y));
                assert(pairs.deep_view() =~= old(pairs).deep_view().push((x@, y@)));
            },
            Ok(_) => {},
        }
    }
    Ok(())
}

/// The values of the attributes `first` and `second` of the tags with the name
/// `tag` that have both, in order.
pub fn read_tag_pairs(events: &[XmlEvent], tag: &str, first: &str, second: &str) -> (r: Result<
    Vec<(String, String)>,
    String,
>)
    ensures
        result_view(r) == tag_pairs(events.deep_view(), tag@, first@, second@),
{
    let ghost all = events.deep_view();
    let mut pairs: Vec<(String, String)> = Vec::new();
    let mut i: usize = 0;
    proof {
        assert(all.take(0) =~= Seq::empty());
        assert(pairs.deep_view() =~= Seq::empty());
    }
    while i < events.len()
        invariant
            i <= events.len(),
            all == events.deep_view(),
            tag_pairs(all.take(i as int), tag@, first@, second@) == Ok::<
                Seq<(Seq<char>, Seq<char>)>,
                Seq<char>,
            >(pairs.deep_view()),
        decreases events.len() - i,
    {
        proof {
            assert(all.take(i + 1).drop_last() =~= all.take(i as int));
            assert(all.take(i + 1).last() == events@[i as int].deep_view());
            if tag_pairs(all.take(i + 1), tag@, first@, second@) is Err {
                lemma_pairs_error_stays(all, tag@, first@, second@, i + 1);
            }
        }
        let added = match &events[i] {
            XmlEvent::Start(element) => add_pair(&mut pairs, element, tag, first, second),
            XmlEvent::Empty(element) => add_pair(&mut pairs, element, tag, first, second),
            XmlEvent::Error(message) => Err(message.clone()),
            _ => Ok(()),
        };
        if let Err(message) = added {
            return Err(message);
        }
        i = i + 1;
    }
    assert(all.take(all.len() as int) =~= all);
    Ok(pairs)
}

fn map_of_pairs(pairs: &Vec<(String, String)>) -> (r: StringHashMap<String>)
    ensures
        text_map(r) == pair_map(pairs.deep_view()),
{
    let ghost all = pairs.deep_view();
    let mut map: StringHashMap<String> = StringHashMap::new();
    let mut i: usize = 0;
    proof {
        assert(all.take(0) =~= Seq::empty());
        assert(text_map(map) =~= Map::empty());
    }
    while i < pairs.len()
        invariant
            i <= pairs.len(),
            all == pairs.deep_view(),
            text_map(map) == pair_map(all.take(i as int)),
        decreases pairs.len() - i,
    {
        let ghost before = text_map(map);
        let (key, value) = &pairs[i];
        map.insert(key.clone(), value.clone());
        proof {
            assert(all.take(i + 1).drop_last() =~= all.take(i as int));
            assert(all.take(i + 1).last() == (key@, value@));
            assert(text_map(map) =~= before.insert(key@, value@));
        }
        i = i + 1;
    }
    assert(all.take(all.len() as int) =~= all);
    map
}

proof fn lemma_without_slashes_at(s: Seq<char>, k: int)
    requires
        0 <= k <= s.len(),
        forall|i: int| 0 <= i < k ==> #[trigger] s[i] == '/',
        k < s.len() ==> s[k] != '/',
    ensures
        without_slashes(s) == s.skip(k),
    decreases k,
{
    if k == 0 {
        assert(s.skip(0) =~= s);
    } else {
        let t = s.drop_first();
        assert(s[0] == '/');
        assert forall|i: int| 0 <= i < k - 1 implies #[trigger] t[i] == '/' by {
            assert(t[i] == s[i + 1]);
        }
        lemma_without_slashes_at(t, k - 1);
        assert(t.skip(k - 1) =~= s.skip(k));
    }
}

/// The path inside the archive of a part that the workbook refers to.
pub fn normalized_target(target: &str) -> (r: String)
    ensures
        r@ == archive_path(target@),
{
    let chars = chars_of(target);
    let n: usize = chars.len();
    proof {
        reveal_strlit("xl/");
    }
    if n >= 3 && chars[0] == 'x' && chars[1] == 'l' && chars[2] == '/' {
        assert(target@.subrange(0, 3) =~= "xl/"@);
        return target.to_owned();
    }
    assert(!"xl/"@.is_prefix_of(target@)) by {
        if "xl/"@.is_prefix_of(target@) {
            assert("xl/"@ == target@.subrange(0, 3));
            assert("xl/"@[0] == target@[0] && "xl/"@[1] == target@[1] && "xl/"@[2] == target@[2]);
        }
    }
    let mut k: usize = 0;
    while k < n && chars[k] == '/'
        invariant
            n == chars.len(),
            chars@ == target@,
            k <= n,
            forall|i: int| 0 <= i < k ==> #[trigger] target@[i] == '/',
        decreases n - k,
    {
        k = k + 1;
    }
    proof {
        lemma_without_slashes_at(target@, k as int);
        assert(target@.subrange(k as int, n as int) =~= target@.skip(k as int));
    }
    joined("xl/", target.substring_char(k, n))
}

fn paths_of_sheets(relationships: &StringHashMap<String>, sheets: &Vec<(String, String)>) -> (r:
    StringHashMap<String>)
    ensures
        text_map(r) == sheet_paths(text_map(*relationships), sheets.deep_view()),
{
    let ghost all = sheets.deep_view();
    let ghost targets = text_map(*relationships);
    let mut paths: StringHashMap<String> = StringHashMap::new();
    let mut i: usize = 0;
    proof {
        assert(all.take(0) =~= Seq::empty());
        assert(text_map(paths) =~= Map::empty());
    }
    while i < sheets.len()
        invariant
            i <= sheets.len(),
            all == sheets.deep_view(),
            targets == text_map(*relationships),
            text_map(paths) == sheet_paths(targets, all.take(i as int)),
        decreases sheets.len() - i,
    {
        let ghost before = text_map(paths);
        let (name, id) = &sheets[i];
        proof {
            assert(all.take(i + 1).drop_last() =~= all.take(i as int));
            assert(all.take(i + 1).last() == (name@, id@));
        }
        if let Some(target) = relationships.get(id.as_str()) {
            let path = normalized_target(target.as_str());
            paths.insert(name.clone(), path);
            assert(text_map(paths) =~= before.insert(name@, path@));
        }
        i = i + 1;
    }
    assert(all.take(all.len() as int) =~= all);
    paths
}

/// The paths of the sheets, from the events of the list of relationships and of
/// the workbook.
pub fn sheet_targets(relationships: &[XmlEvent], workbook: &[XmlEvent]) -> (r: Result<
    StringHashMap<String>,
    String,
>)
    ensures
        text_map_result(r) == workbook_paths(relationships.deep_view(), workbook.deep_view()),
{
    let targets = match read_tag_pairs(relationships, "Relationship", "Id", "Target") {
        Ok(pairs) => map_of_pairs(&pairs),
        Err(message) => {
            return Err(message);
        },
    };
    match read_tag_pairs(workbook, "sheet", "name", "r:id") {
        Ok(sheets) => Ok(paths_of_sheets(&targets, &sheets)),
        Err(message) => Err(message),
    }
}

/// The paths of the sheets of a workbook, by name, from the XML of the workbook
/// and of its list of relationships.
pub fn xlsx_sheet_targets(workbook_xml: &str, rels_xml: &str) -> (r: Result<
    StringHashMap<String>,
    String,
>)
    ensures
        text_map_result(r) == workbook_paths(
            document_events(rels_xml@),
            document_events(workbook_xml@),
        ),
{
    let relationships = read_events(rels_xml);
    let workbook = read_events(workbook_xml);
    sheet_targets(relationships.as_slice(), workbook.as_slice())
}

/// The path of the sheet `sheet_name`.
pub open spec fn path_of_sheet(paths: Map<Seq<char>, Seq<char>>, sheet_name: Seq<char>) -> Result<
    Seq<char>,
    Seq<char>,
> {
    if paths.contains_key(sheet_name) {
        Ok(paths[sheet_name])
    } else {
        Err("Sheet '"@ + sheet_name + "' not found or failed to resolve path."@)
    }
}

/// Looks up the path of a sheet.
pub fn resolve_sheet_path(targets: &StringHashMap<String>, sheet_name: &str) -> (r: Result<
    String,
    String,
>)
    ensures
        result_view(r) == path_of_sheet(text_map(*targets), sheet_name@),
{
    match targets.get(sheet_name) {
        Some(path) => Ok(path.clone()),
        None => {
            let mut message = joined("Sheet '", sheet_name);
            message.append("' not found or failed to resolve path.");
            Err(message)
        },
    }
}

/// The path of a sheet is the path of the part that a relationship of a sheet with
/// that name leads to.
pub proof fn law_path_comes_from_a_relationship(
    relationships: Map<Seq<char>, Seq<char>>,
    sheets: Seq<(Seq<char>, Seq<char>)>,
    name: Seq<char>,
)
    ensures
        sheet_paths(relationships, sheets).contains_key(name) <==> exists|i: int|
            0 <= i < sheets.len() && (#[trigger] sheets[i]).0 == name
                && relationships.contains_key(sheets[i].1),
        sheet_paths(relationships, sheets).contains_key(name) ==> exists|i: int|
            0 <= i < sheets.len() && (#[trigger] sheets[i]).0 == name
                && relationships.contains_key(sheets[i].1) && sheet_paths(
                relationships,
                sheets,
            )[name] == archive_path(relationships[sheets[i].1]),
    decreases sheets.len(),
{
    if sheets.len() > 0 {
        let t = sheets.drop_last();
        law_path_comes_from_a_relationship(relationships, t, name);
        let paths = sheet_paths(relationships, sheets);
        let last = sheets.len() - 1;
        if relationships.contains_key(sheets[last].1) && sheets[last].0 == name {
        } else {
            if sheet_paths(relationships, t).contains_key(name) {
                let i = choose|i: int|
                    0 <= i < t.len() && (#[trigger] t[i]).0 == name && relationships.contains_key(
                        t[i].1,
                    ) && sheet_paths(relationships, t)[name] == archive_path(
                        relationships[t[i].1],
                    );
                assert(sheets[i] == t[i]);
            }
            if exists|i: int|
                0 <= i < sheets.len() && (#[trigger] sheets[i]).0 == name
                    && relationships.contains_key(sheets[i].1) {
                let i = choose|i: int|
                    0 <= i < sheets.len() && (#[trigger] sheets[i]).0 == name
                        && relationships.contains_key(sheets[i].1);
                assert(t[i] == sheets[i]);
            }
        }
    }
}

/// Every path of a sheet lies in the archive's directory `xl`.
pub proof fn law_archive_path_is_in_xl(target: Seq<char>)
    ensures
        "xl/"@.is_prefix_of(archive_path(target)),
{
    let path = archive_path(target);
    if !"xl/"@.is_prefix_of(target) {
        assert(path.subrange(0, "xl/"@.len() as int) =~= "xl/"@);
    }
}

/// Whether `after` is what pairs are after a further tag: one more if the tag has the
/// given name and both attributes, an error if its attributes give one.
pub open spec fn is_after_tag(
    before: Seq<(Seq<char>, Seq<char>)>,
    after: Result<Seq<(Seq<char>, Seq<char>)>, Seq<char>>,
    element: ElementView,
    tag: Seq<char>,
    first: Seq<char>,
    second: Seq<char>,
) -> bool {
    let found = find_pair(element.attributes, first, second);
    &&& after is Err <==> element.name == tag && found is Err
    &&& after is Err ==> after->Err_0 == found->Err_0
    &&& after is Ok && !(element.name == tag && found->Ok_0.0 is Some && found->Ok_0.1 is Some)
        ==> after->Ok_0 == before
    &&& after is Ok && element.name == tag && found->Ok_0.0 is Some && found->Ok_0.1 is Some
        ==> after->Ok_0 == before.push((found->Ok_0.0->0, found->Ok_0.1->0))
}

/// Without events there are no pairs. A further tag of the given name puts a pair
/// behind the others if it has both attributes, whether it is self-closing or not, and
/// fails if its attributes cannot be read; an error in the document fails too, and
/// every other event changes nothing. After a failure nothing changes any more.
pub proof fn law_pairs_are_read_tag_by_tag(
    events: Seq<EventView>,
    event: EventView,
    tag: Seq<char>,
    first: Seq<char>,
    second: Seq<char>,
)
    ensures
        tag_pairs(Seq::empty(), tag, first, second) == Ok::<
            Seq<(Seq<char>, Seq<char>)>,
            Seq<char>,
        >(Seq::empty()),
        ({
            let before = tag_pairs(events, tag, first, second);
            let after = tag_pairs(events.push(event), tag, first, second);
            &&& before is Err ==> after == before
            &&& before is Ok ==> match event {
                EventView::Start(element) => is_after_tag(
                    before->Ok_0,
                    after,
                    element,
                    tag,
                    first,
                    second,
                ),
                EventView::Empty(element) => is_after_tag(
                    before->Ok_0,
                    after,
                    element,
                    tag,
                    first,
                    second,
                ),
                EventView::Error(message) => after == Err::<
                    Seq<(Seq<char>, Seq<char>)>,
                    Seq<char>,
                >(message),
                _ => after == before,
            }
        }),
{
    assert(events.push(event).drop_last() =~= events);
}

/// Of pairs with the same key the last counts, and there are no other keys.
pub proof fn law_last_pair_counts(pairs: Seq<(Seq<char>, Seq<char>)>, i: int, key: Seq<char>)
    ensures
        pair_map(pairs).contains_key(key) <==> exists|j: int|
            0 <= j < pairs.len() && (#[trigger] pairs[j]).0 == key,
        0 <= i < pairs.len() && (forall|j: int|
            i < j < pairs.len() ==> (#[trigger] pairs[j]).0 != pairs[i].0) ==> pair_map(pairs)[
            pairs[i].0
        ] == pairs[i].1,
    decreases pairs.len(),
{
    if pairs.len() > 0 {
        let shorter = pairs.drop_last();
        let n = pairs.len() - 1;
        law_last_pair_counts(shorter, i, key);
        if exists|j: int| 0 <= j < shorter.len() && (#[trigger] shorter[j]).0 == key {
            let j = choose|j: int| 0 <= j < shorter.len() && (#[trigger] shorter[j]).0 == key;
            assert(pairs[j].0 == key);
        }
        assert(pairs[n] == pairs.last());
        assert forall|j: int| 0 <= j < n implies shorter[j] == #[trigger] pairs[j] by {}
        if 0 <= i < n && (forall|j: int|
            i < j < pairs.len() ==> (#[trigger] pairs[j]).0 != pairs[i].0) {
            assert(pairs[n].0 != pairs[i].0);
            assert forall|j: int| i < j < shorter.len() implies (#[trigger] shorter[j]).0
                != shorter[i].0 by {
                assert(shorter[j] == pairs[j]);
            }
        }
    }
}

/// Of sheets with the same name the last one that has a relationship counts: its path
/// is that of the part to which the relationship leads.
pub proof fn law_last_sheet_with_a_relationship_counts(
    relationships: Map<Seq<char>, Seq<char>>,
    sheets: Seq<(Seq<char>, Seq<char>)>,
    i: int,
)
    requires
        0 <= i < sheets.len(),
        relationships.contains_key(sheets[i].1),
        forall|j: int|
            i < j < sheets.len() && relationships.contains_key(sheets[j].1)
                ==> (#[trigger] sheets[j]).0 != sheets[i].0,
    ensures
        sheet_paths(relationships, sheets).contains_key(sheets[i].0),
        sheet_paths(relationships, sheets)[sheets[i].0] == archive_path(
            relationships[sheets[i].1],
        ),
    decreases sheets.len(),
{
    let shorter = sheets.drop_last();
    let n = sheets.len() - 1;
    assert(sheets.last() == sheets[n]);
    if i < n {
        assert forall|j: int|
            i < j < shorter.len() && relationships.contains_key(
                shorter[j].1,
            ) implies (#[trigger] shorter[j]).0 != shorter[i].0 by {
            assert(shorter[j] == sheets[j]);
        }
        law_last_sheet_with_a_relationship_counts(relationships, shorter, i);
        assert(shorter[i] == sheets[i]);
        assert(relationships.contains_key(sheets[n].1) ==> sheets[n].0 != sheets[i].0);
    }
}

/// A workbook and its relationships give paths exactly if both can be read. A sheet
/// that is the last of its name with a relationship has the path of the last
/// relationship with that `Id`; without any such sheet a name has no path.
pub proof fn law_sheets_lead_to_the_targets_of_their_relationships(
    relationships: Seq<EventView>,
    workbook: Seq<EventView>,
    i: int,
    k: int,
)
    ensures
        ({
            let targets = tag_pairs(relationships, "Relationship"@, "Id"@, "Target"@);
            let sheets = tag_pairs(workbook, "sheet"@, "name"@, "r:id"@);
            let paths = workbook_paths(relationships, workbook);
            &&& targets is Err ==> paths == Err::<Map<Seq<char>, Seq<char>>, Seq<char>>(
                targets->Err_0,
            )
            &&& targets is Ok && sheets is Err ==> paths == Err::<
                Map<Seq<char>, Seq<char>>,
                Seq<char>,
            >(sheets->Err_0)
            &&& targets is Ok && sheets is Ok ==> {
                let t = targets->Ok_0;
                let s = sheets->Ok_0;
                &&& paths is Ok
                &&& {
                    &&& 0 <= k < t.len() && forall|j: int|
                        k < j < t.len() ==> (#[trigger] t[j]).0 != t[k].0
                    &&& 0 <= i < s.len() && s[i].1 == t[k].0 && forall|j: int|
                        i < j < s.len() && (exists|m: int|
                            0 <= m < t.len() && (#[trigger] t[m]).0 == s[j].1)
                            ==> (#[trigger] s[j]).0 != s[i].0
                } ==> paths->Ok_0.contains_key(s[i].0) && paths->Ok_0[s[i].0] == archive_path(
                    t[k].1,
                )
                &&& forall|name: Seq<char>| #[trigger]
                    paths->Ok_0.contains_key(name) ==> exists|j: int|
                        0 <= j < s.len() && (#[trigger] s[j]).0 == name
            }
        }),
{
    let targets = tag_pairs(relationships, "Relationship"@, "Id"@, "Target"@);
    let sheets = tag_pairs(workbook, "sheet"@, "name"@, "r:id"@);
    let paths = workbook_paths(relationships, workbook);
    if targets is Ok && sheets is Ok {
        let t = targets->Ok_0;
        let s = sheets->Ok_0;
        let map = pair_map(t);
        if {
            &&& 0 <= k < t.len() && forall|j: int|
                k < j < t.len() ==> (#[trigger] t[j]).0 != t[k].0
            &&& 0 <= i < s.len() && s[i].1 == t[k].0 && forall|j: int|
                i < j < s.len() && (exists|m: int|
                    0 <= m < t.len() && (#[trigger] t[m]).0 == s[j].1) ==> (#[trigger] s[j]).0
                    != s[i].0
        } {
            law_last_pair_counts(t, k, t[k].0);
            assert(t[k].0 == s[i].1);
            assert forall|j: int|
                i < j < s.len() && map.contains_key(s[j].1) implies (#[trigger] s[j]).0
                != s[i].0 by {
                law_last_pair_counts(t, k, s[j].1);
            }
            law_last_sheet_with_a_relationship_counts(map, s, i);
        }
        assert forall|name: Seq<char>| #[trigger]
            paths->Ok_0.contains_key(name) implies exists|j: int|
            0 <= j < s.len() && (#[trigger] s[j]).0 == name by {
            law_path_comes_from_a_relationship(map, s, name);
        }
    }
}

/// A target in the directory `xl` is its own path; any other is taken to lie in that
/// directory, without the slashes that it begins with.
pub proof fn law_targets_lie_in_xl(target: Seq<char>, slashes: Seq<char>, rest: Seq<char>)
    requires
        target == slashes + rest,
        forall|i: int| 0 <= i < slashes.len() ==> #[trigger] slashes[i] == '/',
        rest.len() > 0 ==> rest[0] != '/',
    ensures
        target.len() >= 3 && target[0] == 'x' && target[1] == 'l' && target[2] == '/'
            ==> archive_path(target) == target,
        !(target.len() >= 3 && target[0] == 'x' && target[1] == 'l' && target[2] == '/')
            ==> archive_path(target) == seq!['x', 'l', '/'] + rest,
{
    reveal_strlit("xl/");
    assert("xl/"@ =~= seq!['x', 'l', '/']);
    if target.len() >= 3 && target[0] == 'x' && target[1] == 'l' && target[2] == '/' {
        assert(target.subrange(0, 3) =~= "xl/"@);
    } else {
        assert(!"xl/"@.is_prefix_of(target)) by {
            if "xl/"@.is_prefix_of(target) {
                assert("xl/"@ == target.subrange(0, 3));
                assert("xl/"@[0] == target[0] && "xl/"@[1] == target[1] && "xl/"@[2] == target[2]);
            }
        }
        let k = slashes.len() as int;
        assert forall|i: int| 0 <= i < k implies #[trigger] target[i] == '/' by {
            assert(target[i] == slashes[i]);
        }
        if k < target.len() {
            assert(target[k] == rest[0]);
        }
        lemma_without_slashes_at(target, k);
        assert(target.skip(k) =~= rest);
    }
}

/// A sheet has the path that is stored under its name; without one the message names
/// the sheet.
pub proof fn law_path_is_looked_up_by_name(
    paths: Map<Seq<char>, Seq<char>>,
    sheet_name: Seq<char>,
    map: StringHashMap<String>,
)
    ensures
        paths.contains_key(sheet_name) ==> path_of_sheet(paths, sheet_name) == Ok::<
            Seq<char>,
            Seq<char>,
        >(paths[sheet_name]),
        !paths.contains_key(sheet_name) ==> path_of_sheet(paths, sheet_name) == Err::<
            Seq<char>,
            Seq<char>,
        >("Sheet '"@ + sheet_name + "' not found or failed to resolve path."@),
        text_map(map).contains_key(sheet_name) <==> map@.contains_key(sheet_name),
        map@.contains_key(sheet_name) ==> text_map(map)[sheet_name] == map@[sheet_name]@,
        text_map_result(Ok(map)) == Ok::<Map<Seq<char>, Seq<char>>, Seq<char>>(text_map(map)),
{
}

} // verus!
