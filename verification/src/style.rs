//! Cell formats: what a style says, and how two styles differ.

use crate::grid::grid_view;
use crate::text::{decimal_text, joined, u64_text};
use vstd::prelude::*;

verus! {

/// The format of a cell, part by part.
#[derive(Debug)]
pub struct CellStyleProfile {
    pub style_id: u32,
    pub number_format: String,
    pub font: String,
    pub fill: String,
    pub border: String,
    pub alignment: String,
    pub protection: String,
}

#[verifier::ext_equal]
pub struct StyleView {
    pub style_id: u32,
    pub number_format: Seq<char>,
    pub font: Seq<char>,
    pub fill: Seq<char>,
    pub border: Seq<char>,
    pub alignment: Seq<char>,
    pub protection: Seq<char>,
}

impl DeepView for CellStyleProfile {
    type V = StyleView;

    open spec fn deep_view(&self) -> StyleView {
        StyleView {
            style_id: self.style_id,
            number_format: self.number_format@,
            font: self.font@,
            fill: self.fill@,
            border: self.border@,
            alignment: self.alignment@,
            protection: self.protection@,
        }
    }
}

impl Clone for CellStyleProfile {
    fn clone(&self) -> (r: Self)
        ensures
            r.deep_view() == self.deep_view(),
    {
        CellStyleProfile {
            style_id: self.style_id,
            number_format: self.number_format.clone(),
            font: self.font.clone(),
            fill: self.fill.clone(),
            border: self.border.clone(),
            alignment: self.alignment.clone(),
            protection: self.protection.clone(),
        }
    }
}

impl PartialEq for CellStyleProfile {
    fn eq(&self, other: &Self) -> (r: bool) {
        self.style_id == other.style_id && self.number_format == other.number_format && self.font
            == other.font && self.fill == other.fill && self.border == other.border
            && self.alignment == other.alignment && self.protection == other.protection
    }
}

impl vstd::std_specs::cmp::PartialEqSpecImpl for CellStyleProfile {
    open spec fn obeys_eq_spec() -> bool {
        true
    }

    open spec fn eq_spec(&self, other: &Self) -> bool {
        self.deep_view() == other.deep_view()
    }
}

/// The cell formats of a workbook, by their number.
#[derive(Debug)]
pub struct StyleCatalog {
    pub styles: Vec<CellStyleProfile>,
}

impl DeepView for StyleCatalog {
    type V = Seq<StyleView>;

    open spec fn deep_view(&self) -> Seq<StyleView> {
        self.styles.deep_view()
    }
}

/// The format that a style record describes.
pub open spec fn xf_style(
    style_id: u32,
    num_fmt_id: Seq<char>,
    num_fmt_code: Option<Seq<char>>,
    font_id: Seq<char>,
    fill_id: Seq<char>,
    border_id: Seq<char>,
    alignment: Option<Seq<char>>,
    protection: Option<Seq<char>>,
) -> StyleView {
    StyleView {
        style_id,
        number_format: match num_fmt_code {
            Some(code) if code.len() > 0 => "numFmtId="@ + num_fmt_id + " code="@ + code,
            _ => "numFmtId="@ + num_fmt_id,
        },
        font: "fontId="@ + font_id,
        fill: "fillId="@ + fill_id,
        border: "borderId="@ + border_id,
        alignment: match alignment {
            Some(text) => text,
            None => "alignment=default"@,
        },
        protection: match protection {
            Some(text) => text,
            None => "protection=default"@,
        },
    }
}

/// The format that a style record describes.
pub fn format_xf_summary(
    style_id: u32,
    num_fmt_id: &str,
    num_fmt_code: Option<&String>,
    font_id: &str,
    fill_id: &str,
    border_id: &str,
    alignment: Option<&str>,
    protection: Option<&str>,
) -> (r: CellStyleProfile)
    ensures
        r.deep_view() == xf_style(
            style_id,
            num_fmt_id@,
            num_fmt_code.deep_view(),
            font_id@,
            fill_id@,
            border_id@,
            alignment.deep_view(),
            protection.deep_view(),
        ),
{
    let mut number_format = joined("numFmtId=", num_fmt_id);
    match num_fmt_code {
        Some(code) => {
            if !code.as_str().is_empty() {
                number_format.append(" code=");
                number_format.append(code.as_str());
            }
        },
        None => {},
    }
    CellStyleProfile {
        style_id,
        number_format,
        font: joined("fontId=", font_id),
        fill: joined("fillId=", fill_id),
        border: joined("borderId=", border_id),
        alignment: match alignment {
            Some(text) => text.to_owned(),
            None => "alignment=default".to_owned(),
        },
        protection: match protection {
            Some(text) => text.to_owned(),
            None => "protection=default".to_owned(),
        },
    }
}

/// `names` with `name` added, if `changed`.
pub open spec fn noted(names: Seq<Seq<char>>, changed: bool, name: Seq<char>) -> Seq<Seq<char>> {
    if changed {
        names.push(name)
    } else {
        names
    }
}

/// The names of the parts in which two formats differ.
pub open spec fn style_differences(a: StyleView, b: StyleView) -> Seq<Seq<char>> {
    let names = Seq::<Seq<char>>::empty();
    let names = noted(names, a.number_format != b.number_format, "number_format"@);
    let names = noted(names, a.font != b.font, "font"@);
    let names = noted(names, a.fill != b.fill, "fill"@);
    let names = noted(names, a.border != b.border, "border"@);
    let names = noted(names, a.alignment != b.alignment, "alignment"@);
    noted(names, a.protection != b.protection, "protection"@)
}

/// Whether the format changed, and in what.
pub open spec fn style_comparison(a: Option<StyleView>, b: Option<StyleView>) -> (
    bool,
    Seq<Seq<char>>,
) {
    match (a, b) {
        (None, None) => (false, Seq::empty()),
        (Some(x), Some(y)) => (x != y, style_differences(x, y)),
        _ => (true, seq!["style_presence"@]),
    }
}

/// Adds `name` to `names`, if `changed`.
pub(crate) fn note(names: &mut Vec<String>, changed: bool, name: &str)
    ensures
        final(names).deep_view() == noted(old(names).deep_view(), changed, name@),
{
    if changed {
        names.push(name.to_owned());
    }
    assert(names.deep_view() =~= noted(old(names).deep_view(), changed, name@));
}

/// Compares two formats: whether they differ, and the names of the parts that do.
pub fn compare_style_profiles(
    old_profile: Option<&CellStyleProfile>,
    new_profile: Option<&CellStyleProfile>,
) -> (r: (bool, Vec<String>))
    ensures
        (r.0, r.1.deep_view()) == style_comparison(
            old_profile.deep_view(),
            new_profile.deep_view(),
        ),
{
    match (old_profile, new_profile) {
        (None, None) => {
            let changes: Vec<String> = Vec::new();
            assert(changes.deep_view() =~= Seq::empty());
            (false, changes)
        },
        (Some(a), Some(b)) => {
            let mut changes: Vec<String> = Vec::new();
            assert(changes.deep_view() =~= Seq::empty());
            note(&mut changes, !(a.number_format == b.number_format), "number_format");
            note(&mut changes, !(a.font == b.font), "font");
            note(&mut changes, !(a.fill == b.fill), "fill");
            note(&mut changes, !(a.border == b.border), "border");
            note(&mut changes, !(a.alignment == b.alignment), "alignment");
            note(&mut changes, !(a.protection == b.protection), "protection");
            (!(*a == *b), changes)
        },
        _ => {
            let mut changes: Vec<String> = Vec::new();
            changes.push("style_presence".to_owned());
            assert(changes.deep_view() =~= seq!["style_presence"@]);
            (true, changes)
        },
    }
}

/// The format of a style number of which the workbook says nothing.
pub open spec fn unknown_style(style_id: u32) -> StyleView {
    StyleView {
        style_id,
        number_format: "numFmtId="@ + decimal_text(style_id as nat),
        font: "fontId=unknown"@,
        fill: "fillId=unknown"@,
        border: "borderId=unknown"@,
        alignment: "alignment=unknown"@,
        protection: "protection=unknown"@,
    }
}

/// The format of the style number `style_id`.
pub open spec fn resolved_style(
    catalog: Option<Seq<StyleView>>,
    style_id: Option<u32>,
) -> Option<StyleView> {
    match style_id {
        None => None,
        Some(id) => match catalog {
            Some(styles) if id < styles.len() => Some(styles[id as int]),
            _ => Some(unknown_style(id)),
        },
    }
}

/// Looks the style number up in the catalog; a number that the catalog lacks
/// gets a format that says so.
pub fn resolve_style_profile(catalog: Option<&StyleCatalog>, style_id: Option<u32>) -> (r: Option<
    CellStyleProfile,
>)
    ensures
        r.deep_view() == resolved_style(catalog.deep_view(), style_id),
{
    match style_id {
        None => None,
        Some(id) => {
            if let Some(catalog) = catalog {
                if (id as usize) < catalog.styles.len() {
                    return Some(catalog.styles[id as usize].clone());
                }
            }
            Some(
                CellStyleProfile {
                    style_id: id,
                    number_format: joined("numFmtId=", u64_text(id as u64).as_str()),
                    font: "fontId=unknown".to_owned(),
                    fill: "fillId=unknown".to_owned(),
                    border: "borderId=unknown".to_owned(),
                    alignment: "alignment=unknown".to_owned(),
                    protection: "protection=unknown".to_owned(),
                },
            )
        },
    }
}

/// The formats of a matrix of style numbers.
pub open spec fn resolved_styles(
    catalog: Option<Seq<StyleView>>,
    ids: Seq<Seq<Option<u32>>>,
) -> Seq<Seq<Option<StyleView>>> {
    ids.map_values(
        |row: Seq<Option<u32>>|
            row.map_values(|id: Option<u32>| resolved_style(catalog, id)),
    )
}

/// Looks up every style number of a matrix.
pub fn resolve_style_matrix(
    catalog: Option<&StyleCatalog>,
    style_ids: Option<&[Vec<Option<u32>>]>,
) -> (r: Option<Vec<Vec<Option<CellStyleProfile>>>>)
    ensures
        r.deep_view() == (match grid_view(style_ids) {
            Some(ids) => Some(resolved_styles(catalog.deep_view(), ids)),
            None => None,
        }),
{
    let rows = match style_ids {
        Some(rows) => rows,
        None => {
            return None;
        },
    };
    let ghost styles = catalog.deep_view();
    let ghost expected = resolved_styles(styles, rows.deep_view());
    let mut out: Vec<Vec<Option<CellStyleProfile>>> = Vec::new();
    let mut i: usize = 0;
    while i < rows.len()
        invariant
            i <= rows.len(),
            styles == catalog.deep_view(),
            expected == resolved_styles(styles, rows.deep_view()),
            out.len() == i,
            forall|x: int| 0 <= x < i ==> (#[trigger] out@[x]).deep_view() == expected[x],
        decreases rows.len() - i,
    {
        let mut resolved: Vec<Option<CellStyleProfile>> = Vec::new();
        let mut j: usize = 0;
        while j < rows[i].len()
            invariant
                i < rows.len(),
                j <= rows@[i as int].len(),
                styles == catalog.deep_view(),
                resolved.len() == j,
                forall|y: int|
                    0 <= y < j ==> (#[trigger] resolved@[y]).deep_view() == resolved_style(
                        styles,
                        rows@[i as int]@[y],
                    ),
            decreases rows@[i as int].len() - j,
        {
            resolved.push(resolve_style_profile(catalog, rows[i][j]));
            j = j + 1;
        }
        assert(resolved.deep_view() =~= expected[i as int]);
        out.push(resolved);
        i = i + 1;
    }
    assert(out.deep_view() =~= expected);
    Some(out)
}

/// A format does not differ from itself.
pub proof fn law_style_unchanged(a: Option<StyleView>)
    ensures
        style_comparison(a, a) == (false, Seq::<Seq<char>>::empty()),
{
}

/// The order of the two formats does not matter.
pub proof fn law_style_comparison_is_symmetric(a: Option<StyleView>, b: Option<StyleView>)
    ensures
        style_comparison(a, b) == style_comparison(b, a),
{
}

/// Where a part is named as changed, the format counts as changed. The format can
/// also count as changed with no part named: when the style number alone differs.
pub proof fn law_named_change_is_a_change(a: Option<StyleView>, b: Option<StyleView>)
    ensures
        style_comparison(a, b).1.len() > 0 ==> style_comparison(a, b).0,
        style_comparison(a, b).0 && style_comparison(a, b).1.len() == 0 <==> a is Some && b is Some
            && a->0.style_id != b->0.style_id && a->0 == (StyleView {
            style_id: a->0.style_id,
            ..b->0
        }),
{
    if let (Some(x), Some(y)) = (a, b) {
        if style_differences(x, y).len() == 0 && x.style_id == y.style_id {
            assert(x =~= y);
        }
        if style_differences(x, y).len() == 0 {
            assert(x =~= (StyleView { style_id: x.style_id, ..y }));
        }
    }
}

/// A cell has a format exactly if it has a style number.
pub proof fn law_resolved_style_presence(catalog: Option<Seq<StyleView>>, style_id: Option<u32>)
    ensures
        resolved_style(catalog, style_id) is Some <==> style_id is Some,
{
}

/// The view of a format holds each of its parts, that of a catalog each of its
/// formats.
pub proof fn law_style_views_keep_every_part(profile: CellStyleProfile, catalog: StyleCatalog)
    ensures
        ({
            let v = profile.deep_view();
            &&& v.style_id == profile.style_id
            &&& v.number_format == profile.number_format@
            &&& v.font == profile.font@
            &&& v.fill == profile.fill@
            &&& v.border == profile.border@
            &&& v.alignment == profile.alignment@
            &&& v.protection == profile.protection@
        }),
        catalog.deep_view() == catalog.styles.deep_view(),
{
}

/// `name` as a list, if it applies.
pub open spec fn listed(applies: bool, name: Seq<char>) -> Seq<Seq<char>> {
    if applies {
        seq![name]
    } else {
        Seq::empty()
    }
}

/// Two formats are compared part by part: the format changed exactly if the two are
/// not the same in every part and in number, and the parts that differ are named,
/// each once and in a fixed order.
pub proof fn law_formats_are_compared_part_by_part(a: StyleView, b: StyleView)
    ensures
        style_comparison(Some(a), Some(b)).0 <==> a.style_id != b.style_id || a.number_format
            != b.number_format || a.font != b.font || a.fill != b.fill || a.border != b.border
            || a.alignment != b.alignment || a.protection != b.protection,
        style_comparison(Some(a), Some(b)).1 == listed(
            a.number_format != b.number_format,
            "number_format"@,
        ) + listed(a.font != b.font, "font"@) + listed(a.fill != b.fill, "fill"@) + listed(
            a.border != b.border,
            "border"@,
        ) + listed(a.alignment != b.alignment, "alignment"@) + listed(
            a.protection != b.protection,
            "protection"@,
        ),
        style_comparison(Some(a), None) == (true, seq!["style_presence"@]),
        style_comparison(None, Some(a)) == (true, seq!["style_presence"@]),
        !style_comparison(None, None).0 && style_comparison(None, None).1.len() == 0,
{
    if a.style_id == b.style_id && a.number_format == b.number_format && a.font == b.font && a.fill
        == b.fill && a.border == b.border && a.alignment == b.alignment && a.protection
        == b.protection {
        assert(a =~= b);
    }
    assert(style_comparison(Some(a), Some(b)).1 =~= listed(
        a.number_format != b.number_format,
        "number_format"@,
    ) + listed(a.font != b.font, "font"@) + listed(a.fill != b.fill, "fill"@) + listed(
        a.border != b.border,
        "border"@,
    ) + listed(a.alignment != b.alignment, "alignment"@) + listed(
        a.protection != b.protection,
        "protection"@,
    ));
}

/// A style number is looked up by its place in the catalog; a number beyond the
/// catalog, or without one, gives a format with that number of which nothing else is
/// known.
pub proof fn law_style_numbers_are_looked_up_by_place(styles: Seq<StyleView>, id: u32)
    ensures
        id < styles.len() ==> resolved_style(Some(styles), Some(id)) == Some(styles[id as int]),
        id >= styles.len() ==> resolved_style(Some(styles), Some(id)) == resolved_style(
            None,
            Some(id),
        ),
        resolved_style(None, Some(id)) == Some(
            StyleView {
                style_id: id,
                number_format: "numFmtId="@ + decimal_text(id as nat),
                font: "fontId=unknown"@,
                fill: "fillId=unknown"@,
                border: "borderId=unknown"@,
                alignment: "alignment=unknown"@,
                protection: "protection=unknown"@,
            },
        ),
        resolved_style(Some(styles), None) is None,
        resolved_style(None, None) is None,
{
}

/// Looking up a matrix of style numbers keeps its shape, and looks up each number by
/// itself.
pub proof fn law_matrix_is_looked_up_cell_by_cell(
    catalog: Option<Seq<StyleView>>,
    ids: Seq<Seq<Option<u32>>>,
    r: int,
    c: int,
)
    ensures
        resolved_styles(catalog, ids).len() == ids.len(),
        0 <= r < ids.len() ==> resolved_styles(catalog, ids)[r].len() == ids[r].len(),
        0 <= r < ids.len() && 0 <= c < ids[r].len() ==> resolved_styles(catalog, ids)[r][c]
            == resolved_style(catalog, ids[r][c]),
{
}

/// The format of a style record names its parts by their numbers; the code of the
/// number format is added where there is one, and what is not said of alignment and
/// protection is the default.
pub proof fn law_style_record_gives_the_format(
    style_id: u32,
    num_fmt_id: Seq<char>,
    num_fmt_code: Option<Seq<char>>,
    font_id: Seq<char>,
    fill_id: Seq<char>,
    border_id: Seq<char>,
    alignment: Option<Seq<char>>,
    protection: Option<Seq<char>>,
)
    ensures
        ({
            let style = xf_style(
                style_id,
                num_fmt_id,
                num_fmt_code,
                font_id,
                fill_id,
                border_id,
                alignment,
                protection,
            );
            &&& style.style_id == style_id
            &&& num_fmt_code is None || num_fmt_code->0.len() == 0 ==> style.number_format
                == "numFmtId="@ + num_fmt_id
            &&& num_fmt_code is Some && num_fmt_code->0.len() > 0 ==> style.number_format
                == "numFmtId="@ + num_fmt_id + " code="@ + num_fmt_code->0
            &&& style.font == "fontId="@ + font_id
            &&& style.fill == "fillId="@ + fill_id
            &&& style.border == "borderId="@ + border_id
            &&& alignment is Some ==> style.alignment == alignment->0
            &&& alignment is None ==> style.alignment == "alignment=default"@
            &&& protection is Some ==> style.protection == protection->0
            &&& protection is None ==> style.protection == "protection=default"@
        }),
{
}

} // verus!
