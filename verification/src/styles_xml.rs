//! The cell formats of a workbook, read from its style sheet.

use crate::style::{
    format_xf_summary, resolved_style, xf_style, CellStyleProfile, StyleCatalog, StyleView,
};
use crate::text::{joined, result_view, same_text};
use crate::xml::{
    attr_pair, attribute_views, document_events, find_pair, is_last_of, read_events, AttributeView,
    Element, ElementView, EventView, XmlEvent,
};
use vstd::hash_map::StringHashMap;
use vstd::prelude::*;

verus! {

/// The part of the style sheet in which the reader stands.
#[derive(Clone, Copy, Debug, PartialEq, Eq, Structural)]
pub enum Section {
    Elsewhere,
    /// The number formats.
    NumFmts,
    /// The formats of cells.
    CellXfs,
}

/// A cell's format while it is being read.
pub struct XfRecord {
    pub num_fmt_id: String,
    pub font_id: String,
    pub fill_id: String,
    pub border_id: String,
    pub alignment: Option<String>,
    pub protection: Option<String>,
}

#[verifier::ext_equal]
pub struct XfView {
    pub num_fmt_id: Seq<char>,
    pub font_id: Seq<char>,
    pub fill_id: Seq<char>,
    pub border_id: Seq<char>,
    pub alignment: Option<Seq<char>>,
    pub protection: Option<Seq<char>>,
}

impl DeepView for XfRecord {
    type V = XfView;

    open spec fn deep_view(&self) -> XfView {
        XfView {
            num_fmt_id: self.num_fmt_id@,
            font_id: self.font_id@,
            fill_id: self.fill_id@,
            border_id: self.border_id@,
            alignment: self.alignment.deep_view(),
            protection: self.protection.deep_view(),
        }
    }
}

/// What is known of a style sheet after some of its events.
pub struct StylesScan {
    pub section: Section,
    pub codes: StringHashMap<String>,
    pub styles: Vec<CellStyleProfile>,
    pub open: Option<XfRecord>,
}

#[verifier::ext_equal]
pub struct StylesScanView {
    pub section: Section,
    /// The codes of the number formats.
    pub codes: Map<Seq<char>, Seq<char>>,
    pub styles: Seq<StyleView>,
    /// The cell's format that is being read.
    pub open: Option<XfView>,
}

impl DeepView for StylesScan {
    type V = StylesScanView;

    open spec fn deep_view(&self) -> StylesScanView {
        StylesScanView {
            section: self.section,
            codes: self.codes@.map_values(|code: String| code@),
            styles: self.styles.deep_view(),
            open: self.open.deep_view(),
        }
    }
}

/// A cell's format with the numbers that stand in its tag. Every attribute must be
/// well formed.
pub open spec fn xf_numbers(attributes: Seq<Result<AttributeView, Seq<char>>>) -> Result<
    XfView,
    Seq<char>,
>
    decreases attributes.len(),
{
    if attributes.len() == 0 {
        Ok(
            XfView {
                num_fmt_id: "0"@,
                font_id: "0"@,
                fill_id: "0"@,
                border_id: "0"@,
                alignment: None,
                protection: None,
            },
        )
    } else {
        match (xf_numbers(attributes.drop_last()), attributes.last()) {
            (Err(message), _) => Err(message),
            (Ok(_), Err(message)) => Err(message),
            (Ok(xf), Ok(a)) => match a.value {
                Err(message) => Err(message),
                Ok(value) => if a.key == "numFmtId"@ {
                    Ok(XfView { num_fmt_id: value, ..xf })
                } else if a.key == "fontId"@ {
                    Ok(XfView { font_id: value, ..xf })
                } else if a.key == "fillId"@ {
                    Ok(XfView { fill_id: value, ..xf })
                } else if a.key == "borderId"@ {
                    Ok(XfView { border_id: value, ..xf })
                } else {
                    Ok(xf)
                },
            },
        }
    }
}

/// The attributes as `key=value` with semicolons between them. Every attribute
/// must be well formed.
pub open spec fn attribute_list(attributes: Seq<Result<AttributeView, Seq<char>>>) -> Result<
    Seq<char>,
    Seq<char>,
>
    decreases attributes.len(),
{
    if attributes.len() == 0 {
        Ok(Seq::empty())
    } else {
        match (attribute_list(attributes.drop_last()), attributes.last()) {
            (Err(message), _) => Err(message),
            (Ok(_), Err(message)) => Err(message),
            (Ok(list), Ok(a)) => match a.value {
                Err(message) => Err(message),
                Ok(value) => if attributes.len() == 1 {
                    Ok(a.key + "="@ + value)
                } else {
                    Ok(list + ";"@ + (a.key + "="@ + value))
                },
            },
        }
    }
}

/// The cell's format that is being read is complete.
pub open spec fn xf_closed(scan: StylesScanView) -> StylesScanView {
    match scan.open {
        None => scan,
        Some(xf) => StylesScanView {
            styles: scan.styles.push(
                xf_style(
                    scan.styles.len() as u32,
                    xf.num_fmt_id,
                    if scan.codes.contains_key(xf.num_fmt_id) {
                        Some(scan.codes[xf.num_fmt_id])
                    } else {
                        None
                    },
                    xf.font_id,
                    xf.fill_id,
                    xf.border_id,
                    xf.alignment,
                    xf.protection,
                ),
            ),
            open: None,
            ..scan
        },
    }
}

/// A tag inside the format `xf`. An alignment or protection without attributes
/// says nothing.
pub open spec fn part_seen(scan: StylesScanView, xf: XfView, element: ElementView) -> Result<
    StylesScanView,
    Seq<char>,
> {
    if element.name == "alignment"@ {
        match attribute_list(element.attributes) {
            Err(message) => Err(message),
            Ok(list) => if element.attributes.len() == 0 {
                Ok(scan)
            } else {
                Ok(StylesScanView { open: Some(XfView { alignment: Some(list), ..xf }), ..scan })
            },
        }
    } else if element.name == "protection"@ {
        match attribute_list(element.attributes) {
            Err(message) => Err(message),
            Ok(list) => if element.attributes.len() == 0 {
                Ok(scan)
            } else {
                Ok(StylesScanView { open: Some(XfView { protection: Some(list), ..xf }), ..scan })
            },
        }
    } else {
        Ok(scan)
    }
}

/// A tag with content, outside of a cell's format.
pub open spec fn section_tag_seen(scan: StylesScanView, element: ElementView) -> Result<
    StylesScanView,
    Seq<char>,
> {
    if element.name == "numFmts"@ {
        Ok(StylesScanView { section: Section::NumFmts, ..scan })
    } else if element.name == "cellXfs"@ {
        Ok(StylesScanView { section: Section::CellXfs, ..scan })
    } else if element.name == "numFmt"@ && scan.section == Section::NumFmts {
        match find_pair(element.attributes, "numFmtId"@, "formatCode"@) {
            Err(message) => Err(message),
            Ok((Some(id), Some(code))) => Ok(
                StylesScanView { codes: scan.codes.insert(id, code), ..scan },
            ),
            Ok(_) => Ok(scan),
        }
    } else if element.name == "xf"@ && scan.section == Section::CellXfs {
        match xf_numbers(element.attributes) {
            Err(message) => Err(message),
            Ok(xf) => Ok(StylesScanView { open: Some(xf), ..scan }),
        }
    } else {
        Ok(scan)
    }
}

/// What is known after one more event. A self-closing tag counts inside of a cell's
/// format only: a self-closing `xf` or `numFmt` is passed over.
pub open spec fn styles_step(scan: StylesScanView, event: EventView) -> Result<
    StylesScanView,
    Seq<char>,
> {
    match (event, scan.open) {
        (EventView::Error(message), _) => Err(message),
        (EventView::Other, _) => Ok(scan),
        (EventView::Start(element), Some(xf)) => part_seen(scan, xf, element),
        (EventView::Empty(element), Some(xf)) => part_seen(scan, xf, element),
        (EventView::End(name), Some(_)) => if name == "xf"@ {
            Ok(xf_closed(scan))
        } else {
            Ok(scan)
        },
        (EventView::Start(element), None) => section_tag_seen(scan, element),
        (EventView::Empty(_), None) => Ok(scan),
        (EventView::End(name), None) => if name == "numFmts"@ || name == "cellXfs"@ {
            Ok(StylesScanView { section: Section::Elsewhere, ..scan })
        } else {
            Ok(scan)
        },
    }
}

/// What is known of a style sheet after its events.
pub open spec fn styles_scanned(events: Seq<EventView>) -> Result<StylesScanView, Seq<char>>
    decreases events.len(),
{
    if events.len() == 0 {
        Ok(
            StylesScanView {
                section: Section::Elsewhere,
                codes: Map::empty(),
                styles: Seq::empty(),
                open: None,
            },
        )
    } else {
        match styles_scanned(events.drop_last()) {
            Err(message) => Err(message),
            Ok(scan) => styles_step(scan, events.last()),
        }
    }
}

/// The cell formats of a style sheet; `None` if it has none. A format that the
/// document breaks off in counts. One whose `xf` tag is self-closing does not, so
/// that the formats behind it are numbered lower; nor does a number format whose
/// `numFmt` tag is self-closing.
pub open spec fn catalog_of(events: Seq<EventView>) -> Result<Option<Seq<StyleView>>, Seq<char>> {
    match styles_scanned(events) {
        Err(message) => Err(message),
        Ok(scan) => {
            let styles = xf_closed(scan).styles;
            if styles.len() == 0 {
                Ok(None)
            } else {
                Ok(Some(styles))
            }
        },
    }
}

proof fn lemma_xf_numbers_error_stays(
    attributes: Seq<Result<AttributeView, Seq<char>>>,
    k: int,
)
    requires
        0 <= k <= attributes.len(),
        xf_numbers(attributes.take(k)) is Err,
    ensures
        xf_numbers(attributes) == xf_numbers(attributes.take(k)),
    decreases attributes.len() - k,
{
    if k == attributes.len() {
        assert(attributes.take(k) =~= attributes);
    } else {
        let t = attributes.drop_last();
        assert(t.take(k) =~= attributes.take(k));
        lemma_xf_numbers_error_stays(t, k);
    }
}

proof fn lemma_attribute_list_error_stays(
    attributes: Seq<Result<AttributeView, Seq<char>>>,
    k: int,
)
    requires
        0 <= k <= attributes.len(),
        attribute_list(attributes.take(k)) is Err,
    ensures
        attribute_list(attributes) == attribute_list(attributes.take(k)),
    decreases attributes.len() - k,
{
    if k == attributes.len() {
        assert(attributes.take(k) =~= attributes);
    } else {
        let t = attributes.drop_last();
        assert(t.take(k) =~= attributes.take(k));
        lemma_attribute_list_error_stays(t, k);
    }
}

proof fn lemma_styles_error_stays(events: Seq<EventView>, k: int)
    requires
        0 <= k <= events.len(),
        styles_scanned(events.take(k)) is Err,
    ensures
        styles_scanned(events) == styles_scanned(events.take(k)),
    decreases events.len() - k,
{
    if k == events.len() {
        assert(events.take(k) =~= events);
    } else {
        let t = events.drop_last();
        assert(t.take(k) =~= events.take(k));
        lemma_styles_error_stays(t, k);
    }
}

fn read_xf(element: &Element) -> (r: Result<XfRecord, String>)
    ensures
        result_view(r) == xf_numbers(element.deep_view().attributes),
{
    let ghost all = element.deep_view().attributes;
    let mut xf = XfRecord {
        num_fmt_id: "0".to_owned(),
        font_id: "0".to_owned(),
        fill_id: "0".to_owned(),
        border_id: "0".to_owned(),
        alignment: None,
        protection: None,
    };
    let mut i: usize = 0;
    assert(all.take(0) =~= Seq::empty());
    while i < element.attributes.len()
        invariant
            i <= element.attributes.len(),
            all == attribute_views(element.attributes@),
            xf_numbers(all.take(i as int)) == Ok::<XfView, Seq<char>>(xf.deep_view()),
        decreases element.attributes.len() - i,
    {
        proof {
            assert(all[i as int] == result_view(element.attributes@[i as int]));
            assert(all.take(i + 1).drop_last() =~= all.take(i as int));
            assert(all.take(i + 1).last() == all[i as int]);
            if xf_numbers(all.take(i + 1)) is Err {
                lemma_xf_numbers_error_stays(all, i + 1);
            }
        }
        match &element.attributes[i] {
            Err(message) => {
                return Err(message.clone());
            },
            Ok(attribute) => match &attribute.value {
                Err(message) => {
                    return Err(message.clone());
                },
                Ok(value) => {
                    let key = attribute.key.as_str();
                    if same_text(key, "numFmtId") {
                        xf.num_fmt_id = value.clone();
                    } else if same_text(key, "fontId") {
                        xf.font_id = value.clone();
                    } else if same_text(key, "fillId") {
                        xf.fill_id = value.clone();
                    } else if same_text(key, "borderId") {
                        xf.border_id = value.clone();
                    }
                },
            },
        }
        i = i + 1;
    }
    assert(all.take(all.len() as int) =~= all);
    Ok(xf)
}

fn list_attributes(element: &Element) -> (r: Result<String, String>)
    ensures
        result_view(r) == attribute_list(element.deep_view().attributes),
{
    let ghost all = element.deep_view().attributes;
    let mut list = String::new();
    let mut i: usize = 0;
    proof {
        assert(all.take(0) =~= Seq::empty());
        reveal_strlit("");
        assert(list@ =~= Seq::empty());
    }
    while i < element.attributes.len()
        invariant
            i <= element.attributes.len(),
            all == attribute_views(element.attributes@),
            attribute_list(all.take(i as int)) == Ok::<Seq<char>, Seq<char>>(list@),
        decreases element.attributes.len() - i,
    {
        proof {
            assert(all[i as int] == result_view(element.attributes@[i as int]));
            assert(all.take(i + 1).drop_last() =~= all.take(i as int));
            assert(all.take(i + 1).last() == all[i as int]);
            if attribute_list(all.take(i + 1)) is Err {
                lemma_attribute_list_error_stays(all, i + 1);
            }
        }
        match &element.attributes[i] {
            Err(message) => {
                return Err(message.clone());
            },
            Ok(attribute) => match &attribute.value {
                Err(message) => {
                    return Err(message.clone());
                },
                Ok(value) => {
                    let mut part = joined(attribute.key.as_str(), "=");
                    part.append(value.as_str());
                    if i == 0 {
                        list = part;
                    } else {
                        list.append(";");
                        list.append(part.as_str());
                    }
                },
            },
        }
        i = i + 1;
    }
    assert(all.take(all.len() as int) =~= all);
    Ok(list)
}

fn close_xf(scan: StylesScan) -> (r: StylesScan)
    ensures
        r.deep_view() == xf_closed(scan.deep_view()),
{
    let mut scan = scan;
    let ghost before = scan.deep_view();
    match scan.open {
        None => scan,
        Some(xf) => {
            let code = scan.codes.get(xf.num_fmt_id.as_str());
            let alignment: Option<&str> = match &xf.alignment {
                Some(text) => Some(text.as_str()),
                None => None,
            };
            let protection: Option<&str> = match &xf.protection {
                Some(text) => Some(text.as_str()),
                None => None,
            };
            let profile = format_xf_summary(
                scan.styles.len() as u32,
                xf.num_fmt_id.as_str(),
                code,
                xf.font_id.as_str(),
                xf.fill_id.as_str(),
                xf.border_id.as_str(),
                alignment,
                protection,
            );
            scan.styles.push(profile);
            let closed = StylesScan {
                section: scan.section,
                codes: scan.codes,
                styles: scan.styles,
                open: None,
            };
            assert(closed.deep_view().styles =~= xf_closed(before).styles);
            closed
        },
    }
}

fn see_part(scan: StylesScan, element: &Element) -> (r: Result<StylesScan, String>)
    requires
        scan.open is Some,
    ensures
        result_view(r) == part_seen(
            scan.deep_view(),
            scan.open->0.deep_view(),
            element.deep_view(),
        ),
{
    let mut scan = scan;
    if same_text(element.name.as_str(), "alignment") {
        match list_attributes(element) {
            Err(message) => Err(message),
            Ok(list) => {
                if element.attributes.len() > 0 {
                    if let Some(xf) = scan.open {
                        scan.open = Some(XfRecord { alignment: Some(list), ..xf });
                    }
                }
                Ok(scan)
            },
        }
    } else if same_text(element.name.as_str(), "protection") {
        match list_attributes(element) {
            Err(message) => Err(message),
            Ok(list) => {
                if element.attributes.len() > 0 {
                    if let Some(xf) = scan.open {
                        scan.open = Some(XfRecord { protection: Some(list), ..xf });
                    }
                }
                Ok(scan)
            },
        }
    } else {
        Ok(scan)
    }
}

fn see_section_tag(scan: StylesScan, element: &Element) -> (r: Result<StylesScan, String>)
    ensures
        result_view(r) == section_tag_seen(scan.deep_view(), element.deep_view()),
{
    let mut scan = scan;
    let ghost before = scan.deep_view();
    let name = element.name.as_str();
    if same_text(name, "numFmts") {
        scan.section = Section::NumFmts;
        Ok(scan)
    } else if same_text(name, "cellXfs") {
        scan.section = Section::CellXfs;
        Ok(scan)
    } else if same_text(name, "numFmt") && scan.section == Section::NumFmts {
        match attr_pair(element, "numFmtId", "formatCode") {
            Err(message) => Err(message),
            Ok((Some(id), Some(code))) => {
                scan.codes.insert(id, code);
                assert(scan.deep_view().codes =~= before.codes.insert(id@, code@));
                Ok(scan)
            },
            Ok(_) => Ok(scan),
        }
    } else if same_text(name, "xf") && scan.section == Section::CellXfs {
        match read_xf(element) {
            Err(message) => Err(message),
            Ok(xf) => {
                scan.open = Some(xf);
                Ok(scan)
            },
        }
    } else {
        Ok(scan)
    }
}

/// What is known of a style sheet after one more event.
pub fn step_styles(scan: StylesScan, event: &XmlEvent) -> (r: Result<StylesScan, String>)
    ensures
        result_view(r) == styles_step(scan.deep_view(), event.deep_view()),
{
    let mut scan = scan;
    match event {
        XmlEvent::Error(message) => Err(message.clone()),
        XmlEvent::Other => Ok(scan),
        XmlEvent::Start(element) => {
            if scan.open.is_some() {
                see_part(scan, element)
            } else {
                see_section_tag(scan, element)
            }
        },
        XmlEvent::Empty(element) => {
            if scan.open.is_some() {
                see_part(scan, element)
            } else {
                Ok(scan)
            }
        },
        XmlEvent::End(name) => {
            if scan.open.is_some() {
                if same_text(name.as_str(), "xf") {
                    Ok(close_xf(scan))
                } else {
                    Ok(scan)
                }
            } else {
                if same_text(name.as_str(), "numFmts") || same_text(name.as_str(), "cellXfs") {
                    scan.section = Section::Elsewhere;
                }
                Ok(scan)
            }
        },
    }
}

/// The cell formats of the style sheet with the given events.
pub fn style_catalog(events: &[XmlEvent]) -> (r: Result<Option<StyleCatalog>, String>)
    ensures
        result_view(r) == catalog_of(events.deep_view()),
{
    let ghost all = events.deep_view();
    let mut scan = StylesScan {
        section: Section::Elsewhere,
        codes: StringHashMap::new(),
        styles: Vec::new(),
        open: None,
    };
    let mut i: usize = 0;
    proof {
        assert(all.take(0) =~= Seq::empty());
        assert(scan.deep_view().codes =~= Map::empty());
        assert(scan.styles.deep_view() =~= Seq::empty());
    }
    while i < events.len()
        invariant
            i <= events.len(),
            all == events.deep_view(),
            styles_scanned(all.take(i as int)) == Ok::<StylesScanView, Seq<char>>(
                scan.deep_view(),
            ),
        decreases events.len() - i,
    {
        proof {
            assert(all.take(i + 1).drop_last() =~= all.take(i as int));
            assert(all.take(i + 1).last() == events@[i as int].deep_view());
            if styles_scanned(all.take(i + 1)) is Err {
                lemma_styles_error_stays(all, i + 1);
            }
        }
        match step_styles(scan, &events[i]) {
            Ok(next) => {
                scan = next;
            },
            Err(message) => {
                return Err(message);
            },
        }
        i = i + 1;
    }
    assert(all.take(all.len() as int) =~= all);
    let closed = close_xf(scan);
    if closed.styles.len() == 0 {
        Ok(None)
    } else {
        Ok(Some(StyleCatalog { styles: closed.styles }))
    }
}

/// The cell formats of the style sheet with the given XML.
pub fn parse_style_catalog(styles_xml: &str) -> (r: Result<Option<StyleCatalog>, String>)
    ensures
        result_view(r) == catalog_of(document_events(styles_xml@)),
{
    let events = read_events(styles_xml);
    style_catalog(events.as_slice())
}

/// Whether every format has its place in the sequence as its number.
pub open spec fn numbered(styles: Seq<StyleView>) -> bool {
    forall|i: int| 0 <= i < styles.len() ==> (#[trigger] styles[i]).style_id == i as u32
}

proof fn lemma_scanned_styles_are_numbered(events: Seq<EventView>)
    requires
        styles_scanned(events) is Ok,
    ensures
        numbered(styles_scanned(events)->Ok_0.styles),
    decreases events.len(),
{
    if events.len() > 0 {
        lemma_scanned_styles_are_numbered(events.drop_last());
    }
}

/// The formats of a catalog are numbered from zero in the order of the document,
/// and a catalog is never empty.
pub proof fn law_catalog_is_numbered(events: Seq<EventView>)
    requires
        catalog_of(events) is Ok,
    ensures
        catalog_of(events)->Ok_0 matches Some(styles) ==> styles.len() > 0 && numbered(styles),
{
    lemma_scanned_styles_are_numbered(events);
}

/// The format that is looked up by a number has that number, with a catalog that
/// was read from a style sheet and without one.
pub proof fn law_resolved_style_has_its_number(events: Seq<EventView>, style_id: u32)
    requires
        catalog_of(events) is Ok,
    ensures
        resolved_style(catalog_of(events)->Ok_0, Some(style_id)) matches Some(style)
            && style.style_id == style_id,
        resolved_style(None, Some(style_id)) matches Some(style) && style.style_id == style_id,
{
    law_catalog_is_numbered(events);
}

/// Outside of a cell's format a self-closing tag changes nothing, whatever its name.
pub proof fn law_self_closing_tags_are_passed_over(events: Seq<EventView>, element: ElementView)
    requires
        styles_scanned(events) is Ok,
        styles_scanned(events)->Ok_0.open is None,
    ensures
        styles_scanned(events.push(EventView::Empty(element))) == styles_scanned(events),
{
    assert(events.push(EventView::Empty(element)).drop_last() =~= events);
}

/// The views of a format that is being read, and of what is known of a style sheet,
/// hold every field.
pub proof fn law_styles_views_keep_every_field(xf: XfRecord, scan: StylesScan, id: Seq<char>)
    ensures
        xf.deep_view().num_fmt_id == xf.num_fmt_id@,
        xf.deep_view().font_id == xf.font_id@,
        xf.deep_view().fill_id == xf.fill_id@,
        xf.deep_view().border_id == xf.border_id@,
        xf.deep_view().alignment == xf.alignment.deep_view(),
        xf.deep_view().protection == xf.protection.deep_view(),
        scan.deep_view().section == scan.section,
        scan.deep_view().styles == scan.styles.deep_view(),
        scan.deep_view().open == scan.open.deep_view(),
        scan.deep_view().codes.contains_key(id) <==> scan.codes@.contains_key(id),
        scan.codes@.contains_key(id) ==> scan.deep_view().codes[id] == scan.codes@[id]@,
{
}

/// Whether an attribute is well formed and its value can be decoded.
pub open spec fn is_sound(a: Result<AttributeView, Seq<char>>) -> bool {
    a matches Ok(attribute) && attribute.value is Ok
}

/// Whether `text` is the value of the last attribute with the name `key`, which is
/// number `i`, or a zero where no attribute has that name.
pub open spec fn is_number_of(
    text: Seq<char>,
    attributes: Seq<Result<AttributeView, Seq<char>>>,
    key: Seq<char>,
    i: int,
) -> bool {
    &&& is_last_of(attributes, key, i) ==> text == attributes[i]->Ok_0.value->Ok_0
    &&& (forall|j: int|
        0 <= j < attributes.len() ==> (#[trigger] attributes[j])->Ok_0.key != key) ==> text
        == seq!['0']
}

proof fn lemma_number_of_more(
    text: Seq<char>,
    attributes: Seq<Result<AttributeView, Seq<char>>>,
    key: Seq<char>,
    i: int,
)
    requires
        attributes.len() > 0,
        attributes.last() is Ok,
    ensures
        attributes.last()->Ok_0.key == key && text == attributes.last()->Ok_0.value->Ok_0
            ==> is_number_of(text, attributes, key, i),
        attributes.last()->Ok_0.key != key && is_number_of(text, attributes.drop_last(), key, i)
            ==> is_number_of(text, attributes, key, i),
{
    let shorter = attributes.drop_last();
    let n = attributes.len() - 1;
    assert(attributes[n] == attributes.last());
    assert forall|j: int| 0 <= j < n implies shorter[j] == #[trigger] attributes[j] by {}
    if attributes.last()->Ok_0.key != key && is_number_of(text, shorter, key, i) {
        if is_last_of(attributes, key, i) {
            assert(i < n);
            assert forall|j: int| i < j < shorter.len() implies !((#[trigger] shorter[j]) matches Ok(
                a,
            ) && a.key == key) by {
                assert(shorter[j] == attributes[j]);
            }
            assert(is_last_of(shorter, key, i));
        }
        if forall|j: int|
            0 <= j < attributes.len() ==> (#[trigger] attributes[j])->Ok_0.key != key {
            assert forall|j: int| 0 <= j < shorter.len() implies (#[trigger] shorter[j])->Ok_0.key
                != key by {
                assert(shorter[j] == attributes[j]);
            }
        }
    }
}

/// The numbers of a format are the values of its attributes of those names, the last
/// one of each name, and zero where there is none; nothing is said yet of alignment and
/// protection.
pub proof fn law_format_numbers_are_read_by_name(
    attributes: Seq<Result<AttributeView, Seq<char>>>,
    i: int,
)
    requires
        forall|j: int| 0 <= j < attributes.len() ==> is_sound(#[trigger] attributes[j]),
    ensures
        xf_numbers(attributes) is Ok,
        ({
            let xf = xf_numbers(attributes)->Ok_0;
            &&& is_number_of(xf.num_fmt_id, attributes, "numFmtId"@, i)
            &&& is_number_of(xf.font_id, attributes, "fontId"@, i)
            &&& is_number_of(xf.fill_id, attributes, "fillId"@, i)
            &&& is_number_of(xf.border_id, attributes, "borderId"@, i)
            &&& xf.alignment is None && xf.protection is None
        }),
    decreases attributes.len(),
{
    reveal_strlit("0");
    reveal_strlit("numFmtId");
    reveal_strlit("fontId");
    reveal_strlit("fillId");
    reveal_strlit("borderId");
    assert("0"@ =~= seq!['0']);
    if attributes.len() > 0 {
        let shorter = attributes.drop_last();
        assert forall|j: int| 0 <= j < shorter.len() implies is_sound(#[trigger] shorter[j]) by {
            assert(shorter[j] == attributes[j]);
        }
        law_format_numbers_are_read_by_name(shorter, i);
        assert(is_sound(attributes[attributes.len() - 1]));
        assert("numFmtId"@[0] == 'n' && "borderId"@[0] == 'b');
        assert("fontId"@[1] == 'o' && "fillId"@[1] == 'i');
        assert("fontId"@.len() == 6 && "fillId"@.len() == 6);
        assert("numFmtId"@.len() == 8 && "borderId"@.len() == 8);
        let xf = xf_numbers(attributes)->Ok_0;
        lemma_number_of_more(xf.num_fmt_id, attributes, "numFmtId"@, i);
        lemma_number_of_more(xf.font_id, attributes, "fontId"@, i);
        lemma_number_of_more(xf.fill_id, attributes, "fillId"@, i);
        lemma_number_of_more(xf.border_id, attributes, "borderId"@, i);
    }
}

/// The list of attributes names each with its value, in their order, with semicolons
/// between them.
pub proof fn law_attributes_are_listed_in_order(
    attributes: Seq<Result<AttributeView, Seq<char>>>,
    key: Seq<char>,
    value: Seq<char>,
)
    ensures
        ({
            let none = Seq::<Result<AttributeView, Seq<char>>>::empty();
            let a = Ok::<AttributeView, Seq<char>>(AttributeView { key, value: Ok(value) });
            &&& attribute_list(none) == Ok::<Seq<char>, Seq<char>>(Seq::empty())
            &&& attribute_list(none.push(a)) == Ok::<Seq<char>, Seq<char>>(
                key + seq!['='] + value,
            )
            &&& attribute_list(attributes) is Ok && attributes.len() > 0 ==> attribute_list(
                attributes.push(a),
            ) == Ok::<Seq<char>, Seq<char>>(
                attribute_list(attributes)->Ok_0 + seq![';'] + key + seq!['='] + value,
            )
        }),
{
    let none = Seq::<Result<AttributeView, Seq<char>>>::empty();
    let a = Ok::<AttributeView, Seq<char>>(AttributeView { key, value: Ok(value) });
    reveal_strlit("=");
    reveal_strlit(";");
    assert("="@ =~= seq!['=']);
    assert(";"@ =~= seq![';']);
    assert(none.push(a).drop_last() =~= none);
    assert(attributes.push(a).drop_last() =~= attributes);
    if attribute_list(attributes) is Ok {
        let list = attribute_list(attributes)->Ok_0;
        assert(list + ";"@ + (key + "="@ + value) =~= list + seq![';'] + key + seq!['='] + value);
    }
}

/// The first attribute that is malformed, or whose value cannot be decoded, is the
/// error of a format's numbers and of a list of attributes.
pub proof fn law_first_unsound_attribute_is_the_error(
    attributes: Seq<Result<AttributeView, Seq<char>>>,
    i: int,
)
    requires
        0 <= i < attributes.len(),
        forall|j: int| 0 <= j < i ==> is_sound(#[trigger] attributes[j]),
        !is_sound(attributes[i]),
    ensures
        ({
            let message = match attributes[i] {
                Err(message) => message,
                Ok(a) => a.value->Err_0,
            };
            &&& xf_numbers(attributes) == Err::<XfView, Seq<char>>(message)
            &&& attribute_list(attributes) == Err::<Seq<char>, Seq<char>>(message)
        }),
{
    let before = attributes.take(i);
    let head = attributes.take(i + 1);
    assert forall|j: int| 0 <= j < before.len() implies is_sound(#[trigger] before[j]) by {
        assert(before[j] == attributes[j]);
    }
    law_format_numbers_are_read_by_name(before, 0);
    lemma_sound_attributes_are_listed(before);
    assert(head.drop_last() =~= before);
    assert(head.last() == attributes[i]);
    lemma_xf_numbers_error_stays(attributes, i + 1);
    lemma_attribute_list_error_stays(attributes, i + 1);
}

proof fn lemma_sound_attributes_are_listed(attributes: Seq<Result<AttributeView, Seq<char>>>)
    requires
        forall|j: int| 0 <= j < attributes.len() ==> is_sound(#[trigger] attributes[j]),
    ensures
        attribute_list(attributes) is Ok,
    decreases attributes.len(),
{
    if attributes.len() > 0 {
        let shorter = attributes.drop_last();
        assert forall|j: int| 0 <= j < shorter.len() implies is_sound(#[trigger] shorter[j]) by {
            assert(shorter[j] == attributes[j]);
        }
        lemma_sound_attributes_are_listed(shorter);
        assert(is_sound(attributes[attributes.len() - 1]));
    }
}

/// Before the first event a style sheet has no formats, no codes and no section; each
/// further event is taken up in turn, until one fails, and an error in the document
/// always does. Text changes nothing.
pub proof fn law_style_sheet_is_read_event_by_event(events: Seq<EventView>, event: EventView)
    ensures
        styles_scanned(Seq::empty()) matches Ok(scan) && scan.section == Section::Elsewhere
            && scan.codes == Map::<Seq<char>, Seq<char>>::empty() && scan.styles.len() == 0
            && scan.open is None,
        styles_scanned(events) matches Ok(scan) ==> styles_scanned(events.push(event))
            == styles_step(scan, event),
        styles_scanned(events) is Err ==> styles_scanned(events.push(event)) == styles_scanned(
            events,
        ),
        styles_scanned(events) is Ok && event is Error ==> styles_scanned(events.push(event))
            == Err::<StylesScanView, Seq<char>>(event->Error_0),
        styles_scanned(events) is Ok && event is Other ==> styles_scanned(events.push(event))
            == styles_scanned(events),
{
    assert(events.push(event).drop_last() =~= events);
}

proof fn lemma_section_names()
    ensures
        "numFmts"@ != "cellXfs"@,
        "numFmt"@ != "numFmts"@,
        "numFmt"@ != "cellXfs"@,
        "numFmt"@ != "xf"@,
        "xf"@ != "numFmts"@,
        "xf"@ != "cellXfs"@,
        "alignment"@ != "protection"@,
{
    reveal_strlit("numFmts");
    reveal_strlit("cellXfs");
    reveal_strlit("numFmt");
    reveal_strlit("xf");
    reveal_strlit("alignment");
    reveal_strlit("protection");
    assert("numFmts"@[0] == 'n' && "cellXfs"@[0] == 'c');
    assert("numFmt"@.len() == 6 && "numFmts"@.len() == 7 && "cellXfs"@.len() == 7);
    assert("xf"@.len() == 2);
    assert("alignment"@.len() == 9 && "protection"@.len() == 10);
}

/// Outside of a format the opening tags of the number formats and of the cell formats
/// begin their sections, and the end tags of both lead elsewhere; a tag of another name
/// that begins no number format and no cell format changes nothing.
pub proof fn law_sections_begin_and_end(scan: StylesScanView, element: ElementView, name: Seq<char>)
    requires
        scan.open is None,
    ensures
        ({
            let start = styles_step(scan, EventView::Start(element));
            &&& element.name == "numFmts"@ || element.name == "cellXfs"@ ==> {
                &&& start is Ok
                &&& element.name == "numFmts"@ ==> start->Ok_0.section == Section::NumFmts
                &&& element.name == "cellXfs"@ ==> start->Ok_0.section == Section::CellXfs
                &&& start->Ok_0.codes == scan.codes
                &&& start->Ok_0.styles == scan.styles
                &&& start->Ok_0.open is None
            }
            &&& element.name != "numFmts"@ && element.name != "cellXfs"@ && !(element.name
                == "numFmt"@ && scan.section == Section::NumFmts) && !(element.name == "xf"@
                && scan.section == Section::CellXfs) ==> start == Ok::<StylesScanView, Seq<char>>(
                scan,
            )
        }),
        ({
            let end = styles_step(scan, EventView::End(name));
            &&& end is Ok
            &&& name == "numFmts"@ || name == "cellXfs"@ ==> end->Ok_0.section
                == Section::Elsewhere
            &&& name != "numFmts"@ && name != "cellXfs"@ ==> end->Ok_0.section == scan.section
            &&& end->Ok_0.codes == scan.codes && end->Ok_0.styles == scan.styles
            &&& end->Ok_0.open is None
        }),
{
    lemma_section_names();
}

/// Among the number formats an opening tag with a number and a code makes the code that
/// of the number, in place of an earlier one; all other codes stay.
pub proof fn law_number_format_sets_its_code(scan: StylesScanView, element: ElementView)
    requires
        scan.open is None,
        scan.section == Section::NumFmts,
        element.name == "numFmt"@,
    ensures
        ({
            let step = styles_step(scan, EventView::Start(element));
            match find_pair(element.attributes, "numFmtId"@, "formatCode"@) {
                Err(message) => step == Err::<StylesScanView, Seq<char>>(message),
                Ok((id, code)) => {
                    &&& step is Ok
                    &&& step->Ok_0.section == scan.section
                    &&& step->Ok_0.styles == scan.styles
                    &&& step->Ok_0.open is None
                    &&& id is Some && code is Some ==> step->Ok_0.codes == scan.codes.insert(
                        id->0,
                        code->0,
                    )
                    &&& id is None || code is None ==> step->Ok_0.codes == scan.codes
                },
            }
        }),
{
    lemma_section_names();
}

/// Among the cell formats the opening tag of a format opens it with its numbers, and
/// changes nothing else.
pub proof fn law_format_is_opened_with_its_numbers(scan: StylesScanView, element: ElementView)
    requires
        scan.open is None,
        scan.section == Section::CellXfs,
        element.name == "xf"@,
    ensures
        ({
            let step = styles_step(scan, EventView::Start(element));
            match xf_numbers(element.attributes) {
                Err(message) => step == Err::<StylesScanView, Seq<char>>(message),
                Ok(xf) => {
                    &&& step is Ok
                    &&& step->Ok_0.open == Some(xf)
                    &&& step->Ok_0.section == scan.section
                    &&& step->Ok_0.codes == scan.codes
                    &&& step->Ok_0.styles == scan.styles
                },
            }
        }),
{
    lemma_section_names();
}

/// Inside of a format a tag of an alignment or a protection, self-closing or not, makes
/// the list of its attributes that of the format, if it has any; every other tag, and
/// every end tag but that of the format, changes nothing.
pub proof fn law_parts_of_a_format(
    scan: StylesScanView,
    xf: XfView,
    element: ElementView,
    closed: bool,
    name: Seq<char>,
)
    requires
        scan.open == Some(xf),
    ensures
        ({
            let step = styles_step(
                scan,
                if closed {
                    EventView::Empty(element)
                } else {
                    EventView::Start(element)
                },
            );
            let list = attribute_list(element.attributes);
            let named = element.name == "alignment"@ || element.name == "protection"@;
            &&& named && list is Err ==> step == Err::<StylesScanView, Seq<char>>(list->Err_0)
            &&& !named || (list is Ok && element.attributes.len() == 0) ==> step == Ok::<
                StylesScanView,
                Seq<char>,
            >(scan)
            &&& named && list is Ok && element.attributes.len() > 0 ==> {
                &&& step is Ok
                &&& step->Ok_0.section == scan.section
                &&& step->Ok_0.codes == scan.codes
                &&& step->Ok_0.styles == scan.styles
                &&& step->Ok_0.open is Some
                &&& step->Ok_0.open->0.num_fmt_id == xf.num_fmt_id
                &&& step->Ok_0.open->0.font_id == xf.font_id
                &&& step->Ok_0.open->0.fill_id == xf.fill_id
                &&& step->Ok_0.open->0.border_id == xf.border_id
                &&& element.name == "alignment"@ ==> step->Ok_0.open->0.alignment == Some(
                    list->Ok_0,
                ) && step->Ok_0.open->0.protection == xf.protection
                &&& element.name == "protection"@ ==> step->Ok_0.open->0.protection == Some(
                    list->Ok_0,
                ) && step->Ok_0.open->0.alignment == xf.alignment
            }
        }),
        name != "xf"@ ==> styles_step(scan, EventView::End(name)) == Ok::<
            StylesScanView,
            Seq<char>,
        >(scan),
{
    lemma_section_names();
}

/// The end tag of a format puts it behind the others, under the next number and with the
/// code of its number format if there is one.
pub proof fn law_closed_format_is_added(scan: StylesScanView, xf: XfView)
    requires
        scan.open == Some(xf),
    ensures
        ({
            let step = styles_step(scan, EventView::End("xf"@));
            let code = if scan.codes.contains_key(xf.num_fmt_id) {
                Some(scan.codes[xf.num_fmt_id])
            } else {
                None
            };
            &&& step is Ok
            &&& step->Ok_0.section == scan.section
            &&& step->Ok_0.codes == scan.codes
            &&& step->Ok_0.open is None
            &&& step->Ok_0.styles == scan.styles.push(
                xf_style(
                    scan.styles.len() as u32,
                    xf.num_fmt_id,
                    code,
                    xf.font_id,
                    xf.fill_id,
                    xf.border_id,
                    xf.alignment,
                    xf.protection,
                ),
            )
        }),
{
}

/// The catalog of a style sheet holds the formats that were closed, and behind them one
/// that the document breaks off in, as if it were closed there; there is no catalog
/// without formats.
pub proof fn law_catalog_holds_every_format(events: Seq<EventView>)
    ensures
        styles_scanned(events) matches Err(message) ==> catalog_of(events) == Err::<
            Option<Seq<StyleView>>,
            Seq<char>,
        >(message),
        styles_scanned(events) matches Ok(scan) ==> {
            &&& scan.open is None && scan.styles.len() > 0 ==> catalog_of(events) == Ok::<
                Option<Seq<StyleView>>,
                Seq<char>,
            >(Some(scan.styles))
            &&& scan.open is None && scan.styles.len() == 0 ==> catalog_of(events) == Ok::<
                Option<Seq<StyleView>>,
                Seq<char>,
            >(None)
            &&& scan.open is Some ==> catalog_of(events) == catalog_of(
                events.push(EventView::End("xf"@)),
            )
        },
{
    assert(events.push(EventView::End("xf"@)).drop_last() =~= events);
}

} // verus!
