use xl_diff::sheet_xml::{parse_sheet_style_matrix, sheet_style_matrix, SheetXmlError};
use xl_diff::style::{
    compare_style_profiles, format_xf_summary, resolve_style_matrix, resolve_style_profile,
    CellStyleProfile, StyleCatalog,
};
use xl_diff::styles_xml::{parse_style_catalog, style_catalog};
use xl_diff::targets::{normalized_target, resolve_sheet_path, sheet_targets, xlsx_sheet_targets};
use xl_diff::xml::{attr_pair, attr_value, local_name, read_events, Element, XmlAttribute, XmlEvent};

fn attribute(key: &str, value: &str) -> Result<XmlAttribute, String> {
    Ok(XmlAttribute { key: key.to_string(), value: Ok(value.to_string()) })
}

fn element(name: &str, attributes: Vec<Result<XmlAttribute, String>>) -> Element {
    Element { name: name.to_string(), attributes }
}

fn start(name: &str, attributes: Vec<Result<XmlAttribute, String>>) -> XmlEvent {
    XmlEvent::Start(element(name, attributes))
}

fn empty(name: &str, attributes: Vec<Result<XmlAttribute, String>>) -> XmlEvent {
    XmlEvent::Empty(element(name, attributes))
}

fn end(name: &str) -> XmlEvent {
    XmlEvent::End(name.to_string())
}

fn failed() -> XmlEvent {
    XmlEvent::Error("broken".to_string())
}

fn bad_value(key: &str) -> Result<XmlAttribute, String> {
    Ok(XmlAttribute { key: key.to_string(), value: Err("entity".to_string()) })
}

fn tag(event: &XmlEvent) -> String {
    match event {
        XmlEvent::Start(e) => format!("<{}>", e.name),
        XmlEvent::Empty(e) => format!("<{}/>", e.name),
        XmlEvent::End(name) => format!("</{}>", name),
        XmlEvent::Other => "other".to_string(),
        XmlEvent::Error(_) => "error".to_string(),
    }
}

fn tags(xml: &str) -> Vec<String> {
    read_events(xml).iter().map(tag).collect()
}

#[test]
fn events_of_a_document() {
    assert_eq!(
        tags("<?xml version=\"1.0\"?>\n<a:b x='1'> <c/>text<!-- n --></a:b>"),
        vec!["other", "<b>", "<c/>", "other", "other", "</b>"]
    );
    assert_eq!(tags(""), Vec::<String>::new());
    assert_eq!(tags("<a></b>"), vec!["<a>", "error"]);
    assert_eq!(tags("</a>"), vec!["error"]);
}

#[test]
fn attributes_of_a_tag() {
    let events = read_events("<a x='1 &lt; 2' p:y=\"&#65;&amp;\" z='&nope;' x='3'/>");
    assert_eq!(events.len(), 1);
    let e = match &events[0] {
        XmlEvent::Empty(e) => e,
        _ => panic!("no tag"),
    };
    assert_eq!(attr_value(e, "x"), Ok(Some("1 < 2".to_string())));
    assert_eq!(attr_value(e, "p:y"), Ok(Some("A&".to_string())));
    assert!(attr_value(e, "z").is_err());
    assert!(attr_value(e, "none").is_err());
    assert!(attr_pair(e, "x", "p:y").is_err());
    let events = read_events("<a x='1' y='2'/>");
    if let XmlEvent::Empty(e) = &events[0] {
        assert_eq!(attr_value(e, "none"), Ok(None));
        assert_eq!(
            attr_pair(e, "y", "x"),
            Ok((Some("2".to_string()), Some("1".to_string())))
        );
    } else {
        panic!("no tag");
    }
}

#[test]
fn malformed_attributes() {
    let events = read_events("<a x=1>");
    if let XmlEvent::Start(e) = &events[0] {
        assert_eq!(e.attributes.len(), 1);
        assert!(e.attributes[0].is_err());
    } else {
        panic!("no tag");
    }
}

#[test]
fn names_without_a_prefix() {
    assert_eq!(local_name("row"), "row");
    assert_eq!(local_name("x:row"), "row");
    assert_eq!(local_name("x:y:z"), "y:z");
    assert_eq!(local_name(":row"), "row");
}

#[test]
fn an_attribute_is_looked_up_from_the_left() {
    let e = element("a", vec![attribute("x", "1"), Err("bad".to_string()), attribute("y", "2")]);
    assert_eq!(attr_value(&e, "x"), Ok(Some("1".to_string())));
    assert_eq!(attr_value(&e, "y"), Err("bad".to_string()));
    assert_eq!(attr_pair(&e, "x", "x"), Err("bad".to_string()));
    let e = element("a", vec![bad_value("z"), attribute("x", "1"), attribute("x", "2")]);
    assert_eq!(attr_value(&e, "x"), Ok(Some("1".to_string())));
    assert_eq!(attr_value(&e, "z"), Err("entity".to_string()));
    assert_eq!(attr_pair(&e, "x", "y"), Ok((Some("2".to_string()), None)));
}

#[test]
fn styles_of_a_sheet() {
    let xml = "<worksheet><sheetData>\
        <row r=\"2\"><c r=\"B2\" s=\"3\"><v>1</v></c><c s=\"4\"><v>2</v></c></row>\
        <row><c s=\"5\"></c><c r=\"D3\" s=\"x\"><v/></c></row>\
        <row r=\"9\"></row>\
        </sheetData><mergeCells><mergeCell ref=\"A1:B1\"/></mergeCells></worksheet>";
    assert_eq!(
        parse_sheet_style_matrix(xml).unwrap(),
        vec![
            vec![],
            vec![None, Some(3), Some(4)],
            vec![Some(5), None, None, None],
        ]
    );
    assert_eq!(parse_sheet_style_matrix("<worksheet/>").unwrap(), Vec::<Vec<Option<u32>>>::new());
}

#[test]
fn a_cell_without_content_runs_on_to_the_next_end() {
    let xml = "<row r=\"1\"><c r=\"A1\" s=\"1\"/><c r=\"B1\" s=\"2\"><v/></c><c r=\"C1\" s=\"3\"></c></row>";
    assert_eq!(parse_sheet_style_matrix(xml).unwrap(), vec![vec![Some(1), None, Some(3)]]);
}

#[test]
fn a_self_closing_cell_hides_the_next() {
    let events = vec![
        empty("c", vec![attribute("r", "A1"), attribute("s", "1")]),
        start("c", vec![attribute("r", "B1"), attribute("s", "2")]),
        end("c"),
        start("c", vec![attribute("s", "3")]),
        end("c"),
    ];
    assert_eq!(sheet_style_matrix(&events).unwrap(), vec![vec![Some(1), Some(3)]]);
}

#[test]
fn broken_sheets() {
    let message = |events: &[XmlEvent]| match sheet_style_matrix(events) {
        Err(SheetXmlError::Xml(message)) => message,
        Err(SheetXmlError::TooFar) => "too far".to_string(),
        Ok(_) => "none".to_string(),
    };
    assert_eq!(message(&[failed()]), "broken");
    assert_eq!(message(&[start("c", vec![]), failed()]), "none");
    assert_eq!(message(&[start("c", vec![]), XmlEvent::Other, failed()]), "broken");
    assert_eq!(message(&[start("c", vec![bad_value("r")])]), "entity");
    assert_eq!(message(&[start("c", vec![bad_value("s")])]), "entity");
    assert_eq!(message(&[start("c", vec![bad_value("t")])]), "none");
    assert_eq!(message(&[start("row", vec![bad_value("r")])]), "entity");
    assert_eq!(message(&[empty("mergeCell", vec![bad_value("ref")])]), "entity");
    assert_eq!(message(&[start("mergeCell", vec![bad_value("ref")])]), "none");
    let far = format!("{}1", "Z".repeat(20));
    assert_eq!(message(&[start("c", vec![attribute("r", &far)])]), "too far");
    assert!(matches!(parse_sheet_style_matrix("<row></c>"), Err(SheetXmlError::Xml(_))));
}

#[test]
fn rows_follow_each_other() {
    let events = vec![
        start("row", vec![]),
        start("c", vec![attribute("s", "1")]),
        end("c"),
        end("row"),
        start("row", vec![]),
        start("c", vec![attribute("s", "2")]),
        end("c"),
        start("c", vec![attribute("s", "+3")]),
        end("c"),
        end("row"),
    ];
    assert_eq!(
        sheet_style_matrix(&events).unwrap(),
        vec![vec![Some(1)], vec![Some(2), Some(3)]]
    );
}

#[test]
fn the_last_tag_of_a_cell_counts() {
    let cell = |place: &str, style: &str| {
        start("c", vec![attribute("r", place), attribute("s", style)])
    };
    let events = vec![
        cell("B1", "1"),
        end("c"),
        cell("A2", "2"),
        end("c"),
        cell("B1", "3"),
        end("c"),
    ];
    assert_eq!(
        sheet_style_matrix(&events).unwrap(),
        vec![vec![None, Some(3)], vec![Some(2)]]
    );
}

fn style(id: u32, number_format: &str, ids: (u32, u32, u32), rest: (&str, &str)) -> CellStyleProfile {
    CellStyleProfile {
        style_id: id,
        number_format: number_format.to_string(),
        font: format!("fontId={}", ids.0),
        fill: format!("fillId={}", ids.1),
        border: format!("borderId={}", ids.2),
        alignment: rest.0.to_string(),
        protection: rest.1.to_string(),
    }
}

#[test]
fn a_style_sheet() {
    let xml = "<styleSheet>\
        <numFmts><numFmt numFmtId=\"164\" formatCode=\"0.00&quot;x&quot;\"></numFmt>\
        <numFmt numFmtId=\"165\" formatCode=\"ignored\"/></numFmts>\
        <cellStyleXfs><xf numFmtId=\"9\"></xf></cellStyleXfs>\
        <cellXfs>\
        <xf numFmtId=\"164\" fontId=\"1\" fillId=\"2\" borderId=\"3\">\
        <alignment horizontal=\"center\" wrapText=\"1\"/><protection locked=\"0\"></protection></xf>\
        <xf fontId=\"4\"/>\
        <xf numFmtId=\"165\"><alignment/></xf>\
        </cellXfs></styleSheet>";
    let catalog = parse_style_catalog(xml).unwrap().unwrap();
    assert_eq!(
        catalog.styles,
        vec![
            style(
                0,
                "numFmtId=164 code=0.00\"x\"",
                (1, 2, 3),
                ("horizontal=center;wrapText=1", "locked=0")
            ),
            style(
                1,
                "numFmtId=165",
                (0, 0, 0),
                ("alignment=default", "protection=default")
            ),
        ]
    );
}

#[test]
fn style_sheets_without_formats() {
    assert!(parse_style_catalog("<styleSheet/>").unwrap().is_none());
    assert!(parse_style_catalog("<cellXfs><xf/></cellXfs>").unwrap().is_none());
    assert!(style_catalog(&[start("xf", vec![]), end("xf")]).unwrap().is_none());
}

#[test]
fn a_format_that_breaks_off_counts() {
    let events = vec![
        start("cellXfs", vec![]),
        start("xf", vec![]),
        end("cellXfs"),
        empty("protection", vec![attribute("hidden", "1")]),
    ];
    let catalog = style_catalog(&events).unwrap().unwrap();
    assert_eq!(
        catalog.styles,
        vec![style(0, "numFmtId=0", (0, 0, 0), ("alignment=default", "hidden=1"))]
    );
}

#[test]
fn broken_style_sheets() {
    let error = |events: &[XmlEvent]| style_catalog(events).err();
    assert_eq!(error(&[failed()]), Some("broken".to_string()));
    assert_eq!(
        error(&[start("cellXfs", vec![]), start("xf", vec![bad_value("other")])]),
        Some("entity".to_string())
    );
    assert_eq!(
        error(&[start("numFmts", vec![]), start("numFmt", vec![bad_value("other")])]),
        None
    );
    assert_eq!(
        error(&[start("numFmts", vec![]), start("numFmt", vec![bad_value("formatCode")])]),
        Some("entity".to_string())
    );
    assert_eq!(
        error(&[
            start("cellXfs", vec![]),
            start("xf", vec![]),
            empty("alignment", vec![Err("bad".to_string())]),
        ]),
        Some("bad".to_string())
    );
    assert_eq!(
        error(&[start("cellXfs", vec![]), start("xf", vec![]), failed()]),
        Some("broken".to_string())
    );
}

#[test]
fn summaries_of_formats() {
    let code = "".to_string();
    let profile = format_xf_summary(7, "3", Some(&code), "a", "b", "c", Some("x"), None);
    assert_eq!(profile.style_id, 7);
    assert_eq!(profile.number_format, "numFmtId=3");
    assert_eq!(profile.font, "fontId=a");
    assert_eq!(profile.alignment, "x");
    assert_eq!(profile.protection, "protection=default");
}

#[test]
fn compared_formats() {
    let a = style(1, "n", (1, 2, 3), ("p", "q"));
    let b = style(2, "m", (4, 5, 6), ("r", "s"));
    assert_eq!(compare_style_profiles(None, None), (false, vec![]));
    assert_eq!(compare_style_profiles(Some(&a), Some(&a)), (false, vec![]));
    assert_eq!(
        compare_style_profiles(Some(&a), None),
        (true, vec!["style_presence".to_string()])
    );
    let (changed, parts) = compare_style_profiles(Some(&a), Some(&b));
    assert!(changed);
    assert_eq!(
        parts,
        vec!["number_format", "font", "fill", "border", "alignment", "protection"]
    );
    assert_eq!(compare_style_profiles(Some(&b), Some(&a)), (true, parts));
    let renumbered = CellStyleProfile { style_id: 9, ..a.clone() };
    assert_eq!(compare_style_profiles(Some(&a), Some(&renumbered)), (true, vec![]));
}

#[test]
fn looked_up_formats() {
    let catalog = StyleCatalog { styles: vec![style(0, "n", (0, 0, 0), ("p", "q"))] };
    assert_eq!(resolve_style_profile(Some(&catalog), None), None);
    assert_eq!(resolve_style_profile(Some(&catalog), Some(0)), Some(catalog.styles[0].clone()));
    let unknown = resolve_style_profile(Some(&catalog), Some(12)).unwrap();
    assert_eq!(unknown.style_id, 12);
    assert_eq!(unknown.number_format, "numFmtId=12");
    assert_eq!(unknown.font, "fontId=unknown");
    assert_eq!(unknown.protection, "protection=unknown");
    assert_eq!(resolve_style_profile(None, Some(12)), Some(unknown.clone()));
    let ids = vec![vec![], vec![None, Some(12)]];
    assert_eq!(
        resolve_style_matrix(Some(&catalog), Some(&ids)),
        Some(vec![vec![], vec![None, Some(unknown)]])
    );
    assert_eq!(resolve_style_matrix(Some(&catalog), None), None);
}

#[test]
fn paths_of_sheets() {
    let rels = "<Relationships>\
        <Relationship Id=\"rId1\" Target=\"worksheets/sheet1.xml\"/>\
        <Relationship Id=\"rId2\" Target=\"/worksheets/sheet2.xml\"></Relationship>\
        <Relationship Id=\"rId3\" Target=\"xl/worksheets/sheet3.xml\"/>\
        <Relationship Id=\"rId4\"/></Relationships>";
    let workbook = "<workbook xmlns:r=\"u\"><sheets>\
        <sheet name=\"A &amp; B\" sheetId=\"1\" r:id=\"rId1\"/>\
        <sheet name=\"C\" r:id=\"rId2\"/><sheet name=\"D\" r:id=\"rId3\"></sheet>\
        <sheet name=\"E\" r:id=\"rId4\"/><sheet name=\"F\"/></sheets></workbook>";
    let targets = xlsx_sheet_targets(workbook, rels).unwrap();
    let path = |name: &str| resolve_sheet_path(&targets, name);
    assert_eq!(path("A & B"), Ok("xl/worksheets/sheet1.xml".to_string()));
    assert_eq!(path("C"), Ok("xl/worksheets/sheet2.xml".to_string()));
    assert_eq!(path("D"), Ok("xl/worksheets/sheet3.xml".to_string()));
    for name in ["E", "F", "G"] {
        assert_eq!(
            path(name),
            Err(format!("Sheet '{}' not found or failed to resolve path.", name))
        );
    }
}

#[test]
fn broken_workbooks() {
    let good = [start("sheet", vec![attribute("name", "A")])];
    let bad = [failed()];
    assert_eq!(sheet_targets(&bad, &good).err(), Some("broken".to_string()));
    assert_eq!(sheet_targets(&good, &bad).err(), Some("broken".to_string()));
    let relationship = [start("Relationship", vec![bad_value("Id")])];
    assert_eq!(sheet_targets(&relationship, &good).err(), Some("entity".to_string()));
    let sheet = [start("sheet", vec![bad_value("r:id")])];
    assert_eq!(sheet_targets(&good, &sheet).err(), Some("entity".to_string()));
    assert!(sheet_targets(&good, &good).is_ok());
    assert!(xlsx_sheet_targets("<a></b>", "<a/>").is_err());
}

#[test]
fn the_last_of_equal_keys_counts() {
    let rels = [
        empty("Relationship", vec![attribute("Id", "1"), attribute("Target", "old")]),
        empty("Relationship", vec![attribute("Id", "1"), attribute("Target", "new")]),
    ];
    let sheets = [
        empty("sheet", vec![attribute("name", "S"), attribute("r:id", "1")]),
        empty("sheet", vec![attribute("name", "S"), attribute("r:id", "2")]),
    ];
    let targets = sheet_targets(&rels, &sheets).unwrap();
    assert_eq!(resolve_sheet_path(&targets, "S"), Ok("xl/new".to_string()));
}

#[test]
fn targets_inside_the_archive() {
    assert_eq!(normalized_target("a.xml"), "xl/a.xml");
    assert_eq!(normalized_target("//a.xml"), "xl/a.xml");
    assert_eq!(normalized_target("xl/a.xml"), "xl/a.xml");
    assert_eq!(normalized_target("/xl/a.xml"), "xl/xl/a.xml");
    assert_eq!(normalized_target("xl"), "xl/xl");
    assert_eq!(normalized_target(""), "xl/");
}
