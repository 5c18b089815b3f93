use indexmap::IndexMap;
use tabnas_xml::error::WfError;
use tabnas_xml::lex::{discount_bom, scan, MatcherState, ParseState, Scan, DEPTH_LIMIT};
use tabnas_xml::namespace::{Element, Node};
use tabnas_xml::tree::{
    check_close, check_doc_text, element_of, finish_document, matcher_state, push_child,
    XmlOptions,
};

fn chars(s: &str) -> Vec<char> {
    s.chars().collect()
}

fn default_state() -> MatcherState {
    matcher_state(&XmlOptions::default())
}

/// Scan `src` once from a fresh state with `depth` elements open.
fn scan_at(depth: i64, src: &str) -> (Scan, ParseState) {
    let ms = default_state();
    let mut ps = ParseState::new();
    ps.set_depth(depth);
    let r = scan(&ms, &mut ps, &chars(src));
    (r, ps)
}

fn bad(code: WfError, from: usize, to: usize) -> Scan {
    Scan::Bad { code, from, to }
}

fn same(a: &Scan, b: &Scan) -> bool {
    match (a, b) {
        (Scan::Ignored { end: x }, Scan::Ignored { end: y }) => x == y,
        (Scan::Text { text: t, end: x }, Scan::Text { text: u, end: y }) => t == u && x == y,
        (Scan::Close { name: n, end: x }, Scan::Close { name: m, end: y }) => n == m && x == y,
        (
            Scan::Bad { code: c, from: f, to: t },
            Scan::Bad { code: d, from: g, to: u },
        ) => c == d && f == g && t == u,
        (Scan::NoMatch, Scan::NoMatch) => true,
        _ => false,
    }
}

fn describe(s: &Scan) -> String {
    match s {
        Scan::Ignored { end } => format!("Ignored({end})"),
        Scan::Text { text, end } => format!("Text({text:?}, {end})"),
        Scan::Open { name, attributes, end } => format!("Open({name}, {attributes:?}, {end})"),
        Scan::SelfClose { name, attributes, end } => {
            format!("SelfClose({name}, {attributes:?}, {end})")
        }
        Scan::Close { name, end } => format!("Close({name}, {end})"),
        Scan::Bad { code, from, to } => format!("Bad({}, {from}, {to})", code.code()),
        Scan::NoMatch => "NoMatch".to_string(),
    }
}

fn expect(depth: i64, src: &str, want: Scan) {
    let (got, _) = scan_at(depth, src);
    assert!(same(&got, &want), "{src:?}: got {}, want {}", describe(&got), describe(&want));
}

fn attrs(pairs: &[(&str, &str)]) -> IndexMap<String, String> {
    pairs.iter().map(|(k, v)| (k.to_string(), v.to_string())).collect()
}

/// Read a whole document with the scanner and the tree builder: the
/// document element, or the code of the first diagnostic.
fn read_document(src: &str, options: &XmlOptions) -> Result<Element, &'static str> {
    let ms = matcher_state(options);
    let mut ps = ParseState::new();
    let text = chars(src);
    let mut pos = if ps.skip_bom(0, 0, &text) { 1 } else { 0 };
    let mut open: Vec<Element> = Vec::new();
    let mut root: Option<Element> = None;
    while pos < text.len() {
        let rest = &text[pos..];
        let mut finished: Option<Element> = None;
        match scan(&ms, &mut ps, rest) {
            Scan::NoMatch => {
                let end = rest.iter().position(|c| *c == '<').unwrap_or(rest.len());
                if end == 0 {
                    return Err("unexpected");
                }
                let t: String = rest[..end].iter().collect();
                if let Some(e) = check_doc_text(&t) {
                    return Err(e.code());
                }
                pos += end;
            }
            Scan::Bad { code, .. } => return Err(code.code()),
            Scan::Ignored { end } => pos += end,
            Scan::Text { text: t, end } => {
                match open.last_mut() {
                    Some(e) => push_child(e, Node::Text(t)),
                    None => {
                        if let Some(e) = check_doc_text(&t) {
                            return Err(e.code());
                        }
                    }
                }
                pos += end;
            }
            Scan::Open { name, attributes, end } => {
                open.push(element_of(&name, attributes, &ps));
                pos += end;
            }
            Scan::SelfClose { name, attributes, end } => {
                finished = Some(element_of(&name, attributes, &ps));
                pos += end;
            }
            Scan::Close { name, end } => {
                let e = open.pop().ok_or("unexpected")?;
                if let Some(err) = check_close(&e.name, &name) {
                    return Err(err.code());
                }
                finished = Some(e);
                pos += end;
            }
        }
        if let Some(e) = finished {
            match open.last_mut() {
                Some(parent) => push_child(parent, Node::Element(e)),
                None => {
                    if root.is_some() {
                        return Err("unexpected");
                    }
                    root = Some(e);
                }
            }
        }
    }
    if !open.is_empty() {
        return Err("unexpected");
    }
    let mut root = root.ok_or("unexpected")?;
    finish_document(&mut root, &mut ps, options).map_err(|e| e.code())?;
    Ok(root)
}

fn read(src: &str) -> Result<Element, &'static str> {
    read_document(src, &XmlOptions::default())
}

fn texts(e: &Element) -> Vec<String> {
    e.children
        .iter()
        .filter_map(|c| match c {
            Node::Text(t) => Some(t.clone()),
            Node::Element(_) => None,
        })
        .collect()
}

fn first_child(e: &Element) -> &Element {
    e.children
        .iter()
        .find_map(|c| match c {
            Node::Element(x) => Some(x),
            Node::Text(_) => None,
        })
        .expect("an element child")
}

#[test]
fn comments_are_ignored_or_diagnosed() {
    expect(0, "<!-- hi -->rest", Scan::Ignored { end: 11 });
    expect(0, "<!-- a -- b -->", bad(WfError::CommentDoubleDash, 0, 15));
    expect(0, "<!-- x", bad(WfError::UnterminatedComment, 0, 6));
    expect(0, "<!--\u{1}-->", bad(WfError::InvalidXmlChar, 0, 8));
    expect(0, "<!---->", Scan::Ignored { end: 7 });
}

#[test]
fn cdata_is_verbatim_text_with_line_ends_normalised() {
    expect(
        0,
        "<![CDATA[a\r\nb&amp;]]>x",
        Scan::Text { text: "a\nb&amp;".to_string(), end: 21 },
    );
    expect(0, "<![CDATA[a", bad(WfError::UnterminatedCdata, 0, 10));
    expect(0, "<![CDATA[\u{2}]]>", bad(WfError::InvalidXmlChar, 0, 13));
}

#[test]
fn processing_instructions_need_a_name_target() {
    expect(0, "<?xml version=\"1.0\"?><a/>", Scan::Ignored { end: 21 });
    expect(0, "<?pi?>", Scan::Ignored { end: 6 });
    expect(0, "<??>", bad(WfError::PiTargetInvalid, 0, 4));
    expect(0, "<?a/b?>", bad(WfError::PiTargetInvalid, 0, 7));
    expect(0, "<?pi data", bad(WfError::UnterminatedPi, 0, 9));
    expect(0, "<?pi \u{3}?>", bad(WfError::InvalidXmlChar, 0, 8));
}

#[test]
fn a_standalone_declaration_restores_the_entity_rule() {
    let (_, ps) = scan_at(0, "<?xml version='1.0' standalone='yes'?>");
    assert!(ps.standalone);
    let (_, ps) = scan_at(0, "<?xml standalone=\"no\"?>");
    assert!(!ps.standalone);
    let (_, ps) = scan_at(0, "<?other standalone=\"yes\"?>");
    assert!(!ps.standalone);
}

#[test]
fn close_tags_lower_the_depth() {
    let (r, ps) = scan_at(1, "</a >");
    assert!(same(&r, &Scan::Close { name: "a".to_string(), end: 5 }));
    assert_eq!(ps.depth(), 0);
    let (_, ps) = scan_at(0, "</a>");
    assert_eq!(ps.depth(), 0);
    expect(1, "</>", bad(WfError::XmlInvalidTag, 0, 3));
    expect(1, "</", bad(WfError::XmlInvalidTag, 0, 2));
    expect(1, "</a x>", bad(WfError::XmlInvalidTag, 0, 5));
    expect(1, "</a", bad(WfError::XmlInvalidTag, 0, 3));
}

#[test]
fn open_tags_carry_their_attributes_in_order() {
    let (r, ps) = scan_at(0, "<a b=\"1\" c='x&amp;y'\td\n=\t\"a\tb\">");
    match r {
        Scan::Open { name, attributes, end } => {
            assert_eq!(name, "a");
            assert_eq!(attributes, attrs(&[("b", "1"), ("c", "x&y"), ("d", "a b")]));
            assert_eq!(end, 31);
        }
        other => panic!("got {}", describe(&other)),
    }
    assert_eq!(ps.depth(), 1);
    let (r, ps) = scan_at(0, "<e/>");
    match r {
        Scan::SelfClose { name, attributes, end } => {
            assert_eq!(name, "e");
            assert!(attributes.is_empty());
            assert_eq!(end, 4);
        }
        other => panic!("got {}", describe(&other)),
    }
    assert_eq!(ps.depth(), 0);
}

#[test]
fn malformed_tags_are_diagnosed_where_they_break() {
    expect(0, "< a>", Scan::NoMatch);
    expect(0, "<a b=\"1\"c=\"2\">", bad(WfError::XmlInvalidTag, 0, 9));
    expect(0, "<a b=\"1\" b=\"2\">", bad(WfError::DuplicateAttribute, 0, 14));
    expect(0, "<a b=\"<\">", bad(WfError::LtInAttrValue, 0, 7));
    expect(0, "<a b=1>", bad(WfError::XmlInvalidTag, 0, 6));
    expect(0, "<a b>", bad(WfError::XmlInvalidTag, 0, 5));
    expect(0, "<a b=\"1", bad(WfError::XmlInvalidTag, 0, 7));
    expect(0, "<a", bad(WfError::XmlInvalidTag, 0, 2));
    expect(0, "<a b=\"&bogus;\">", bad(WfError::UndeclaredEntity, 6, 14));
    expect(0, "<a b=\"\u{1}\">", bad(WfError::InvalidXmlChar, 6, 8));
}

#[test]
fn the_tag_that_passes_the_depth_limit_is_refused() {
    let ms = default_state();
    let mut ps = ParseState::new();
    let open = chars("<a>");
    for _ in 0..DEPTH_LIMIT {
        let r = scan(&ms, &mut ps, &open);
        assert!(matches!(r, Scan::Open { .. }));
    }
    assert_eq!(ps.depth(), DEPTH_LIMIT);
    let r = scan(&ms, &mut ps, &open);
    assert!(same(&r, &bad(WfError::Cancel, 0, 3)), "got {}", describe(&r));
    assert_eq!(ps.depth(), DEPTH_LIMIT);
    let r = scan(&ms, &mut ps, &chars("<a/>"));
    assert!(matches!(r, Scan::SelfClose { .. }));
    let r = scan(&ms, &mut ps, &chars("</a>"));
    assert!(matches!(r, Scan::Close { .. }));
    assert_eq!(ps.depth(), DEPTH_LIMIT - 1);
}

#[test]
fn text_is_one_token_only_inside_an_element() {
    expect(0, "abc<a>", Scan::NoMatch);
    expect(0, "", Scan::NoMatch);
    expect(1, "a, b: &amp;c\r\nd<x>", Scan::Text { text: "a, b: &c\nd".to_string(), end: 15 });
    expect(1, "&#65;&#x42;", Scan::Text { text: "AB".to_string(), end: 11 });
    expect(1, "a]]>b", bad(WfError::CdataTerminatorInText, 0, 5));
    expect(1, "&nope;", bad(WfError::UndeclaredEntity, 0, 6));
    expect(1, "a & b", bad(WfError::BadEntityRef, 0, 5));
    expect(1, "x\u{8}", bad(WfError::InvalidXmlChar, 0, 2));
    let options = XmlOptions { entities: false, ..XmlOptions::default() };
    let ms = matcher_state(&options);
    let mut ps = ParseState::new();
    ps.set_depth(1);
    let r = scan(&ms, &mut ps, &chars("&amp;\r"));
    assert!(same(&r, &Scan::Text { text: "&amp;\n".to_string(), end: 6 }));
}

#[test]
fn a_doctype_records_its_declarations() {
    let src = "<!DOCTYPE d [<!ENTITY e \"v\"><!ENTITY x SYSTEM \"u\"><!ENTITY n SYSTEM \"u\" NDATA g>\
               <!ATTLIST d a CDATA \"1\" b CDATA #FIXED 'z'>]>rest";
    let (r, ps) = scan_at(0, src);
    assert!(same(&r, &Scan::Ignored { end: src.chars().count() - 4 }), "got {}", describe(&r));
    assert_eq!(ps.dtd_entities().get("e").map(|s| s.as_str()), Some("v"));
    assert!(ps.entity_decl_state().external.contains_key("x"));
    assert!(ps.entity_decl_state().unparsed.contains_key("n"));
    assert!(!ps.dtd_unread);
    let row = ps.dtd_attr_defaults.get("d").expect("defaults for d");
    assert_eq!(row, &attrs(&[("a", "1"), ("b", "z")]));
    expect(0, "<!DOCTYPE d [ <!ENTITY e \"]>\"> ", bad(WfError::UnterminatedDoctype, 0, 31));
}

#[test]
fn an_unread_dtd_suspends_the_entity_rule() {
    let (_, ps) = scan_at(0, "<!DOCTYPE d SYSTEM \"d.dtd\">");
    assert!(ps.dtd_unread);
    assert!(ps.entity_decl_state().unread);
    let (_, ps) = scan_at(0, "<!DOCTYPE d [%p;]>");
    assert!(ps.dtd_unread);
    let (_, ps) = scan_at(0, "<!DOCTYPE d [<!ENTITY e 'v'>]>");
    assert!(!ps.dtd_unread);
    assert_eq!(read("<!DOCTYPE d SYSTEM \"u\"><d>&z;</d>").map(|e| texts(&e)), Ok(vec!["&z;".to_string()]));
    assert_eq!(
        read("<?xml standalone=\"yes\"?><!DOCTYPE d SYSTEM \"u\"><d>&z;</d>").map(|_| ()),
        Err("undeclared_entity")
    );
}

#[test]
fn a_byte_order_mark_column_is_given_back_on_its_row() {
    let mut ps = ParseState::new();
    assert_eq!(discount_bom(&ps, 1, 5), 5);
    assert!(ps.skip_bom(0, 1, &chars("\u{FEFF}<a/>")));
    assert_eq!(discount_bom(&ps, 1, 5), 4);
    assert_eq!(discount_bom(&ps, 1, 1), 1);
    assert_eq!(discount_bom(&ps, 2, 5), 5);
    let mut other = ParseState::new();
    assert!(!other.skip_bom(3, 1, &chars("\u{FEFF}")));
    assert!(!other.skip_bom(0, 1, &chars("<a/>")));
    assert_eq!(other.bom_row, None);
}

#[test]
fn documents_read_into_element_trees() {
    let root = read("<greeting lang=\"en\">Hi <b>world</b></greeting>").expect("parses");
    assert_eq!(root.name, "greeting");
    assert_eq!(root.local_name, "greeting");
    assert_eq!(root.attributes, attrs(&[("lang", "en")]));
    assert_eq!(texts(&root), vec!["Hi ".to_string()]);
    assert_eq!(texts(first_child(&root)), vec!["world".to_string()]);
    assert_eq!(read("<a></b>").map(|_| ()), Err("xml_mismatched_tag"));
    assert_eq!(read("<a/>junk").map(|_| ()), Err("text_at_top_level"));
    assert!(read("<a/>\n \t").is_ok());
    assert!(read("\u{FEFF}<a/>").is_ok());
    let strict = XmlOptions { strict_namespaces: true, ..XmlOptions::default() };
    assert_eq!(read_document("<a:doc/>", &strict).map(|_| ()), Err("unbound_prefix"));
    assert!(read("<a:doc/>").is_ok());
}

#[test]
fn doctype_defaults_fill_only_missing_attributes() {
    let root = read("<!DOCTYPE d [<!ATTLIST d a CDATA \"def\" b CDATA \"x\">]><d b=\"given\" c=\"3\"/>")
        .expect("parses");
    assert_eq!(root.attributes, attrs(&[("b", "given"), ("c", "3"), ("a", "def")]));
}

#[test]
fn check_doc_text_allows_only_white_space() {
    assert_eq!(check_doc_text(" \t\r\n"), None);
    assert_eq!(check_doc_text(""), None);
    assert_eq!(check_doc_text(" x "), Some(WfError::TextAtTopLevel));
    assert_eq!(check_doc_text("\u{a0}"), Some(WfError::TextAtTopLevel));
    assert_eq!(check_close("a", "a"), None);
    assert_eq!(check_close("a", "b"), Some(WfError::XmlMismatchedTag));
}

#[test]
fn an_astral_entity_declaration_declares_nothing() {
    assert_eq!(
        read("<!DOCTYPE a [<!ENTITY \u{1F600} \"x\">]><a>&\u{1F600};</a>").map(|_| ()),
        Err("undeclared_entity")
    );
    assert_eq!(
        read("<!DOCTYPE a [<!ENTITY a\u{1F600}b \"x\">]><a>&a;</a>").map(|_| ()),
        Err("undeclared_entity")
    );
    let value = read("<!DOCTYPE a [<!ENTITY \u{1F600} \"x\"><!ENTITY e \"v\">]><a>&e;</a>")
        .expect("the ASCII declaration is still mined out");
    assert_eq!(texts(&value), vec!["v".to_string()]);
    let value = read("<!DOCTYPE a [<!ENTITY \u{4e2d} \"x\">]><a>&\u{4e2d};</a>")
        .expect("a BMP name declares the entity");
    assert_eq!(texts(&value), vec!["&\u{4e2d};".to_string()]);
    let value = read("<\u{1F600} a=\"1\"/>").expect("an astral element name parses");
    assert_eq!(value.name, "\u{1F600}");
    let value = read("<e \u{1F600}=\"1\"/>").expect("an astral attribute name parses");
    assert_eq!(value.attributes, attrs(&[("\u{1F600}", "1")]));
    let value = read("<!DOCTYPE d [<!ATTLIST d \u{1F600} CDATA \"v\">]><d/>")
        .expect("an astral ATTLIST name parses");
    assert_eq!(value.attributes, attrs(&[("\u{1F600}", "v")]));
}

#[test]
fn ported_patterns_use_the_javascript_character_classes() {
    for (label, src, want) in [
        ("ndata-space", "<!DOCTYPE d [<!ENTITY e SYSTEM \"u\" NDATA n>]><d>&e;</d>", Some("unparsed_entity_ref")),
        ("ndata-nel", "<!DOCTYPE d [<!ENTITY e SYSTEM \"u\"\u{85}NDATA n>]><d>&e;</d>", None),
        ("ndata-bom", "<!DOCTYPE d [<!ENTITY e SYSTEM \"u\"\u{feff}NDATA n>]><d>&e;</d>", Some("unparsed_entity_ref")),
        ("ndata-nbsp", "<!DOCTYPE d [<!ENTITY e SYSTEM \"u\"\u{a0}NDATA n>]><d>&e;</d>", Some("unparsed_entity_ref")),
        ("external-id-space", "<!DOCTYPE d SYSTEM \"u\"><d>&z;</d>", None),
        ("external-id-nel", "<!DOCTYPE d\u{85}SYSTEM \"u\"><d>&z;</d>", Some("undeclared_entity")),
        ("external-id-bom", "<!DOCTYPE d\u{feff}SYSTEM \"u\"><d>&z;</d>", None),
        ("external-id-nbsp", "<!DOCTYPE d\u{a0}SYSTEM \"u\"><d>&z;</d>", None),
        ("external-id-tail-bom", "<!DOCTYPE d SYSTEM\u{feff}\"u\"><d>&z;</d>", None),
        ("external-id-tail-nel", "<!DOCTYPE d SYSTEM\u{85}\"u\"><d>&z;</d>", Some("undeclared_entity")),
        ("standalone-plain", "<?xml standalone=\"yes\"?><!DOCTYPE d SYSTEM \"u\"><d>&z;</d>", Some("undeclared_entity")),
        ("standalone-no-boundary", "<?xml astandalone=\"yes\"?><!DOCTYPE d SYSTEM \"u\"><d>&z;</d>", None),
        ("standalone-boundary-after-latin", "<?xml a\u{e9}standalone=\"yes\"?><!DOCTYPE d SYSTEM \"u\"><d>&z;</d>", Some("undeclared_entity")),
        ("standalone-equals-bom", "<?xml standalone\u{feff}=\u{feff}\"yes\"?><!DOCTYPE d SYSTEM \"u\"><d>&z;</d>", Some("undeclared_entity")),
        ("standalone-equals-nel", "<?xml standalone\u{85}=\"yes\"?><!DOCTYPE d SYSTEM \"u\"><d>&z;</d>", None),
        ("standalone-equals-nbsp", "<?xml standalone\u{a0}=\"yes\"?><!DOCTYPE d SYSTEM \"u\"><d>&z;</d>", Some("undeclared_entity")),
    ] {
        match (read(src), want) {
            (Ok(_), None) => {}
            (Ok(_), Some(code)) => panic!("{label}: parsed, want {code}"),
            (Err(code), None) => panic!("{label}: {code}, want a clean parse"),
            (Err(code), Some(want)) => assert_eq!(code, want, "{label}"),
        }
    }
}

#[test]
fn document_controlled_names_are_ordinary_keys() {
    let out = read("<!DOCTYPE d [<!ATTLIST __proto__ a CDATA \"def\">]><d><__proto__/></d>")
        .expect("parses");
    assert_eq!(first_child(&out).attributes, attrs(&[("a", "def")]));
    let out = read("<!DOCTYPE d [<!ENTITY __proto__ \"PWNED\">]><d>&__proto__;</d>").expect("parses");
    assert_eq!(texts(&out), vec!["PWNED".to_string()]);
    assert!(read("<d>&toString;</d>").is_err());
    let out = read("<d __proto__=\"1\" b=\"2\"/>").expect("parses");
    assert_eq!(out.attributes, attrs(&[("__proto__", "1"), ("b", "2")]));
    let out = read("<d xmlns:__proto__=\"urn:x\"><__proto__:e/></d>").expect("parses");
    assert_eq!(first_child(&out).namespace.as_deref(), Some("urn:x"));
}

#[test]
fn lenient_entities_leave_unknown_references_as_written() {
    let options = XmlOptions { strict_entities: false, ..XmlOptions::default() };
    let root = read_document("<a b=\"&x;\">&nope;&amp;</a>", &options).expect("parses");
    assert_eq!(texts(&root), vec!["&nope;&".to_string()]);
    assert_eq!(root.attributes, attrs(&[("b", "&x;")]));
    assert_eq!(read("<a>&nope;</a>").map(|_| ()), Err("undeclared_entity"));
}

#[test]
fn text_without_references_reads_back_unchanged() {
    let root = read("<a>plain, text: here</a>").expect("parses");
    assert_eq!(texts(&root), vec!["plain, text: here".to_string()]);
    let root = read("<a>x<![CDATA[ <&> ]]>y</a>").expect("parses");
    assert_eq!(texts(&root), vec!["x".to_string(), " <&> ".to_string(), "y".to_string()]);
}

#[test]
fn custom_entities_decode_and_override_predefined_ones() {
    let mut custom = IndexMap::new();
    custom.insert("me".to_string(), "Me".to_string());
    custom.insert("amp".to_string(), "AND".to_string());
    let options = XmlOptions { custom_entities: custom, ..XmlOptions::default() };
    let root = read_document("<a>&me;&amp;&lt;</a>", &options).expect("parses");
    assert_eq!(texts(&root), vec!["MeAND<".to_string()]);
}

#[test]
fn large_utf16_documents_decode_and_parse() {
    let text = format!("<doc>{}</doc>", "\u{3042}".repeat(200_000));
    for big in [true, false] {
        let mut bytes: Vec<u8> = if big { vec![0xfe, 0xff] } else { vec![0xff, 0xfe] };
        for unit in text.encode_utf16() {
            let [high, low] = unit.to_be_bytes();
            if big {
                bytes.extend([high, low]);
            } else {
                bytes.extend([low, high]);
            }
        }
        let decoded = tabnas_xml::decode_bom(&bytes);
        assert_eq!(decoded, text);
        let element = read(&decoded).expect("parses");
        assert_eq!(element.name, "doc");
        let body = texts(&element);
        assert_eq!(body.len(), 1);
        assert_eq!(body[0].chars().count(), 200_000);
    }
}

#[test]
fn attribute_defaults_from_two_doctypes_merge_per_element() {
    let ms = default_state();
    let mut ps = ParseState::new();
    let first = chars("<!DOCTYPE d [<!ATTLIST d a CDATA '1' b CDATA '2'>]>");
    assert!(matches!(scan(&ms, &mut ps, &first), Scan::Ignored { .. }));
    let second = chars("<!DOCTYPE d [<!ATTLIST d b CDATA '3' c CDATA '4'><!ATTLIST e x CDATA '5'>]>");
    assert!(matches!(scan(&ms, &mut ps, &second), Scan::Ignored { .. }));
    let row: Vec<(String, String)> = ps
        .dtd_attr_defaults
        .get("d")
        .expect("d")
        .iter()
        .map(|(k, v)| (k.clone(), v.clone()))
        .collect();
    assert_eq!(
        row,
        vec![
            ("a".to_string(), "1".to_string()),
            ("b".to_string(), "3".to_string()),
            ("c".to_string(), "4".to_string())
        ]
    );
    assert_eq!(ps.dtd_attr_defaults.get("e"), Some(&attrs(&[("x", "5")])));
}

#[test]
fn cloned_options_keep_every_field() {
    let mut custom = IndexMap::new();
    custom.insert("x".to_string(), "y".to_string());
    let options = XmlOptions {
        namespaces: false,
        entities: false,
        custom_entities: custom.clone(),
        strict_entities: false,
        strict_namespaces: true,
        embed: true,
    };
    let copy = options.clone();
    assert_eq!(copy, options);
    assert_eq!(copy.custom_entities, custom);
    let defaults = XmlOptions::default();
    assert!(defaults.namespaces && defaults.entities && defaults.strict_entities);
    assert!(!defaults.strict_namespaces && !defaults.embed);
    assert!(defaults.custom_entities.is_empty());
}

#[test]
fn with_entities_off_attribute_values_keep_their_references() {
    let options = XmlOptions { entities: false, ..XmlOptions::default() };
    let ms = matcher_state(&options);
    let mut ps = ParseState::new();
    match scan(&ms, &mut ps, &chars("<a b=\"&amp;\tx\"/>")) {
        Scan::SelfClose { name, attributes, end } => {
            assert_eq!(name, "a");
            assert_eq!(attributes, attrs(&[("b", "&amp; x")]));
            assert_eq!(end, 16);
        }
        other => panic!("got {}", describe(&other)),
    }
    let root = read_document("<a b=\"&amp;\">&amp;</a>", &options).expect("parses");
    assert_eq!(root.attributes, attrs(&[("b", "&amp;")]));
    assert_eq!(texts(&root), vec!["&amp;".to_string()]);
    // References are still checked.
    assert_eq!(read_document("<a b=\"&nope;\"/>", &options).map(|_| ()), Err("undeclared_entity"));
    assert_eq!(read_document("<a b=\"& x\"/>", &options).map(|_| ()), Err("bad_entity_ref"));
}
