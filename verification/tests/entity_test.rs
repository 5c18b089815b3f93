use indexmap::IndexMap;
use tabnas_xml::entity::{
    after_char, check_chars, check_entity_refs, is_space, normalise_attr_whitespace,
    normalise_line_endings, parse_doctype_attlists, parse_doctype_entities, read_name,
    EntityDeclState, EntityDecoder,
};
use tabnas_xml::textmap::TextMap;

#[test]
fn names_are_read_by_character() {
    assert_eq!(
        read_name("<\u{e40}\u{e08}\u{e21}\u{e2a}\u{e4c}>", 1),
        Some((
            "\u{e40}\u{e08}\u{e21}\u{e2a}\u{e4c}",
            1 + "\u{e40}\u{e08}\u{e21}\u{e2a}\u{e4c}".len()
        ))
    );
    assert_eq!(read_name("<1a>", 1), None);
    assert_eq!(read_name("a-b.c>", 0), Some(("a-b.c", 5)));
    assert_eq!(read_name("", 0), None);
}

#[test]
fn after_char_steps_over_a_whole_character() {
    assert_eq!(after_char("\u{e9}!", 0), 2);
    assert_eq!(after_char("a", 0), 1);
    assert_eq!(after_char("a", 5), 1);
}

#[test]
fn line_endings_and_attribute_whitespace_normalise() {
    assert_eq!(normalise_line_endings("a\r\nb\rc\n"), "a\nb\nc\n");
    assert_eq!(normalise_attr_whitespace("a\tb\r\nc\rd\ne"), "a b c d e");
}

#[test]
fn decoder_expands_dtd_entities_with_cycle_detection() {
    let decoder = EntityDecoder::new(&IndexMap::new());
    let mut dtd = TextMap::new();
    dtd.insert("a".to_string(), "&b;".to_string());
    dtd.insert("b".to_string(), "&a;x".to_string());
    assert_eq!(decoder.decode("&a;", &dtd), "&a;x");
    assert_eq!(decoder.decode("&#x1F600;&#65;&amp;", &dtd), "\u{1F600}A&");
    assert_eq!(decoder.decode("&#xD800;", &dtd), "\u{FFFD}");
    assert_eq!(decoder.decode("&#x110000;", &dtd), "&#x110000;");
}

#[test]
fn entity_reference_checks() {
    let none = TextMap::new();
    let decoder = EntityDecoder::new(&IndexMap::new());
    let state = EntityDeclState::default();
    let check = |s: &str, attr: bool| {
        check_entity_refs(s, &none, decoder.declared(), true, &state, attr).map(|e| e.code())
    };
    assert_eq!(check("a &amp; b", false), None);
    assert_eq!(check("a & b", false), Some("bad_entity_ref"));
    assert_eq!(check("&#X26;", false), Some("bad_entity_ref"));
    assert_eq!(check("&nope;", false), Some("undeclared_entity"));
    let mut external = EntityDeclState::default();
    external.external.insert("e".to_string(), String::new());
    assert_eq!(
        check_entity_refs("&e;", &none, decoder.declared(), true, &external, true)
            .map(|e| e.code()),
        Some("external_entity_in_attr")
    );
    assert_eq!(
        check_entity_refs("&e;", &none, decoder.declared(), true, &external, false)
            .map(|e| e.code()),
        None
    );
}

#[test]
fn doctype_declarations_are_mined() {
    let subset = r#"<!ENTITY % p SYSTEM "p.ent"><!ENTITY g "G"><!ENTITY e SYSTEM "e.ent"><!ENTITY u SYSTEM "u.gif" NDATA gif><!ATTLIST doc x CDATA "default" y (a|b) #FIXED "b" r CDATA #REQUIRED>"#;
    let ents = parse_doctype_entities(subset);
    assert_eq!(ents.internal.get("g").map(String::as_str), Some("G"));
    assert!(ents.external.contains_key("e"));
    assert!(ents.unparsed.contains_key("u"));
    assert!(!ents.internal.contains_key("p"));
    let atts = parse_doctype_attlists(subset);
    assert_eq!(atts["doc"]["x"], "default");
    assert_eq!(atts["doc"]["y"], "b");
    assert!(!atts["doc"].contains_key("r"));
}

#[test]
fn spaces_and_control_characters() {
    assert!(is_space(b' ') && is_space(b'\t') && is_space(b'\n') && is_space(b'\r'));
    assert!(!is_space(b'x'));
    assert_eq!(check_chars("a\tb\nc\r"), None);
    assert_eq!(check_chars("a\u{1}b").map(|e| e.code()), Some("invalid_xml_char"));
}

#[test]
fn normalised_text_is_left_as_it_is() {
    let once = normalise_line_endings("a\r\r\nb").into_owned();
    assert_eq!(once, "a\n\nb");
    assert_eq!(normalise_line_endings(&once), once.as_str());
    assert_eq!(normalise_attr_whitespace("a b"), "a b");
}

#[test]
fn references_of_every_kind() {
    let mut custom = IndexMap::new();
    custom.insert("me".to_string(), "Me".to_string());
    custom.insert("amp".to_string(), "AND".to_string());
    let decoder = EntityDecoder::new(&custom);
    let mut dtd = TextMap::new();
    dtd.insert("me".to_string(), "dtd".to_string());
    dtd.insert("d".to_string(), "[&me;]".to_string());
    // Custom entities win over predefined and DTD ones.
    assert_eq!(decoder.decode("&me;&amp;&d;", &dtd), "MeAND[Me]");
    // Unknown names, malformed references and an `&` alone stay as written.
    assert_eq!(decoder.decode("&nope; & &#xZ; &#12a;", &dtd), "&nope; & &#xZ; &#12a;");
    // Leading zeros are fine; an uppercase X is no character reference.
    assert_eq!(decoder.decode("&#x0041;&#0066;&#X41;", &dtd), "AB&#X41;");
}

#[test]
fn unparsed_and_undeclared_references() {
    let none = TextMap::new();
    let decoder = EntityDecoder::new(&IndexMap::new());
    let mut state = EntityDeclState::default();
    state.unparsed.insert("u".to_string(), String::new());
    let check = |s: &str, strict: bool, st: &EntityDeclState| {
        check_entity_refs(s, &none, decoder.declared(), strict, st, false).map(|e| e.code())
    };
    assert_eq!(check("&u;", true, &state), Some("unparsed_entity_ref"));
    assert_eq!(check("&nope;", false, &state), None);
    assert_eq!(check("&;", true, &state), Some("bad_entity_ref"));
    assert_eq!(check("&#;", true, &state), Some("bad_entity_ref"));
    assert_eq!(check("&#x;", true, &state), Some("bad_entity_ref"));
    assert_eq!(check("&#x1g;", true, &state), Some("bad_entity_ref"));
    assert_eq!(check("&1a;", true, &state), Some("bad_entity_ref"));
    let mut unread = EntityDeclState::default();
    unread.unread = true;
    assert_eq!(check("&nope;", true, &unread), None);
}
