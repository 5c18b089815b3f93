use indexmap::IndexMap;
use tabnas_xml::namespace::{invalid_namespace_uri, resolve_namespaces, Element, Node};

fn element(name: &str, attrs: &[(&str, &str)], children: Vec<Node>) -> Element {
    let mut attributes = IndexMap::new();
    for (key, value) in attrs {
        attributes.insert((*key).to_string(), (*value).to_string());
    }
    Element {
        name: name.to_string(),
        local_name: name.to_string(),
        prefix: None,
        namespace: None,
        space: None,
        lang: None,
        attributes,
        children,
    }
}

fn child(root: &Element, i: usize) -> &Element {
    match &root.children[i] {
        Node::Element(e) => e,
        Node::Text(_) => panic!("child {i} is text"),
    }
}

fn code(r: Result<(), tabnas_xml::error::WfError>) -> Result<(), &'static str> {
    r.map_err(|e| e.code())
}

#[test]
fn a_declaration_scopes_over_the_element_and_its_children() {
    let mut root = element(
        "p:a",
        &[("xmlns:p", "urn:p"), ("p:x", "1")],
        vec![
            Node::Element(element("p:b", &[], vec![])),
            Node::Text("t".into()),
        ],
    );
    assert_eq!(code(resolve_namespaces(&mut root, true)), Ok(()));
    assert_eq!(root.prefix.as_deref(), Some("p"));
    assert_eq!(root.namespace.as_deref(), Some("urn:p"));
    assert_eq!(child(&root, 0).namespace.as_deref(), Some("urn:p"));
}

#[test]
fn unbound_prefixes_are_an_error_only_when_strict() {
    let mut lenient = element("q:c", &[], vec![]);
    assert_eq!(code(resolve_namespaces(&mut lenient, false)), Ok(()));
    assert_eq!(lenient.local_name, "c");
    assert_eq!(lenient.namespace, None);
    let mut strict = element("q:c", &[], vec![]);
    assert_eq!(code(resolve_namespaces(&mut strict, true)), Err("unbound_prefix"));
}

#[test]
fn reserved_prefixes_and_spaces_in_names_are_rejected() {
    let mut root = element("a", &[("xmlns:xmlns", "urn:x")], vec![]);
    assert_eq!(code(resolve_namespaces(&mut root, false)), Err("reserved_namespace"));
    let mut root = element("a", &[("xmlns", "urn:x y")], vec![]);
    assert_eq!(code(resolve_namespaces(&mut root, false)), Err("invalid_namespace_uri"));
}

#[test]
fn default_namespace_space_and_lang_are_inherited() {
    let mut root = element(
        "a",
        &[("xmlns", "urn:d"), ("xml:space", "preserve"), ("xml:lang", "en")],
        vec![Node::Element(element("b", &[("xml:lang", "fr")], vec![]))],
    );
    assert_eq!(code(resolve_namespaces(&mut root, true)), Ok(()));
    assert_eq!(root.local_name, "a");
    assert_eq!(root.prefix, None);
    assert_eq!(root.namespace.as_deref(), Some("urn:d"));
    assert_eq!(root.space.as_deref(), Some("preserve"));
    assert_eq!(root.lang.as_deref(), Some("en"));
    let b = child(&root, 0);
    assert_eq!(b.namespace.as_deref(), Some("urn:d"));
    assert_eq!(b.space.as_deref(), Some("preserve"));
    assert_eq!(b.lang.as_deref(), Some("fr"));
}

#[test]
fn an_empty_default_declaration_undeclares_the_default() {
    let mut root = element(
        "a",
        &[("xmlns", "urn:d")],
        vec![Node::Element(element("b", &[("xmlns", "")], vec![]))],
    );
    assert_eq!(code(resolve_namespaces(&mut root, true)), Ok(()));
    assert_eq!(child(&root, 0).namespace, None);
    assert_eq!(child(&root, 0).space, None);
}

#[test]
fn the_xml_prefix_is_bound_without_a_declaration() {
    let mut root = element("xml:a", &[("xml:lang", "de")], vec![]);
    assert_eq!(code(resolve_namespaces(&mut root, true)), Ok(()));
    assert_eq!(
        root.namespace.as_deref(),
        Some("http://www.w3.org/XML/1998/namespace")
    );
    let mut wrong = element("a", &[("xmlns:xml", "urn:other")], vec![]);
    assert_eq!(code(resolve_namespaces(&mut wrong, false)), Err("reserved_namespace"));
    let mut right = element(
        "a",
        &[("xmlns:xml", "http://www.w3.org/XML/1998/namespace")],
        vec![],
    );
    assert_eq!(code(resolve_namespaces(&mut right, false)), Ok(()));
    let mut bound_to_xmlns = element("a", &[("xmlns:p", "http://www.w3.org/2000/xmlns/")], vec![]);
    assert_eq!(
        code(resolve_namespaces(&mut bound_to_xmlns, false)),
        Err("reserved_namespace")
    );
}

#[test]
fn an_attribute_prefix_is_checked_against_the_whole_element() {
    let mut later = element("a", &[("p:x", "1"), ("xmlns:p", "urn:p")], vec![]);
    assert_eq!(code(resolve_namespaces(&mut later, true)), Ok(()));
    let mut unbound = element("a", &[("q:x", "1")], vec![]);
    assert_eq!(code(resolve_namespaces(&mut unbound, true)), Err("unbound_prefix"));
    let mut lenient = element("a", &[("q:x", "1")], vec![]);
    assert_eq!(code(resolve_namespaces(&mut lenient, false)), Ok(()));
}

#[test]
fn the_first_violation_in_document_order_is_reported() {
    let mut root = element(
        "a",
        &[],
        vec![
            Node::Element(element("q:b", &[], vec![])),
            Node::Element(element("c", &[("xmlns", "urn:x y")], vec![])),
        ],
    );
    assert_eq!(code(resolve_namespaces(&mut root, true)), Err("unbound_prefix"));
}

#[test]
fn namespace_names_with_white_space_are_invalid() {
    assert!(invalid_namespace_uri("urn:a b"));
    assert!(invalid_namespace_uri("urn:a\tb"));
    assert!(invalid_namespace_uri("\n"));
    assert!(!invalid_namespace_uri("urn:ab"));
    assert!(!invalid_namespace_uri(""));
}
