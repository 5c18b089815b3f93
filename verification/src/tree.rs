//! Building the element tree from the scanned tags: the options of the
//! grammar, an element made from an open tag (its DOCTYPE attribute
//! defaults filled in), children appended in order, the checks on a close
//! tag and on text outside the root, and the finishing of the document.
use indexmap::IndexMap;
use vstd::prelude::*;

use crate::entity::{space_char, EntityDecoder, TableEntries};
use crate::error::WfError;
use crate::lex::{MatcherState, ParseState, StateModel};
use crate::namespace::{resolve_namespaces, root_scope, Element, Node};
use crate::ordered::{
    has_key, lookup, str_entries, str_map_clone, str_map_contains_key, str_map_get_index,
    str_map_insert, str_map_len, str_map_new,
};
use crate::text::{chars_of, copy_str};

verus! {

/// The grammar's options. The default set: namespaces resolved,
/// entities decoded, no custom entities, an undeclared entity an error,
/// an unbound prefix tolerated, pure XML rather than embedded.
#[derive(Debug, PartialEq, Eq)]
pub struct XmlOptions {
    /// Resolve namespace prefixes and annotate elements.
    pub namespaces: bool,
    /// Decode entity references in character data and attribute values;
    /// when off, both keep their references as written.
    pub entities: bool,
    /// Extra named entities, by name.
    pub custom_entities: IndexMap<String, String>,
    /// A reference to an undeclared entity is an error.
    pub strict_entities: bool,
    /// An unbound namespace prefix is an error.
    pub strict_namespaces: bool,
    /// XML elements are values inside the relaxed-JSON grammar.
    pub embed: bool,
}

impl Clone for XmlOptions {
    /// The same options, the custom entities copied in order.
    fn clone(&self) -> (r: Self)
        ensures
            r.namespaces == self.namespaces,
            r.entities == self.entities,
            str_entries(r.custom_entities) == str_entries(self.custom_entities),
            r.strict_entities == self.strict_entities,
            r.strict_namespaces == self.strict_namespaces,
            r.embed == self.embed,
    {
        XmlOptions {
            namespaces: self.namespaces,
            entities: self.entities,
            custom_entities: str_map_clone(&self.custom_entities),
            strict_entities: self.strict_entities,
            strict_namespaces: self.strict_namespaces,
            embed: self.embed,
        }
    }
}

impl Default for XmlOptions {
    fn default() -> (o: Self)
        ensures
            o.namespaces,
            o.entities,
            str_entries(o.custom_entities) == Seq::<(Seq<char>, Seq<char>)>::empty(),
            o.strict_entities,
            !o.strict_namespaces,
            !o.embed,
    {
        XmlOptions {
            namespaces: true,
            entities: true,
            custom_entities: str_map_new(),
            strict_entities: true,
            strict_namespaces: false,
            embed: false,
        }
    }
}

/// What the scanner needs from the options: the entity decoder and the
/// two entity flags.
pub fn matcher_state(options: &XmlOptions) -> (m: MatcherState)
    ensures
        m.decoder.entities() == crate::entity::predefined_entities().union_prefer_right(
            crate::entity::entries_map(str_entries(options.custom_entities)),
        ),
        m.decoder.wf(),
        m.entities == options.entities,
        m.strict == options.strict_entities,
{
    MatcherState {
        decoder: EntityDecoder::new(&options.custom_entities),
        entities: options.entities,
        strict: options.strict_entities,
    }
}

/// The row of defaults the table holds for `element`, empty when none.
pub open spec fn defaults_row(table: TableEntries, element: Seq<char>) -> Seq<(Seq<char>, Seq<char>)> {
    match lookup(table, element) {
        Some(row) => row,
        None => Seq::empty(),
    }
}

/// The attributes with every default of `row` the tag did not give added
/// after them, in the row's order.
pub open spec fn with_missing(
    attrs: Seq<(Seq<char>, Seq<char>)>,
    row: Seq<(Seq<char>, Seq<char>)>,
) -> Seq<(Seq<char>, Seq<char>)>
    decreases row.len(),
{
    if row.len() == 0 {
        attrs
    } else {
        let acc = with_missing(attrs, row.drop_last());
        if has_key(acc, row.last().0) {
            acc
        } else {
            acc.push(row.last())
        }
    }
}

/// Add the DOCTYPE defaults for `element` that the tag did not give.
pub fn apply_attr_defaults(
    attributes: IndexMap<String, String>,
    element: &str,
    parse: &ParseState,
) -> (r: IndexMap<String, String>)
    requires
        parse.wf(),
    ensures
        str_entries(r) == with_missing(
            str_entries(attributes),
            defaults_row(parse.model().defaults, element@),
        ),
{
    let mut attributes = attributes;
    let ghost a0 = str_entries(attributes);
    match parse.dtd_attr_defaults(element) {
        None => {
            assert(defaults_row(parse.model().defaults, element@) =~= Seq::<(Seq<char>, Seq<char>)>::empty());
            attributes
        },
        Some(defaults) => {
            let ghost row = str_entries(*defaults);
            let n = str_map_len(defaults);
            let mut k: usize = 0;
            proof {
                assert(row.take(0) =~= Seq::<(Seq<char>, Seq<char>)>::empty());
            }
            while k < n
                invariant
                    n == row.len(),
                    row == str_entries(*defaults),
                    k <= n,
                    str_entries(attributes) == with_missing(a0, row.take(k as int)),
                decreases n - k,
            {
                let (name, value) = str_map_get_index(defaults, k);
                proof {
                    assert(row.take(k + 1).drop_last() =~= row.take(k as int));
                    assert(row.take(k + 1).last() == row[k as int]);
                }
                if !str_map_contains_key(&attributes, name.as_str()) {
                    str_map_insert(&mut attributes, name.clone(), value.clone());
                }
                k = k + 1;
            }
            proof {
                assert(row.take(n as int) =~= row);
            }
            attributes
        },
    }
}

/// The element an open or self-closing tag makes: its name (also its
/// local name until namespaces are resolved), its attributes with the
/// DOCTYPE defaults filled in, and no children yet.
pub fn element_of(name: &str, attributes: IndexMap<String, String>, parse: &ParseState) -> (e:
    Element)
    requires
        parse.wf(),
    ensures
        e.name@ == name@,
        e.local_name@ == name@,
        e.prefix is None,
        e.namespace is None,
        e.space is None,
        e.lang is None,
        e.attrs() == with_missing(
            str_entries(attributes),
            defaults_row(parse.model().defaults, name@),
        ),
        e.children@.len() == 0,
{
    let attributes = apply_attr_defaults(attributes, name, parse);
    Element {
        name: copy_str(name),
        local_name: copy_str(name),
        prefix: None,
        namespace: None,
        space: None,
        lang: None,
        attributes,
        children: Vec::new(),
    }
}

/// Append a child to an element.
pub fn push_child(element: &mut Element, child: Node)
    ensures
        final(element).children@ == old(element).children@.push(child),
        final(element).name == old(element).name,
        final(element).local_name == old(element).local_name,
        final(element).prefix == old(element).prefix,
        final(element).namespace == old(element).namespace,
        final(element).space == old(element).space,
        final(element).lang == old(element).lang,
        final(element).attributes == old(element).attributes,
{
    element.children.push(child);
}

/// Character data outside the root element is an error unless it is all
/// white space.
pub fn check_doc_text(text: &str) -> (r: Option<WfError>)
    ensures
        r == (if forall|k: int| 0 <= k < text@.len() ==> space_char(#[trigger] text@[k]) {
            None
        } else {
            Some(WfError::TextAtTopLevel)
        }),
{
    let chars = chars_of(text);
    let mut k: usize = 0;
    while k < chars.len()
        invariant
            chars@ == text@,
            k <= chars@.len(),
            forall|m: int| 0 <= m < k ==> space_char(#[trigger] chars@[m]),
        decreases chars.len() - k,
    {
        if !crate::entity::is_space_char(chars[k]) {
            return Some(WfError::TextAtTopLevel);
        }
        k = k + 1;
    }
    None
}

/// A close tag must name the element it closes.
pub fn check_close(open_name: &str, close_name: &str) -> (r: Option<WfError>)
    ensures
        r == (if open_name@ == close_name@ {
            None
        } else {
            Some(WfError::XmlMismatchedTag)
        }),
{
    if crate::text::str_eq(open_name, close_name) {
        None
    } else {
        Some(WfError::XmlMismatchedTag)
    }
}

/// The document element has been read: record it, and resolve its
/// namespaces when the options ask for that.
pub fn finish_document(root: &mut Element, parse: &mut ParseState, options: &XmlOptions) -> (r:
    Result<(), WfError>)
    requires
        old(parse).wf(),
    ensures
        final(parse).wf(),
        final(parse).model() == (StateModel { root_seen: true, ..old(parse).model() }),
        !options.namespaces ==> r is Ok && *final(root) == *old(root),
        options.namespaces ==> r == (match old(root).violation(
            root_scope(),
            options.strict_namespaces,
        ) {
            Some(e) => Err(e),
            None => Ok(()),
        }),
        options.namespaces && r is Ok ==> old(root).resolves_to(
            *final(root),
            root_scope(),
            options.strict_namespaces,
        ),
        final(root).name == old(root).name,
        final(root).attributes == old(root).attributes,
        final(root).children@.len() == old(root).children@.len(),
{
    parse.root_seen = true;
    if options.namespaces {
        resolve_namespaces(root, options.strict_namespaces)
    } else {
        Ok(())
    }
}

} // verus!

verus! {

/// Defaults never override what the tag gave: the given attributes stay
/// first, in order and with their values, and every default name is
/// present afterwards.
pub proof fn lemma_defaults_fill_missing(
    attrs: Seq<(Seq<char>, Seq<char>)>,
    row: Seq<(Seq<char>, Seq<char>)>,
)
    ensures
        attrs.len() <= with_missing(attrs, row).len(),
        with_missing(attrs, row).subrange(0, attrs.len() as int) == attrs,
        forall|k: int| 0 <= k < row.len() ==> has_key(with_missing(attrs, row), #[trigger] row[k].0),
    decreases row.len(),
{
    if row.len() > 0 {
        let prev = row.drop_last();
        lemma_defaults_fill_missing(attrs, prev);
        let acc = with_missing(attrs, prev);
        let r = with_missing(attrs, row);
        if !has_key(acc, row.last().0) {
            assert(r.subrange(0, attrs.len() as int) =~= acc.subrange(0, attrs.len() as int));
            assert(r[acc.len() as int].0 == row.last().0);
        }
        assert forall|k: int| 0 <= k < row.len() implies has_key(r, #[trigger] row[k].0) by {
            if k < row.len() - 1 {
                assert(prev[k] == row[k]);
                assert(has_key(acc, prev[k].0));
                let m = choose|m: int| 0 <= m < acc.len() && (#[trigger] acc[m]).0 == prev[k].0;
                assert(r[m] == acc[m]);
            } else if !has_key(acc, row.last().0) {
                assert(r[acc.len() as int].0 == row.last().0);
            }
        }
    }
}

} // verus!
