//! Namespace resolution (Namespaces in XML 1.0) and the inherited
//! `xml:space` / `xml:lang` values (XML 1.0 2.10 and 2.12), walked over a
//! finished element tree.
use indexmap::IndexMap;
use vstd::prelude::*;

use crate::error::WfError;
use crate::ordered::{
    has_key, inserted, keys_unique, lemma_found_is_lookup, lemma_inserted_unique, lookup,
    str_entries, str_map_clone, str_map_get, str_map_get_index, str_map_insert, str_map_len,
};
use crate::text::{chars_of, copy_str, opt_pos, str_eq, string_of};

verus! {

/// The `xml` prefix is bound to this URI and may be used implicitly.
pub const XML_NS_URI: &'static str = "http://www.w3.org/XML/1998/namespace";

/// The `xmlns` prefix is reserved and must never be declared.
pub const XMLNS_NS_URI: &'static str = "http://www.w3.org/2000/xmlns/";

/// One child of an element: character data or an element.
pub enum Node {
    Text(String),
    Element(Element),
}

/// An element of the parsed tree: its name, the parts namespace
/// resolution adds, its attributes in document order, and its children.
pub struct Element {
    pub name: String,
    pub local_name: String,
    pub prefix: Option<String>,
    pub namespace: Option<String>,
    pub space: Option<String>,
    pub lang: Option<String>,
    pub attributes: IndexMap<String, String>,
    pub children: Vec<Node>,
}

/// The state inherited down the tree: prefix to namespace name (the
/// empty prefix is the default namespace), the active `xml:space` and
/// the active `xml:lang`.
#[verifier::ext_equal]
pub struct ScopeModel {
    pub ns: Seq<(Seq<char>, Seq<char>)>,
    pub space: Seq<char>,
    pub lang: Seq<char>,
}

/// Where the first `:` of a name is, if it has one.
pub open spec fn colon_at(t: Seq<char>) -> Option<int> {
    if exists|k: int| 0 <= k < t.len() && t[k] == ':' {
        Some(choose|k: int| 0 <= k < t.len() && t[k] == ':' && forall|j: int| 0 <= j < k ==> t[j] != ':')
    } else {
        None
    }
}

pub proof fn lemma_colon_at(t: Seq<char>)
    ensures
        colon_at(t) matches Some(c) ==> 0 <= c < t.len() && t[c] == ':' && forall|j: int|
            0 <= j < c ==> t[j] != ':',
        colon_at(t) is None ==> forall|j: int| 0 <= j < t.len() ==> t[j] != ':',
{
    if exists|k: int| 0 <= k < t.len() && t[k] == ':' {
        let k = choose|k: int| 0 <= k < t.len() && t[k] == ':';
        lemma_first_colon_exists(t, k);
    }
}

proof fn lemma_first_colon_exists(t: Seq<char>, k: int)
    requires
        0 <= k < t.len(),
        t[k] == ':',
    ensures
        exists|m: int| 0 <= m < t.len() && t[m] == ':' && forall|j: int| 0 <= j < m ==> t[j] != ':',
    decreases k,
{
    if exists|j: int| 0 <= j < k && t[j] == ':' {
        let j = choose|j: int| 0 <= j < k && t[j] == ':';
        lemma_first_colon_exists(t, j);
    } else {
        assert(forall|j: int| 0 <= j < k ==> t[j] != ':');
    }
}

/// The words the resolver compares attribute names with, as literals.
pub proof fn lemma_words()
    ensures
        "xmlns"@ == xmlns_word(),
        "xml"@ == xml_word(),
        "xml:space"@ == xml_space_word(),
        "xml:lang"@ == xml_lang_word(),
        "default"@ == default_word(),
{
    reveal_strlit("xmlns");
    reveal_strlit("xml");
    reveal_strlit("xml:space");
    reveal_strlit("xml:lang");
    reveal_strlit("default");
    assert("xmlns"@ =~= xmlns_word());
    assert("xml"@ =~= xml_word());
    assert("xml:space"@ =~= xml_space_word());
    assert("xml:lang"@ =~= xml_lang_word());
    assert("default"@ =~= default_word());
}

/// Whether the text holds XML white space, which no URI reference can.
pub open spec fn holds_space(t: Seq<char>) -> bool {
    exists|k: int| 0 <= k < t.len() && crate::entity::space_char(#[trigger] t[k])
}

pub open spec fn xmlns_word() -> Seq<char> {
    seq!['x', 'm', 'l', 'n', 's']
}

pub open spec fn xmlns_colon() -> Seq<char> {
    seq!['x', 'm', 'l', 'n', 's', ':']
}

pub open spec fn xml_word() -> Seq<char> {
    seq!['x', 'm', 'l']
}

pub open spec fn xml_space_word() -> Seq<char> {
    seq!['x', 'm', 'l', ':', 's', 'p', 'a', 'c', 'e']
}

pub open spec fn xml_lang_word() -> Seq<char> {
    seq!['x', 'm', 'l', ':', 'l', 'a', 'n', 'g']
}

pub open spec fn default_word() -> Seq<char> {
    seq!['d', 'e', 'f', 'a', 'u', 'l', 't']
}

/// Whether a namespace name is one of the two reserved ones.
pub open spec fn reserved_uri(text: Seq<char>) -> bool {
    text == XML_NS_URI@ || text == XMLNS_NS_URI@
}

/// Whether an attribute name declares a prefix (`xmlns:` and more).
pub open spec fn declares_prefix(key: Seq<char>) -> bool {
    key.len() >= 6 && key.subrange(0, 6) == xmlns_colon()
}

/// What one attribute does to the scope: an `xmlns` or `xmlns:prefix`
/// declaration binds its namespace name, `xml:space` and `xml:lang` are
/// taken over, any other attribute leaves the scope alone. A misuse of a
/// reserved prefix or namespace name, or a namespace name with white
/// space, is the error.
pub open spec fn declare_step(key: Seq<char>, text: Seq<char>, s: ScopeModel) -> Result<ScopeModel, WfError> {
    if key == xmlns_word() {
        if reserved_uri(text) {
            Err(WfError::ReservedNamespace)
        } else if holds_space(text) {
            Err(WfError::InvalidNamespaceUri)
        } else {
            Ok(ScopeModel { ns: inserted(s.ns, Seq::empty(), text), ..s })
        }
    } else if declares_prefix(key) {
        let prefix = key.subrange(6, key.len() as int);
        if prefix == xml_word() && text != XML_NS_URI@ {
            Err(WfError::ReservedNamespace)
        } else if prefix == xmlns_word() {
            Err(WfError::ReservedNamespace)
        } else if prefix != xml_word() && reserved_uri(text) {
            Err(WfError::ReservedNamespace)
        } else if holds_space(text) {
            Err(WfError::InvalidNamespaceUri)
        } else {
            Ok(ScopeModel { ns: inserted(s.ns, prefix, text), ..s })
        }
    } else if key == xml_space_word() {
        Ok(ScopeModel { space: text, ..s })
    } else if key == xml_lang_word() {
        Ok(ScopeModel { lang: text, ..s })
    } else {
        Ok(s)
    }
}

/// The scope after the attributes from position `i`, taken in order;
/// the first error stops the walk.
pub open spec fn declared_from(attrs: Seq<(Seq<char>, Seq<char>)>, i: int, s: ScopeModel) -> Result<
    ScopeModel,
    WfError,
>
    decreases attrs.len() - i,
{
    if i < 0 || i >= attrs.len() {
        Ok(s)
    } else {
        match declare_step(attrs[i].0, attrs[i].1, s) {
            Err(e) => Err(e),
            Ok(s2) => declared_from(attrs, i + 1, s2),
        }
    }
}

/// Whether attribute `i`, not being a declaration, carries a non-empty
/// prefix that `ns` does not bind.
pub open spec fn unbound_at(attrs: Seq<(Seq<char>, Seq<char>)>, ns: Seq<(Seq<char>, Seq<char>)>, i: int) -> bool {
    let key = attrs[i].0;
    &&& key != xmlns_word()
    &&& !declares_prefix(key)
    &&& colon_at(key) matches Some(c) && c > 0 && !has_key(ns, key.subrange(0, c))
}

/// Whether some attribute other than a declaration carries a non-empty
/// prefix that `ns` does not bind.
pub open spec fn unbound_attribute(attrs: Seq<(Seq<char>, Seq<char>)>, ns: Seq<(Seq<char>, Seq<char>)>) -> bool {
    exists|i: int| 0 <= i < attrs.len() && #[trigger] unbound_at(attrs, ns, i)
}

impl Element {
    /// The attributes in order.
    pub open spec fn attrs(&self) -> Seq<(Seq<char>, Seq<char>)> {
        str_entries(self.attributes)
    }

    /// Whether, when `strict`, an attribute or the element's own name
    /// carries a prefix that the scope `s2` does not bind.
    pub open spec fn unbound_in(&self, s2: ScopeModel, strict: bool) -> bool {
        strict && (unbound_attribute(self.attrs(), s2.ns) || (colon_at(self.name@) matches Some(c)
            && !has_key(s2.ns, self.name@.subrange(0, c))))
    }

    /// The first namespace violation in this element and its descendants,
    /// in document order.
    pub open spec fn violation(&self, s: ScopeModel, strict: bool) -> Option<WfError>
        decreases self, self.children@.len() + 1,
    {
        match declared_from(self.attrs(), 0, s) {
            Err(e) => Some(e),
            Ok(s2) => if self.unbound_in(s2, strict) {
                Some(WfError::UnboundPrefix)
            } else {
                self.children_violation(0, s2, strict)
            },
        }
    }

    /// The first namespace violation among the children from position `i`.
    pub open spec fn children_violation(&self, i: int, s: ScopeModel, strict: bool) -> Option<
        WfError,
    >
        decreases self, self.children@.len() - i,
    {
        if i < 0 || i >= self.children@.len() {
            None
        } else {
            match self.children@[i] {
                Node::Text(_) => self.children_violation(i + 1, s, strict),
                Node::Element(c) => {
                    proof {
                        assert(decreases_to!(self => self.children));
                        assert(decreases_to!(self.children => self.children@));
                        assert(decreases_to!(self.children@ => self.children@[i]));
                    }
                    match c.violation(s, strict) {
                        Some(e) => Some(e),
                        None => self.children_violation(i + 1, s, strict),
                    }
                },
            }
        }
    }

    /// `after` is this element with its own name resolved under the
    /// scope `s2` it declares: the same name and attributes; `prefix` and
    /// `localName` split at the first `:` (the whole name when there is
    /// none); `namespace` the binding of the prefix, or of the default
    /// namespace when it is non-empty and the name has no prefix (left as
    /// it was when there is no binding); `space` and `lang` set to the
    /// inherited values unless these are `default` and empty.
    pub open spec fn head_resolves_to(&self, after: Element, s2: ScopeModel) -> bool {
        &&& after.name@ == self.name@
        &&& after.attrs() == self.attrs()
        &&& match colon_at(self.name@) {
            Some(c) => {
                let p = self.name@.subrange(0, c);
                &&& after.prefix matches Some(ap) && ap@ == p
                &&& after.local_name@ == self.name@.subrange(c + 1, self.name@.len() as int)
                &&& match lookup(s2.ns, p) {
                    Some(uri) => after.namespace matches Some(an) && an@ == uri,
                    None => after.namespace == self.namespace,
                }
            },
            None => {
                &&& after.prefix == self.prefix
                &&& after.local_name@ == self.name@
                &&& match lookup(s2.ns, Seq::empty()) {
                    Some(uri) => if uri.len() > 0 {
                        after.namespace matches Some(an) && an@ == uri
                    } else {
                        after.namespace == self.namespace
                    },
                    None => after.namespace == self.namespace,
                }
            },
        }
        &&& if s2.space != default_word() {
            after.space matches Some(x) && x@ == s2.space
        } else {
            after.space == self.space
        }
        &&& if s2.lang.len() > 0 {
            after.lang matches Some(x) && x@ == s2.lang
        } else {
            after.lang == self.lang
        }
    }

    /// `after` is this element resolved under `s`: its own name resolved
    /// in the scope its attributes declare, and every child element
    /// resolved in that scope, text children left alone.
    pub open spec fn resolves_to(&self, after: Element, s: ScopeModel, strict: bool) -> bool
        decreases self, self.children@.len() + 1,
    {
        match declared_from(self.attrs(), 0, s) {
            Err(_) => false,
            Ok(s2) => {
                &&& self.head_resolves_to(after, s2)
                &&& after.children@.len() == self.children@.len()
                &&& self.children_resolve_to(after, 0, s2, strict)
            },
        }
    }

    /// The children from position `i` resolve to those of `after`.
    pub open spec fn children_resolve_to(&self, after: Element, i: int, s: ScopeModel, strict: bool) -> bool
        decreases self, self.children@.len() - i,
    {
        if i < 0 || i >= self.children@.len() {
            true
        } else {
            &&& match self.children@[i] {
                Node::Text(_) => after.children@[i] == self.children@[i],
                Node::Element(c) => {
                    proof {
                        assert(decreases_to!(self => self.children));
                        assert(decreases_to!(self.children => self.children@));
                        assert(decreases_to!(self.children@ => self.children@[i]));
                    }
                    after.children@[i] matches Node::Element(c2) && c.resolves_to(c2, s, strict)
                },
            }
            &&& self.children_resolve_to(after, i + 1, s, strict)
        }
    }
}

} // verus!

verus! {

/// The state inherited down the tree, as it is held while walking.
pub struct Scope {
    pub ns: IndexMap<String, String>,
    pub space: String,
    pub lang: String,
}

impl Scope {
    pub open spec fn model(&self) -> ScopeModel {
        ScopeModel { ns: str_entries(self.ns), space: self.space@, lang: self.lang@ }
    }
}

/// The scope at the document element: only `xml` bound, `xml:space`
/// `default`, no `xml:lang`.
pub open spec fn root_scope() -> ScopeModel {
    ScopeModel { ns: seq![(xml_word(), XML_NS_URI@)], space: default_word(), lang: Seq::empty() }
}

/// The first namespace violation in a child node: none in text.
pub open spec fn node_violation(n: Node, s: ScopeModel, strict: bool) -> Option<WfError> {
    match n {
        Node::Text(_) => None,
        Node::Element(c) => c.violation(s, strict),
    }
}

/// Whether `after` is the child node `n` resolved: text left alone, an
/// element resolved.
pub open spec fn node_resolves(n: Node, after: Node, s: ScopeModel, strict: bool) -> bool {
    match n {
        Node::Text(_) => after == n,
        Node::Element(c) => after matches Node::Element(c2) && c.resolves_to(c2, s, strict),
    }
}

impl Element {
    /// What one child contributes to the first violation.
    pub open spec fn child_violation(&self, j: int, s: ScopeModel, strict: bool) -> Option<WfError> {
        node_violation(self.children@[j], s, strict)
    }

    /// Whether child `j` of `after` is child `j` of this element resolved.
    pub open spec fn child_resolves(&self, after: Element, j: int, s: ScopeModel, strict: bool) -> bool {
        node_resolves(self.children@[j], after.children@[j], s, strict)
    }
}

pub proof fn lemma_children_violation(e: Element, i: int, s: ScopeModel, strict: bool)
    requires
        0 <= i <= e.children@.len(),
        forall|j: int| 0 <= j < i ==> e.child_violation(j, s, strict) is None,
    ensures
        e.children_violation(0, s, strict) == e.children_violation(i, s, strict),
    decreases i,
{
    if i > 0 {
        lemma_children_violation(e, i - 1, s, strict);
        assert(e.child_violation(i - 1, s, strict) is None);
        match e.children@[i - 1] {
            Node::Text(_) => {},
            Node::Element(c) => {
                assert(c.violation(s, strict) is None);
            },
        }
        assert(e.children_violation(i - 1, s, strict) == e.children_violation(i, s, strict));
    }
}

pub proof fn lemma_children_resolve(e: Element, after: Element, i: int, s: ScopeModel, strict: bool)
    requires
        0 <= i <= e.children@.len(),
        forall|j: int| i <= j < e.children@.len() ==> e.child_resolves(after, j, s, strict),
    ensures
        e.children_resolve_to(after, i, s, strict),
    decreases e.children@.len() - i,
{
    if i < e.children@.len() {
        lemma_children_resolve(e, after, i + 1, s, strict);
        assert(e.child_resolves(after, i, s, strict));
        match e.children@[i] {
            Node::Text(_) => {},
            Node::Element(c) => {},
        }
    }
}

/// A namespace name is a URI reference, and a URI reference cannot
/// contain white space.
pub fn invalid_namespace_uri(uri: &str) -> (r: bool)
    ensures
        r == holds_space(uri@),
{
    let chars = chars_of(uri);
    let mut i: usize = 0;
    while i < chars.len()
        invariant
            chars@ == uri@,
            i <= chars@.len(),
            forall|k: int| 0 <= k < i ==> !crate::entity::space_char(#[trigger] chars@[k]),
        decreases chars.len() - i,
    {
        if crate::entity::is_space_char(chars[i]) {
            return true;
        }
        i = i + 1;
    }
    false
}

/// Where the first `:` of the text is.
pub fn first_colon(chars: &[char]) -> (r: Option<usize>)
    ensures
        crate::text::opt_pos(r) == colon_at(chars@),
{
    let mut i: usize = 0;
    while i < chars.len()
        invariant
            i <= chars@.len(),
            forall|k: int| 0 <= k < i ==> chars@[k] != ':',
        decreases chars.len() - i,
    {
        if chars[i] == ':' {
            proof {
                let k = choose|k: int| 0 <= k < chars@.len() && chars@[k] == ':' && forall|j: int| 0 <= j < k ==> chars@[j] != ':';
                assert(k == i) by {
                    if k < i {
                        assert(chars@[k] != ':');
                    }
                    if k > i {
                        assert(chars@[i as int] != ':');
                    }
                }
            }
            return Some(i);
        }
        i = i + 1;
    }
    None
}

/// Whether the text starts with `xmlns:`.
fn starts_with_xmlns_colon(chars: &[char]) -> (r: bool)
    ensures
        r == (chars@.len() >= 6 && chars@.subrange(0, 6) == xmlns_colon()),
{
    if chars.len() < 6 {
        return false;
    }
    let r = chars[0] == 'x' && chars[1] == 'm' && chars[2] == 'l' && chars[3] == 'n' && chars[4]
        == 's' && chars[5] == ':';
    proof {
        if r {
            assert(chars@.subrange(0, 6) =~= xmlns_colon());
        } else {
            if chars@.subrange(0, 6) == xmlns_colon() {
                assert(chars@.subrange(0, 6)[0] == chars@[0]);
                assert(chars@.subrange(0, 6)[1] == chars@[1]);
                assert(chars@.subrange(0, 6)[2] == chars@[2]);
                assert(chars@.subrange(0, 6)[3] == chars@[3]);
                assert(chars@.subrange(0, 6)[4] == chars@[4]);
                assert(chars@.subrange(0, 6)[5] == chars@[5]);
            }
        }
    }
    r
}

} // verus!

verus! {

/// Annotate `element` and its descendants with `prefix`, `localName`,
/// `namespace`, `space` and `lang`, starting from the document scope.
/// `Err` carries the first reserved-prefix, invalid-namespace-name or
/// (when `strict`) unbound-prefix violation in document order.
pub fn resolve_namespaces(element: &mut Element, strict: bool) -> (r: Result<(), WfError>)
    ensures
        r == (match old(element).violation(root_scope(), strict) {
            Some(e) => Err(e),
            None => Ok(()),
        }),
        r is Ok ==> old(element).resolves_to(*final(element), root_scope(), strict),
        final(element).name == old(element).name,
        final(element).attributes == old(element).attributes,
        final(element).children@.len() == old(element).children@.len(),
{
    let mut ns = crate::ordered::str_map_new();
    str_map_insert(&mut ns, String::from_str("xml"), String::from_str(XML_NS_URI));
    let scope = Scope { ns, space: String::from_str("default"), lang: String::new() };
    proof {
        lemma_words();
        assert(scope.model().ns =~= root_scope().ns);
        assert(keys_unique(str_entries(scope.ns)));
    }
    resolve_scope(element, &scope, strict)
}

/// Apply one attribute to the scope being built.
fn declare_one(key: &String, text: &String, scope: &mut Scope) -> (r: Result<(), WfError>)
    requires
        keys_unique(str_entries(old(scope).ns)),
    ensures
        match declare_step(key@, text@, old(scope).model()) {
            Ok(s2) => r is Ok && final(scope).model() == s2 && keys_unique(str_entries(final(scope).ns)),
            Err(e) => r == Err::<(), WfError>(e),
        },
{
    proof {
        lemma_words();
    }
    let key_chars = chars_of(key.as_str());
    if str_eq(key.as_str(), "xmlns") {
        if str_eq(text.as_str(), XML_NS_URI) || str_eq(text.as_str(), XMLNS_NS_URI) {
            return Err(WfError::ReservedNamespace);
        }
        if invalid_namespace_uri(text.as_str()) {
            return Err(WfError::InvalidNamespaceUri);
        }
        proof {
            lemma_inserted_unique(str_entries(scope.ns), Seq::empty(), text@);
        }
        str_map_insert(&mut scope.ns, String::new(), copy_str(text.as_str()));
        Ok(())
    } else if starts_with_xmlns_colon(&key_chars) {
        let prefix = string_of(&key_chars, 6, key_chars.len());
        assert(key@ != xmlns_word());
        assert(declares_prefix(key@));
        assert(prefix@ == key@.subrange(6, key@.len() as int));
        if str_eq(prefix.as_str(), "xml") {
            assert(prefix@ == xml_word());
            if !str_eq(text.as_str(), XML_NS_URI) {
                return Err(WfError::ReservedNamespace);
            }
        } else if str_eq(prefix.as_str(), "xmlns") {
            return Err(WfError::ReservedNamespace);
        } else if str_eq(text.as_str(), XML_NS_URI) || str_eq(text.as_str(), XMLNS_NS_URI) {
            return Err(WfError::ReservedNamespace);
        }
        if invalid_namespace_uri(text.as_str()) {
            return Err(WfError::InvalidNamespaceUri);
        }
        proof {
            lemma_inserted_unique(str_entries(scope.ns), prefix@, text@);
        }
        str_map_insert(&mut scope.ns, prefix, copy_str(text.as_str()));
        Ok(())
    } else if str_eq(key.as_str(), "xml:space") {
        scope.space = copy_str(text.as_str());
        Ok(())
    } else if str_eq(key.as_str(), "xml:lang") {
        scope.lang = copy_str(text.as_str());
        Ok(())
    } else {
        Ok(())
    }
}

/// The scope the attributes of an element declare, from the scope it
/// inherits: pass one of resolution. Every declaration is in hand
/// before any prefixed name is resolved, since a declaration scopes
/// over the whole element it appears on.
fn declare_scope(attributes: &IndexMap<String, String>, scope: &Scope) -> (r: Result<Scope, WfError>)
    requires
        keys_unique(str_entries(scope.ns)),
    ensures
        match r {
            Ok(s2) => declared_from(str_entries(*attributes), 0, scope.model()) == Ok::<
                ScopeModel,
                WfError,
            >(s2.model()) && keys_unique(str_entries(s2.ns)),
            Err(e) => declared_from(str_entries(*attributes), 0, scope.model()) == Err::<
                ScopeModel,
                WfError,
            >(e),
        },
{
    let ghost attrs = str_entries(*attributes);
    let ghost s0 = scope.model();
    let mut built = Scope {
        ns: str_map_clone(&scope.ns),
        space: copy_str(scope.space.as_str()),
        lang: copy_str(scope.lang.as_str()),
    };
    assert(built.model() == s0);
    let attrs_len = str_map_len(attributes);
    let mut i: usize = 0;
    while i < attrs_len
        invariant
            s0 == scope.model(),
            attrs == str_entries(*attributes),
            attrs_len == attrs.len(),
            i <= attrs_len,
            keys_unique(str_entries(built.ns)),
            declared_from(attrs, i as int, built.model()) == declared_from(attrs, 0, s0),
        decreases attrs_len - i,
    {
        let (key, text) = str_map_get_index(attributes, i);
        let ghost before = built.model();
        let step = declare_one(key, text, &mut built);
        proof {
            assert(attrs[i as int] == (key@, text@));
            assert(declared_from(attrs, i as int, before) == match declare_step(key@, text@, before) {
                Err(e) => Err(e),
                Ok(s2) => declared_from(attrs, i + 1, s2),
            });
        }
        if let Err(e) = step {
            return Err(e);
        }
        i = i + 1;
    }
    Ok(built)
}

/// Whether some attribute other than a declaration carries a non-empty
/// prefix that `ns` does not bind: pass two of resolution.
fn find_unbound_attribute(attributes: &IndexMap<String, String>, ns: &IndexMap<String, String>) -> (r: bool)
    ensures
        r == unbound_attribute(str_entries(*attributes), str_entries(*ns)),
{
    let ghost attrs = str_entries(*attributes);
    let attrs_len = str_map_len(attributes);
    let mut k: usize = 0;
    while k < attrs_len
        invariant
            attrs == str_entries(*attributes),
            attrs_len == attrs.len(),
            k <= attrs_len,
            forall|m: int| 0 <= m < k ==> !unbound_at(attrs, str_entries(*ns), m),
        decreases attrs_len - k,
    {
        proof {
            lemma_words();
        }
        let (key, _) = str_map_get_index(attributes, k);
        let key_chars = chars_of(key.as_str());
        let colon = first_colon(&key_chars);
        proof {
            lemma_colon_at(key_chars@);
        }
        if !str_eq(key.as_str(), "xmlns") && !starts_with_xmlns_colon(&key_chars) {
            match colon {
                Some(c) => {
                    if c > 0 {
                        let p = string_of(&key_chars, 0, c);
                        if !crate::ordered::str_map_contains_key(ns, p.as_str()) {
                            proof {
                                assert(unbound_at(attrs, str_entries(*ns), k as int));
                            }
                            return true;
                        }
                    }
                },
                None => {},
            }
        }
        k = k + 1;
    }
    false
}

/// The prefix, local name and namespace of an element from its name:
/// pass three of resolution. `Err` when `strict` and the prefix is
/// unbound (the prefix and local name are set by then).
fn annotate_name(element: &mut Element, ns: &IndexMap<String, String>, strict: bool) -> (r: Result<(), WfError>)
    requires
        keys_unique(str_entries(*ns)),
    ensures
        final(element).name == old(element).name,
        final(element).attributes == old(element).attributes,
        final(element).children == old(element).children,
        final(element).space == old(element).space,
        final(element).lang == old(element).lang,
        r is Err <==> strict && (colon_at(old(element).name@) matches Some(c) && !has_key(
            str_entries(*ns),
            old(element).name@.subrange(0, c),
        )),
        r is Err ==> r == Err::<(), WfError>(WfError::UnboundPrefix),
        r is Ok ==> match colon_at(old(element).name@) {
            Some(c) => {
                let p = old(element).name@.subrange(0, c);
                &&& final(element).prefix matches Some(ap) && ap@ == p
                &&& final(element).local_name@ == old(element).name@.subrange(
                    c + 1,
                    old(element).name@.len() as int,
                )
                &&& match lookup(str_entries(*ns), p) {
                    Some(uri) => final(element).namespace matches Some(an) && an@ == uri,
                    None => final(element).namespace == old(element).namespace,
                }
            },
            None => {
                &&& final(element).prefix == old(element).prefix
                &&& final(element).local_name@ == old(element).name@
                &&& match lookup(str_entries(*ns), Seq::empty()) {
                    Some(uri) => if uri.len() > 0 {
                        final(element).namespace matches Some(an) && an@ == uri
                    } else {
                        final(element).namespace == old(element).namespace
                    },
                    None => final(element).namespace == old(element).namespace,
                }
            },
        },
{
    let name_chars = chars_of(element.name.as_str());
    let colon = first_colon(&name_chars);
    proof {
        lemma_colon_at(name_chars@);
    }
    match colon {
        Some(c) => {
            assert(colon_at(name_chars@) == Some(c as int));
            assert(c < name_chars.len());
            let prefix = string_of(&name_chars, 0, c);
            let local = string_of(&name_chars, c + 1, name_chars.len());
            let found = str_map_get(ns, prefix.as_str());
            let uri = match found {
                Some(u) => {
                    proof {
                        lemma_found_is_lookup(str_entries(*ns), prefix@, u@);
                    }
                    Some(u.clone())
                },
                None => None,
            };
            element.prefix = Some(prefix);
            element.local_name = local;
            match uri {
                Some(u) => {
                    element.namespace = Some(u);
                },
                None => {
                    if strict {
                        return Err(WfError::UnboundPrefix);
                    }
                },
            }
        },
        None => {
            element.local_name = element.name.clone();
            let empty = String::new();
            let found = str_map_get(ns, empty.as_str());
            match found {
                Some(u) => {
                    proof {
                        lemma_found_is_lookup(str_entries(*ns), Seq::empty(), u@);
                    }
                    if !u.as_str().is_empty() {
                        element.namespace = Some(u.clone());
                    }
                },
                None => {},
            }
        },
    }
    Ok(())
}

/// Resolve one child node: text is left alone, an element is resolved.
fn resolve_node(node: &mut Node, scope: &Scope, strict: bool) -> (r: Result<(), WfError>)
    requires
        keys_unique(str_entries(scope.ns)),
    ensures
        r == (match node_violation(*old(node), scope.model(), strict) {
            Some(e) => Err(e),
            None => Ok(()),
        }),
        r is Ok ==> node_resolves(*old(node), *final(node), scope.model(), strict),
    decreases *old(node),
{
    match node {
        Node::Element(c) => resolve_scope(c, scope, strict),
        Node::Text(_) => Ok(()),
    }
}

fn resolve_scope(element: &mut Element, scope: &Scope, strict: bool) -> (r: Result<(), WfError>)
    requires
        keys_unique(str_entries(scope.ns)),
    ensures
        r == (match old(element).violation(scope.model(), strict) {
            Some(e) => Err(e),
            None => Ok(()),
        }),
        r is Ok ==> old(element).resolves_to(*final(element), scope.model(), strict),
        final(element).name == old(element).name,
        final(element).attributes == old(element).attributes,
        final(element).children@.len() == old(element).children@.len(),
    decreases *old(element),
{
    let ghost before = *element;
    let child_scope = match declare_scope(&element.attributes, scope) {
        Ok(s2) => s2,
        Err(e) => {
            return Err(e);
        },
    };
    let ghost s2 = child_scope.model();
    if strict && find_unbound_attribute(&element.attributes, &child_scope.ns) {
        return Err(WfError::UnboundPrefix);
    }
    let named = annotate_name(element, &child_scope.ns, strict);
    if named.is_err() {
        return named;
    }
    proof {
        lemma_words();
    }
    if !str_eq(child_scope.space.as_str(), "default") {
        element.space = Some(child_scope.space.clone());
    }
    if !child_scope.lang.as_str().is_empty() {
        element.lang = Some(child_scope.lang.clone());
    }
    let ghost annotated = *element;
    assert(before.head_resolves_to(annotated, s2));
    assert(!before.unbound_in(s2, strict));
    let n = element.children.len();
    let mut j: usize = 0;
    while j < n
        invariant
            before == *old(element),
            declared_from(before.attrs(), 0, scope.model()) == Ok::<ScopeModel, WfError>(s2),
            child_scope.model() == s2,
            keys_unique(str_entries(child_scope.ns)),
            n == before.children@.len(),
            element.children@.len() == n,
            j <= n,
            element.name == annotated.name,
            element.local_name == annotated.local_name,
            element.prefix == annotated.prefix,
            element.namespace == annotated.namespace,
            element.space == annotated.space,
            element.lang == annotated.lang,
            element.attributes == annotated.attributes,
            before.head_resolves_to(annotated, s2),
            annotated.name == before.name,
            annotated.attributes == before.attributes,
            !before.unbound_in(s2, strict),
            forall|m: int| 0 <= m < j ==> before.child_resolves(*element, m, s2, strict),
            forall|m: int| 0 <= m < j ==> before.child_violation(m, s2, strict) is None,
            forall|m: int| j <= m < n ==> element.children@[m] == before.children@[m],
        decreases n - j,
    {
        let ghost prev = *element;
        proof {
            assert(decreases_to!(before => before.children));
            assert(decreases_to!(before.children => before.children@));
            assert(decreases_to!(before.children@ => before.children@[j as int]));
        }
        let res = resolve_node(&mut element.children[j], &child_scope, strict);
        proof {
            assert(element.children@ == prev.children@.update(j as int, element.children@[j as int]));
        }
        if res.is_err() {
            proof {
                lemma_children_violation(before, j as int, s2, strict);
            }
            return res;
        }
        proof {
            assert(before.child_resolves(*element, j as int, s2, strict));
            assert forall|m: int| 0 <= m < j + 1 implies before.child_resolves(
                *element,
                m,
                s2,
                strict,
            ) by {
                if m < j {
                    assert(before.child_resolves(prev, m, s2, strict));
                    assert(element.children@[m] == prev.children@[m]);
                }
            }
        }
        j = j + 1;
    }
    proof {
        lemma_children_violation(before, n as int, s2, strict);
        lemma_children_resolve(before, *element, 0, s2, strict);
    }
    Ok(())
}

} // verus!

verus! {

/// Declarations never report an unbound prefix.
pub proof fn lemma_declared_not_unbound(attrs: Seq<(Seq<char>, Seq<char>)>, i: int, s: ScopeModel)
    ensures
        declared_from(attrs, i, s) != Err::<ScopeModel, WfError>(WfError::UnboundPrefix),
    decreases attrs.len() - i,
{
    if 0 <= i < attrs.len() {
        if let Ok(s2) = declare_step(attrs[i].0, attrs[i].1, s) {
            lemma_declared_not_unbound(attrs, i + 1, s2);
        }
    }
}

/// An unbound prefix is an error only when strict: resolved leniently, an
/// element and its descendants never report one.
pub proof fn lemma_lenient_never_unbound(e: Element, s: ScopeModel)
    ensures
        e.violation(s, false) != Some(WfError::UnboundPrefix),
    decreases e, e.children@.len() + 1,
{
    lemma_declared_not_unbound(e.attrs(), 0, s);
    if let Ok(s2) = declared_from(e.attrs(), 0, s) {
        lemma_children_lenient(e, 0, s2);
    }
}

proof fn lemma_children_lenient(e: Element, i: int, s: ScopeModel)
    ensures
        e.children_violation(i, s, false) != Some(WfError::UnboundPrefix),
    decreases e, e.children@.len() - i,
{
    if 0 <= i < e.children@.len() {
        match e.children@[i] {
            Node::Text(_) => {
                lemma_children_lenient(e, i + 1, s);
            },
            Node::Element(c) => {
                assert(decreases_to!(e => e.children));
                assert(decreases_to!(e.children => e.children@));
                assert(decreases_to!(e.children@ => e.children@[i]));
                lemma_lenient_never_unbound(c, s);
                lemma_children_lenient(e, i + 1, s);
            },
        }
    }
}

} // verus!

verus! {

/// Walking the declarations, a default declaration `xmlns="u"` binds the
/// empty prefix to `u`, and no other attribute rebinds it.
proof fn lemma_default_declared(
    attrs: Seq<(Seq<char>, Seq<char>)>,
    i: int,
    s: ScopeModel,
    idx: int,
    u: Seq<char>,
)
    requires
        0 <= i,
        keys_unique(s.ns),
        0 <= idx < attrs.len(),
        attrs[idx] == (xmlns_word(), u),
        forall|j: int|
            0 <= j < attrs.len() && (#[trigger] attrs[j]) != (xmlns_word(), u) ==> attrs[j].0
                != xmlns_word() && attrs[j].0 != xmlns_colon(),
        i <= idx || lookup(s.ns, Seq::empty()) == Some(u),
        declared_from(attrs, i, s) is Ok,
    ensures
        lookup(declared_from(attrs, i, s)->Ok_0.ns, Seq::empty()) == Some(u),
    decreases attrs.len() - i,
{
    if i < attrs.len() {
        let key = attrs[i].0;
        let text = attrs[i].1;
        let step = declare_step(key, text, s);
        let s2 = step->Ok_0;
        if attrs[i] == (xmlns_word(), u) {
            lemma_inserted_unique(s.ns, Seq::empty(), u);
        } else if declares_prefix(key) {
            let prefix = key.subrange(6, key.len() as int);
            assert(prefix.len() > 0) by {
                if key.len() == 6 {
                    assert(key =~= key.subrange(0, 6));
                }
            }
            if step is Ok {
                lemma_inserted_unique(s.ns, prefix, text);
                assert(prefix != Seq::<char>::empty());
            }
        }
        if step is Ok {
            assert(keys_unique(s2.ns)) by {
                if key == xmlns_word() {
                    lemma_inserted_unique(s.ns, Seq::empty(), text);
                } else if declares_prefix(key) {
                    lemma_inserted_unique(s.ns, key.subrange(6, key.len() as int), text);
                }
            }
            lemma_default_declared(attrs, i + 1, s2, idx, u);
        }
    }
}

/// The innermost default declaration wins: an element without a prefix
/// that carries `xmlns="u"` (u non-empty) resolves into namespace `u`,
/// whatever default the inherited scope binds, as long as no attribute
/// of the element declares the default otherwise. The scope is one that
/// binds each prefix once, as every scope the resolver builds does.
pub proof fn lemma_innermost_default_wins(
    e: Element,
    after: Element,
    s: ScopeModel,
    strict: bool,
    u: Seq<char>,
)
    requires
        keys_unique(s.ns),
        e.resolves_to(after, s, strict),
        u.len() > 0,
        colon_at(e.name@) is None,
        exists|idx: int| 0 <= idx < e.attrs().len() && e.attrs()[idx] == (xmlns_word(), u),
        forall|j: int|
            0 <= j < e.attrs().len() && (#[trigger] e.attrs()[j]) != (xmlns_word(), u) ==> e.attrs()[j].0
                != xmlns_word() && e.attrs()[j].0 != xmlns_colon(),
    ensures
        after.namespace matches Some(an) && an@ == u,
{
    let attrs = e.attrs();
    let idx = choose|idx: int| 0 <= idx < attrs.len() && attrs[idx] == (xmlns_word(), u);
    lemma_default_declared(attrs, 0, s, idx, u);
}

/// The root scope binds each prefix once.
pub proof fn lemma_root_scope_unique()
    ensures
        keys_unique(root_scope().ns),
{
}

} // verus!

verus! {

/// The declarations of an element keep each prefix bound once, so every
/// scope the resolver builds from the root scope binds each prefix once.
pub proof fn lemma_declared_keeps_unique(attrs: Seq<(Seq<char>, Seq<char>)>, i: int, s: ScopeModel)
    requires
        keys_unique(s.ns),
    ensures
        declared_from(attrs, i, s) matches Ok(s2) ==> keys_unique(s2.ns),
    decreases attrs.len() - i,
{
    if 0 <= i < attrs.len() {
        let key = attrs[i].0;
        let text = attrs[i].1;
        if key == xmlns_word() {
            lemma_inserted_unique(s.ns, Seq::empty(), text);
        } else if declares_prefix(key) {
            lemma_inserted_unique(s.ns, key.subrange(6, key.len() as int), text);
        }
        if let Ok(s2) = declare_step(key, text, s) {
            lemma_declared_keeps_unique(attrs, i + 1, s2);
        }
    }
}

} // verus!
