//! The tag scanner: every XML construct that starts with `<`, and, while
//! an element is open, the character data up to the next `<`, so that
//! text is never split on a comma or a colon. One call reads one
//! construct from the front of the remaining source: it says what the
//! construct is and how many characters it covers, or which
//! well-formedness rule it breaks over which span. Positions count
//! characters from the front of the remaining source.
//!
//! ```text
//! <name attr="v" ...>     Open       name and attributes
//! <name attr="v" ... />   SelfClose  name and attributes
//! </name>                 Close      name
//! <!-- comment -->        Ignored
//! <?target ...?>          Ignored
//! <!DOCTYPE ...>          Ignored    (its declarations are mined first)
//! <![CDATA[ ... ]]>       Text       verbatim, no entity decoding
//! text                    Text       validated and decoded; only while
//!                                    an element is open
//! ```
//!
//! The per-parse state, the element depth, the DOCTYPE declarations and
//! the standalone flag, lives in a [`ParseState`] that each call reads
//! and updates.
use indexmap::IndexMap;
use vstd::prelude::*;

use crate::decl::has_standalone_yes;
use crate::doctype::{doctype_step, scan_doctype};
use crate::entity::{
    after_pos, check_chars, check_chars_in, check_entity_refs, expand_from, find_char,
    has_illegal_control, lemma_name_run_end, lemma_next_char_pos, lemma_skip_spaces,
    lf_normalise_chars, lf_normalised, name_end, next_char_pos, read_name_at, references_error,
    skip_space, skip_spaces, space_char, EntityDeclState, EntityDecoder,
};
use crate::error::WfError;
use crate::ordered::{
    keys_unique, lemma_found_is_lookup, lookup, str_entries, table_entries, table_get, table_new,
};
use crate::tag::{scan_tag, tag_scan};
use crate::text::{first_at, find_from, lemma_first_at, occurs_at, starts_at, string_of, sub_chars};
use crate::textmap::TextMap;

verus! {

/// How many elements may be open at once. The tag that would open one
/// more is refused where it is read, with the `cancel` code: a tree this
/// deep is walked by recursion wherever it is displayed, converted,
/// cloned, compared or dropped, and 256, the depth libxml2 allows by
/// default, leaves room for all of those on a default thread.
pub const DEPTH_LIMIT: i64 = 256;

/// What one scan decided, by value.
pub enum ScanModel {
    Ignored(int),
    Text(Seq<char>, int),
    Open(Seq<char>, Seq<(Seq<char>, Seq<char>)>, int),
    SelfClose(Seq<char>, Seq<(Seq<char>, Seq<char>)>, int),
    Close(Seq<char>, int),
    Bad(WfError, int, int),
    NoMatch,
}

/// What one scan decided. Every `end` counts the characters the
/// construct covers from the front of the remaining source.
pub enum Scan {
    /// A comment, processing instruction or DOCTYPE: its source is the
    /// token's value.
    Ignored { end: usize },
    /// Character data or a CDATA section, as it reads after
    /// line-end normalisation and entity decoding.
    Text { text: String, end: usize },
    /// An open tag.
    Open { name: String, attributes: IndexMap<String, String>, end: usize },
    /// A self-closing tag.
    SelfClose { name: String, attributes: IndexMap<String, String>, end: usize },
    /// A close tag.
    Close { name: String, end: usize },
    /// A well-formedness error over the characters `from..to`.
    Bad { code: WfError, from: usize, to: usize },
    /// Not XML: the other matchers may have the cursor.
    NoMatch,
}

impl Scan {
    pub open spec fn model(&self) -> ScanModel {
        match self {
            Scan::Ignored { end } => ScanModel::Ignored(*end as int),
            Scan::Text { text, end } => ScanModel::Text(text@, *end as int),
            Scan::Open { name, attributes, end } => ScanModel::Open(
                name@,
                str_entries(*attributes),
                *end as int,
            ),
            Scan::SelfClose { name, attributes, end } => ScanModel::SelfClose(
                name@,
                str_entries(*attributes),
                *end as int,
            ),
            Scan::Close { name, end } => ScanModel::Close(name@, *end as int),
            Scan::Bad { code, from, to } => ScanModel::Bad(*code, *from as int, *to as int),
            Scan::NoMatch => ScanModel::NoMatch,
        }
    }
}

/// Everything the scanner needs that is fixed when the grammar is
/// installed.
pub struct MatcherState {
    /// The predefined and custom entities.
    pub decoder: EntityDecoder,
    /// Decode references in character data and attribute values.
    pub entities: bool,
    /// An undeclared entity is an error.
    pub strict: bool,
}

/// The settings by value: the always-declared entities and the two flags.
pub struct LexEnv {
    pub base: Map<Seq<char>, Seq<char>>,
    pub entities: bool,
    pub strict: bool,
}

impl MatcherState {
    pub open spec fn env(&self) -> LexEnv {
        LexEnv { base: self.decoder.entities(), entities: self.entities, strict: self.strict }
    }
}

/// The per-parse state by value.
#[verifier::ext_equal]
pub struct StateModel {
    pub depth: int,
    pub dtd: Map<Seq<char>, Seq<char>>,
    pub external: Map<Seq<char>, Seq<char>>,
    pub unparsed: Map<Seq<char>, Seq<char>>,
    pub defaults: Seq<(Seq<char>, Seq<(Seq<char>, Seq<char>)>)>,
    pub dtd_unread: bool,
    pub standalone: bool,
    pub bom_row: Option<usize>,
    pub root_seen: bool,
}

/// The state of one parse.
pub struct ParseState {
    /// The element depth: open tags read minus close tags read, never
    /// below zero.
    pub depth: i64,
    /// The internal entities the DOCTYPE declared.
    pub dtd_entities: TextMap,
    /// The external and unparsed entities the DOCTYPE declared, and
    /// whether the "Entity Declared" rule is suspended.
    pub entdecl: EntityDeclState,
    /// The default attribute values the DOCTYPE declared, by element.
    pub dtd_attr_defaults: IndexMap<String, IndexMap<String, String>>,
    /// Part of the DTD went unread: an external subset or a
    /// parameter-entity reference.
    pub dtd_unread: bool,
    /// The XML declaration said `standalone="yes"`.
    pub standalone: bool,
    /// The row a byte-order mark was skipped on.
    pub bom_row: Option<usize>,
    /// The document element has been read.
    pub root_seen: bool,
}

impl ParseState {
    pub open spec fn model(&self) -> StateModel {
        StateModel {
            depth: self.depth as int,
            dtd: self.dtd_entities@,
            external: self.entdecl.external@,
            unparsed: self.entdecl.unparsed@,
            defaults: table_entries(self.dtd_attr_defaults),
            dtd_unread: self.dtd_unread,
            standalone: self.standalone,
            bom_row: self.bom_row,
            root_seen: self.root_seen,
        }
    }

    /// The depth stays within `0..=DEPTH_LIMIT`, the declaration maps are
    /// finite, the "Entity Declared" rule is suspended exactly when part
    /// of the DTD went unread and the document is not standalone, and no
    /// element has two rows of defaults.
    pub open spec fn wf(&self) -> bool {
        &&& 0 <= self.depth <= DEPTH_LIMIT
        &&& self.dtd_entities@.dom().finite()
        &&& self.entdecl.external@.dom().finite()
        &&& self.entdecl.unparsed@.dom().finite()
        &&& self.entdecl.unread == (self.dtd_unread && !self.standalone)
        &&& keys_unique(table_entries(self.dtd_attr_defaults))
    }

    /// The state before anything is read.
    pub fn new() -> (s: Self)
        ensures
            s.wf(),
            s.model() == (StateModel {
                depth: 0,
                dtd: Map::empty(),
                external: Map::empty(),
                unparsed: Map::empty(),
                defaults: Seq::empty(),
                dtd_unread: false,
                standalone: false,
                bom_row: None,
                root_seen: false,
            }),
    {
        ParseState {
            depth: 0,
            dtd_entities: TextMap::new(),
            entdecl: EntityDeclState::default(),
            dtd_attr_defaults: table_new(),
            dtd_unread: false,
            standalone: false,
            bom_row: None,
            root_seen: false,
        }
    }

    /// The element depth of the parse so far.
    pub fn depth(&self) -> (d: i64)
        ensures
            d == self.depth,
    {
        self.depth
    }

    /// Set the depth, never below zero.
    pub fn set_depth(&mut self, depth: i64)
        ensures
            final(self).depth == (if depth < 0 {
                0
            } else {
                depth
            }),
            final(self).model() == (StateModel { depth: final(self).depth as int, ..old(self).model() }),
            final(self).entdecl.unread == old(self).entdecl.unread,
    {
        self.depth = if depth < 0 {
            0
        } else {
            depth
        };
    }

    /// The internal entities the DOCTYPE declared.
    pub fn dtd_entities(&self) -> (m: &TextMap)
        ensures
            m@ == self.dtd_entities@,
    {
        &self.dtd_entities
    }

    /// The DOCTYPE-supplied default attributes for `element`, if any.
    pub fn dtd_attr_defaults(&self, element: &str) -> (r: Option<&IndexMap<String, String>>)
        requires
            self.wf(),
        ensures
            match r {
                Some(row) => lookup(self.model().defaults, element@) == Some(str_entries(*row)),
                None => lookup(self.model().defaults, element@) is None,
            },
    {
        let found = table_get(&self.dtd_attr_defaults, element);
        match found {
            Some(row) => {
                proof {
                    lemma_found_is_lookup(self.model().defaults, element@, str_entries(*row));
                }
                Some(row)
            },
            None => None,
        }
    }

    /// What the parse knows about entity declarations.
    pub fn entity_decl_state(&self) -> (d: &EntityDeclState)
        ensures
            d.external@ == self.entdecl.external@,
            d.unparsed@ == self.entdecl.unparsed@,
            d.unread == self.entdecl.unread,
    {
        &self.entdecl
    }

    /// Record the row a byte-order mark at the very start was skipped on:
    /// `pos` is the cursor, `row` its row. Returns whether the mark is
    /// there to skip.
    pub fn skip_bom(&mut self, pos: usize, row: usize, rest: &[char]) -> (skipped: bool)
        ensures
            skipped == (pos == 0 && rest@.len() > 0 && rest@[0] == '\u{FEFF}'),
            final(self).model() == (if skipped {
                StateModel { bom_row: Some(row), ..old(self).model() }
            } else {
                old(self).model()
            }),
            final(self).wf() == old(self).wf(),
    {
        if pos == 0 && rest.len() > 0 && rest[0] == '\u{FEFF}' {
            self.bom_row = Some(row);
            true
        } else {
            false
        }
    }
}

/// The display column `ci` of a position on row `ri`, with the column a
/// skipped byte-order mark was charged taken off again: the mark is an
/// encoding signature, not content, and occupies no column.
pub open spec fn bom_column(bom_row: Option<usize>, ri: int, ci: int) -> int {
    match bom_row {
        Some(row) => if ri == row && 1 < ci {
            ci - 1
        } else {
            ci
        },
        None => ci,
    }
}

/// Give back the column a skipped byte-order mark was charged, on the
/// row it was on and no other.
pub fn discount_bom(state: &ParseState, ri: usize, ci: usize) -> (r: usize)
    ensures
        r == bom_column(state.bom_row, ri as int, ci as int),
{
    match state.bom_row {
        Some(row) => if ri == row && 1 < ci {
            ci - 1
        } else {
            ci
        },
        None => ci,
    }
}

pub open spec fn comment_open() -> Seq<char> {
    seq!['<', '!', '-', '-']
}

pub open spec fn comment_close() -> Seq<char> {
    seq!['-', '-', '>']
}

pub open spec fn double_dash() -> Seq<char> {
    seq!['-', '-']
}

pub open spec fn cdata_open() -> Seq<char> {
    seq!['<', '!', '[', 'C', 'D', 'A', 'T', 'A', '[']
}

pub open spec fn cdata_close() -> Seq<char> {
    seq![']', ']', '>']
}

pub open spec fn doctype_open() -> Seq<char> {
    seq!['<', '!', 'D', 'O', 'C', 'T', 'Y', 'P', 'E']
}

pub open spec fn pi_close() -> Seq<char> {
    seq!['?', '>']
}

pub open spec fn xml_target() -> Seq<char> {
    seq!['x', 'm', 'l']
}

/// `<!-- ... -->`: unterminated, a `--` in the body, an illegal control
/// in the body, or an ignored construct.
pub open spec fn comment_scan(t: Seq<char>) -> ScanModel {
    match first_at(t, 4, comment_close()) {
        None => ScanModel::Bad(WfError::UnterminatedComment, 0, t.len() as int),
        Some(f) => {
            let body = t.subrange(4, f);
            if first_at(body, 0, double_dash()) is Some {
                ScanModel::Bad(WfError::CommentDoubleDash, 0, f + 3)
            } else if has_illegal_control(body) {
                ScanModel::Bad(WfError::InvalidXmlChar, 0, f + 3)
            } else {
                ScanModel::Ignored(f + 3)
            }
        },
    }
}

/// `<![CDATA[ ... ]]>`: its body verbatim, line ends normalised.
pub open spec fn cdata_scan(t: Seq<char>) -> ScanModel {
    match first_at(t, 9, cdata_close()) {
        None => ScanModel::Bad(WfError::UnterminatedCdata, 0, t.len() as int),
        Some(f) => {
            let body = t.subrange(9, f);
            if has_illegal_control(body) {
                ScanModel::Bad(WfError::InvalidXmlChar, 0, f + 3)
            } else {
                ScanModel::Text(lf_normalised(body), f + 3)
            }
        },
    }
}

/// `<?target ...?>`: the target must be a Name followed by white space
/// or the end of the instruction.
pub open spec fn pi_scan(t: Seq<char>) -> ScanModel {
    match first_at(t, 2, pi_close()) {
        None => ScanModel::Bad(WfError::UnterminatedPi, 0, t.len() as int),
        Some(f) => match name_end(t, 2) {
            None => ScanModel::Bad(WfError::PiTargetInvalid, 0, f + 2),
            Some(after) => if after > f || (after < f && !space_char(t[after])) {
                ScanModel::Bad(WfError::PiTargetInvalid, 0, f + 2)
            } else if has_illegal_control(t.subrange(2, f)) {
                ScanModel::Bad(WfError::InvalidXmlChar, 0, f + 2)
            } else {
                ScanModel::Ignored(f + 2)
            },
        },
    }
}

/// Whether the instruction is a well-formed XML declaration that says
/// `standalone="yes"`.
pub open spec fn pi_declares_standalone(t: Seq<char>) -> bool {
    match first_at(t, 2, pi_close()) {
        None => false,
        Some(f) => match name_end(t, 2) {
            None => false,
            Some(after) => {
                &&& pi_scan(t) is Ignored
                &&& t.subrange(2, after) == xml_target()
                &&& has_standalone_yes(t.subrange(after, f))
            },
        },
    }
}

/// `</name>`: a Name, optional white space, `>`.
pub open spec fn close_scan(t: Seq<char>) -> ScanModel {
    match name_end(t, 2) {
        None => ScanModel::Bad(WfError::XmlInvalidTag, 0, after_pos(t, 2)),
        Some(after) => {
            let i = skip_spaces(t, after);
            if i >= t.len() || t[i] != '>' {
                ScanModel::Bad(WfError::XmlInvalidTag, 0, after_pos(t, i))
            } else {
                ScanModel::Close(t.subrange(2, after), i + 1)
            }
        },
    }
}

/// A run of character data checked and decoded: every character legal,
/// no `]]>`, every reference well formed and (when strict) declared;
/// then line ends normalised and, when entities are decoded, references
/// expanded.
pub open spec fn text_result(raw: Seq<char>, env: LexEnv, s: StateModel) -> Result<
    Seq<char>,
    WfError,
> {
    if has_illegal_control(raw) {
        Err(WfError::InvalidXmlChar)
    } else if first_at(raw, 0, cdata_close()) is Some {
        Err(WfError::CdataTerminatorInText)
    } else {
        match references_error(
            raw,
            0,
            s.dtd.dom(),
            env.base.dom(),
            env.strict,
            s.external.dom(),
            s.unparsed.dom(),
            s.dtd_unread && !s.standalone,
            false,
        ) {
            Some(e) => Err(e),
            None => Ok(
                if env.entities {
                    expand_from(env.base, s.dtd, Set::empty(), lf_normalised(raw), 0)
                } else {
                    lf_normalised(raw)
                },
            ),
        }
    }
}

/// Where the character data at the front ends: at the next `<`.
pub open spec fn text_end(t: Seq<char>) -> int {
    match next_char_pos(t, 0, '<') {
        Some(k) => k,
        None => t.len() as int,
    }
}

/// The character data at the front, up to the next `<`, as one token.
pub open spec fn text_scan(t: Seq<char>, env: LexEnv, s: StateModel) -> ScanModel {
    let end = text_end(t);
    match text_result(t.subrange(0, end), env, s) {
        Ok(x) => ScanModel::Text(x, end),
        Err(e) => ScanModel::Bad(e, 0, end),
    }
}

fn pattern(word: &str) -> (v: Vec<char>)
    ensures
        v@ == word@,
{
    crate::text::chars_of(word)
}

proof fn lemma_patterns()
    ensures
        "<!--"@ == comment_open(),
        "-->"@ == comment_close(),
        "--"@ == double_dash(),
        "<![CDATA["@ == cdata_open(),
        "]]>"@ == cdata_close(),
        "<!DOCTYPE"@ == doctype_open(),
        "?>"@ == pi_close(),
        "xml"@ == xml_target(),
{
    reveal_strlit("<!--");
    reveal_strlit("-->");
    reveal_strlit("--");
    reveal_strlit("<![CDATA[");
    reveal_strlit("]]>");
    reveal_strlit("<!DOCTYPE");
    reveal_strlit("?>");
    reveal_strlit("xml");
    assert("<!--"@ =~= comment_open());
    assert("-->"@ =~= comment_close());
    assert("--"@ =~= double_dash());
    assert("<![CDATA["@ =~= cdata_open());
    assert("]]>"@ =~= cdata_close());
    assert("<!DOCTYPE"@ =~= doctype_open());
    assert("?>"@ =~= pi_close());
    assert("xml"@ =~= xml_target());
}

/// Scan a comment; the source starts with `<!--`.
fn scan_comment(rest: &[char]) -> (r: Scan)
    requires
        occurs_at(rest@, 0, comment_open()),
    ensures
        r.model() == comment_scan(rest@),
{
    proof {
        lemma_patterns();
        lemma_first_at(rest@, 4, comment_close());
    }
    let close = pattern("-->");
    assert(close@ == comment_close());
    match find_from(rest, 4, &close) {
        None => Scan::Bad { code: WfError::UnterminatedComment, from: 0, to: rest.len() },
        Some(f) => {
            assert(f + 3 <= rest@.len());
            assert(rest@.len() == rest.len());
            let body = sub_chars(rest, 4, f);
            let dd = pattern("--");
            if find_from(&body, 0, &dd).is_some() {
                return Scan::Bad { code: WfError::CommentDoubleDash, from: 0, to: f + 3 };
            }
            if check_chars_in(rest, 4, f).is_some() {
                return Scan::Bad { code: WfError::InvalidXmlChar, from: 0, to: f + 3 };
            }
            Scan::Ignored { end: f + 3 }
        },
    }
}

/// Scan a CDATA section; the source starts with `<![CDATA[`.
fn scan_cdata(rest: &[char]) -> (r: Scan)
    requires
        occurs_at(rest@, 0, cdata_open()),
    ensures
        r.model() == cdata_scan(rest@),
{
    proof {
        lemma_patterns();
        lemma_first_at(rest@, 9, cdata_close());
    }
    let close = pattern("]]>");
    assert(close@ == cdata_close());
    match find_from(rest, 9, &close) {
        None => Scan::Bad { code: WfError::UnterminatedCdata, from: 0, to: rest.len() },
        Some(f) => {
            assert(f + 3 <= rest@.len());
            assert(rest@.len() == rest.len());
            if check_chars_in(rest, 9, f).is_some() {
                return Scan::Bad { code: WfError::InvalidXmlChar, from: 0, to: f + 3 };
            }
            Scan::Text { text: lf_normalise_chars(rest, 9, f), end: f + 3 }
        },
    }
}

/// Scan a processing instruction; the source starts with `<?`. An XML
/// declaration that says `standalone="yes"` sets the standalone flag.
fn scan_pi(parse: &mut ParseState, rest: &[char]) -> (r: Scan)
    requires
        rest@.len() >= 2,
        rest@[1] == '?',
        old(parse).wf(),
    ensures
        r.model() == pi_scan(rest@),
        final(parse).wf(),
        final(parse).model() == (if pi_declares_standalone(rest@) {
            StateModel { standalone: true, ..old(parse).model() }
        } else {
            old(parse).model()
        }),
{
    proof {
        lemma_patterns();
        lemma_first_at(rest@, 2, pi_close());
    }
    let close = pattern("?>");
    assert(close@ == pi_close());
    let found = find_from(rest, 2, &close);
    let f = match found {
        None => {
            return Scan::Bad { code: WfError::UnterminatedPi, from: 0, to: rest.len() };
        },
        Some(f) => f,
    };
    assert(rest@.len() == rest.len());
    let end = f + 2;
    let after = match read_name_at(rest, 2) {
        None => {
            return Scan::Bad { code: WfError::PiTargetInvalid, from: 0, to: end };
        },
        Some(after) => after,
    };
    if after > f {
        return Scan::Bad { code: WfError::PiTargetInvalid, from: 0, to: end };
    }
    if after < f && !crate::entity::is_space_char(rest[after]) {
        return Scan::Bad { code: WfError::PiTargetInvalid, from: 0, to: end };
    }
    if check_chars_in(rest, 2, f).is_some() {
        return Scan::Bad { code: WfError::InvalidXmlChar, from: 0, to: end };
    }
    let target = sub_chars(rest, 2, after);
    let xml = pattern("xml");
    if starts_at(&target, 0, &xml) && target.len() == 3 {
        let tail = sub_chars(rest, after, f);
        if crate::decl::standalone_yes_in(&tail) {
            proof {
                assert(target@ =~= xml_target());
            }
            parse.standalone = true;
            parse.entdecl.unread = false;
            return Scan::Ignored { end };
        }
    }
    proof {
        if target@ == xml_target() {
            assert(target@.subrange(0, 3) =~= target@);
        }
    }
    Scan::Ignored { end }
}

/// Scan a close tag; the source starts with `</`. A close tag takes one
/// off the depth.
fn scan_close(parse: &mut ParseState, rest: &[char]) -> (r: Scan)
    requires
        rest@.len() >= 2,
        rest@[1] == '/',
        old(parse).wf(),
    ensures
        r.model() == close_scan(rest@),
        final(parse).wf(),
        final(parse).model() == (if close_scan(rest@) is Close {
            StateModel {
                depth: if old(parse).depth > 0 {
                    old(parse).depth - 1
                } else {
                    0
                },
                ..old(parse).model()
            }
        } else {
            old(parse).model()
        }),
{
    let after = match read_name_at(rest, 2) {
        None => {
            let to = if 2 >= rest.len() {
                rest.len()
            } else {
                3
            };
            return Scan::Bad { code: WfError::XmlInvalidTag, from: 0, to };
        },
        Some(after) => after,
    };
    let i = skip_space(rest, after);
    proof {
        lemma_skip_spaces(rest@, after as int);
    }
    if i >= rest.len() || rest[i] != '>' {
        let to = if i >= rest.len() {
            rest.len()
        } else {
            i + 1
        };
        return Scan::Bad { code: WfError::XmlInvalidTag, from: 0, to };
    }
    let name = string_of(rest, 2, after);
    let d = parse.depth();
    parse.set_depth(d - 1);
    Scan::Close { name, end: i + 1 }
}

/// Validate and decode a run of character data (not CDATA).
pub fn process_text(
    state: &MatcherState,
    raw: &str,
    dtd: &TextMap,
    entdecl: &EntityDeclState,
) -> (r: Result<String, WfError>)
    requires
        dtd@.dom().finite(),
    ensures
        r matches Ok(x) ==> x@ == (if state.entities {
            expand_from(state.decoder.entities(), dtd@, Set::empty(), lf_normalised(raw@), 0)
        } else {
            lf_normalised(raw@)
        }),
        (r matches Err(e) ==> (if has_illegal_control(raw@) {
            e == WfError::InvalidXmlChar
        } else if first_at(raw@, 0, cdata_close()) is Some {
            e == WfError::CdataTerminatorInText
        } else {
            references_error(
                raw@,
                0,
                dtd@.dom(),
                state.decoder.entities().dom(),
                state.strict,
                entdecl.external@.dom(),
                entdecl.unparsed@.dom(),
                entdecl.unread,
                false,
            ) == Some(e)
        })),
        r is Ok <==> !has_illegal_control(raw@) && first_at(raw@, 0, cdata_close()) is None
            && references_error(
            raw@,
            0,
            dtd@.dom(),
            state.decoder.entities().dom(),
            state.strict,
            entdecl.external@.dom(),
            entdecl.unparsed@.dom(),
            entdecl.unread,
            false,
        ) is None,
{
    if let Some(code) = check_chars(raw) {
        return Err(code);
    }
    proof {
        lemma_patterns();
    }
    let chars = crate::text::chars_of(raw);
    let close = pattern("]]>");
    if find_from(&chars, 0, &close).is_some() {
        return Err(WfError::CdataTerminatorInText);
    }
    if let Some(code) = check_entity_refs(raw, dtd, state.decoder.declared(), state.strict, entdecl, false) {
        return Err(code);
    }
    proof {
        assert(chars@.subrange(0, chars@.len() as int) =~= raw@);
    }
    let normalised = lf_normalise_chars(&chars, 0, chars.len());
    if state.entities {
        Ok(state.decoder.decode(normalised.as_str(), dtd))
    } else {
        Ok(normalised)
    }
}

/// Scan character data; the source starts with something other than `<`
/// and an element is open.
fn scan_text(state: &MatcherState, parse: &ParseState, rest: &[char]) -> (r: Scan)
    requires
        parse.wf(),
    ensures
        r.model() == text_scan(rest@, state.env(), parse.model()),
{
    proof {
        lemma_next_char_pos(rest@, 0, '<');
    }
    let end = match find_char(rest, 0, '<') {
        Some(k) => k,
        None => rest.len(),
    };
    let raw = string_of(rest, 0, end);
    match process_text(state, raw.as_str(), parse.dtd_entities(), parse.entity_decl_state()) {
        Ok(text) => Scan::Text { text, end },
        Err(code) => Scan::Bad { code, from: 0, to: end },
    }
}

/// Every span a scan reports lies within the source: a token covers at
/// least one character and at most the whole source, and an error span
/// `from..to` is non-empty and within it.
pub open spec fn in_bounds(m: ScanModel, n: int) -> bool {
    match m {
        ScanModel::Ignored(end) => 0 < end <= n,
        ScanModel::Text(_, end) => 0 < end <= n,
        ScanModel::Open(_, _, end) => 0 < end <= n,
        ScanModel::SelfClose(_, _, end) => 0 < end <= n,
        ScanModel::Close(_, end) => 0 < end <= n,
        ScanModel::Bad(_, from, to) => 0 <= from < to <= n,
        ScanModel::NoMatch => true,
    }
}

/// One scan of the front of the source, and the state after it. Empty
/// source, or character data while no element is open, is no match;
/// character data inside an element is one text token; after a `<` come
/// a comment, a CDATA section, a DOCTYPE, a processing instruction, a
/// close tag or an open tag, in that order of trial.
pub open spec fn scan_step(t: Seq<char>, env: LexEnv, s: StateModel) -> (ScanModel, StateModel) {
    if t.len() == 0 {
        (ScanModel::NoMatch, s)
    } else if t[0] != '<' {
        if s.depth > 0 {
            (text_scan(t, env, s), s)
        } else {
            (ScanModel::NoMatch, s)
        }
    } else if occurs_at(t, 0, comment_open()) {
        (comment_scan(t), s)
    } else if occurs_at(t, 0, cdata_open()) {
        (cdata_scan(t), s)
    } else if occurs_at(t, 0, doctype_open()) {
        doctype_step(t, s)
    } else if t.len() > 1 && t[1] == '?' {
        (
            pi_scan(t),
            if pi_declares_standalone(t) {
                StateModel { standalone: true, ..s }
            } else {
                s
            },
        )
    } else if t.len() > 1 && t[1] == '/' {
        (
            close_scan(t),
            if close_scan(t) is Close {
                StateModel {
                    depth: if s.depth > 0 {
                        s.depth - 1
                    } else {
                        0
                    },
                    ..s
                }
            } else {
                s
            },
        )
    } else {
        (
            tag_scan(t, env, s),
            if tag_scan(t, env, s) is Open {
                StateModel { depth: s.depth + 1, ..s }
            } else {
                s
            },
        )
    }
}

/// Read one construct from the front of `rest`.
pub fn scan(state: &MatcherState, parse: &mut ParseState, rest: &[char]) -> (r: Scan)
    requires
        old(parse).wf(),
    ensures
        (r.model(), final(parse).model()) == scan_step(rest@, state.env(), old(parse).model()),
        final(parse).wf(),
{
    proof {
        lemma_patterns();
    }
    if rest.len() == 0 {
        return Scan::NoMatch;
    }
    if rest[0] != '<' {
        if parse.depth() > 0 {
            return scan_text(state, parse, rest);
        }
        return Scan::NoMatch;
    }
    let comment = pattern("<!--");
    if starts_at(rest, 0, &comment) {
        return scan_comment(rest);
    }
    let cdata = pattern("<![CDATA[");
    if starts_at(rest, 0, &cdata) {
        return scan_cdata(rest);
    }
    let doctype = pattern("<!DOCTYPE");
    if starts_at(rest, 0, &doctype) {
        return scan_doctype(parse, rest);
    }
    if rest.len() > 1 && rest[1] == '?' {
        return scan_pi(parse, rest);
    }
    if rest.len() > 1 && rest[1] == '/' {
        return scan_close(parse, rest);
    }
    scan_tag(state, parse, rest)
}

} // verus!

verus! {

/// Every span one scan reports lies within the source it read: a token
/// covers at least one character, and an error span is non-empty.
pub proof fn lemma_scan_in_bounds(t: Seq<char>, env: LexEnv, s: StateModel)
    ensures
        in_bounds(scan_step(t, env, s).0, t.len() as int),
{
    lemma_patterns();
    if t.len() == 0 {
    } else if t[0] != '<' {
        lemma_next_char_pos(t, 0, '<');
    } else if occurs_at(t, 0, comment_open()) {
        lemma_first_at(t, 4, comment_close());
    } else if occurs_at(t, 0, cdata_open()) {
        lemma_first_at(t, 9, cdata_close());
    } else if occurs_at(t, 0, doctype_open()) {
        crate::doctype::lemma_doctype_walk(t, 9, 0, None, None);
    } else if t.len() > 1 && t[1] == '?' {
        lemma_first_at(t, 2, pi_close());
    } else if t.len() > 1 && t[1] == '/' {
        if let Some(after) = name_end(t, 2) {
            lemma_name_run_end(t, 3);
            lemma_skip_spaces(t, after);
        }
    } else {
        if let Some(after) = name_end(t, 1) {
            lemma_name_run_end(t, 2);
            crate::tag::lemma_tag_from(t, t.subrange(1, after), after, Seq::empty(), env, s);
        }
    }
}

/// No tag opens at the depth limit, so a scan keeps the depth within
/// `0..=DEPTH_LIMIT`.
pub proof fn lemma_scan_keeps_depth(t: Seq<char>, env: LexEnv, s: StateModel)
    requires
        0 <= s.depth <= DEPTH_LIMIT,
    ensures
        0 <= scan_step(t, env, s).1.depth <= DEPTH_LIMIT,
        s.depth == DEPTH_LIMIT ==> !(scan_step(t, env, s).0 is Open),
{
    lemma_patterns();
    if t.len() > 0 && t[0] == '<' && !occurs_at(t, 0, comment_open()) && !occurs_at(
        t,
        0,
        cdata_open(),
    ) && !occurs_at(t, 0, doctype_open()) && !(t.len() > 1 && t[1] == '?') && !(t.len() > 1
        && t[1] == '/') {
        if let Some(after) = name_end(t, 1) {
            lemma_name_run_end(t, 2);
            crate::tag::lemma_tag_from(t, t.subrange(1, after), after, Seq::empty(), env, s);
        }
    }
}

} // verus!

verus! {

/// Scanning an empty tag `<n/>` or `<n />` (any white space before the
/// `/>`) reads it whole as a self-closing tag named `n` with no
/// attributes, and leaves the state as it was.
pub proof fn lemma_scan_empty_tag(n: Seq<char>, ws: Seq<char>, env: LexEnv, s: StateModel)
    requires
        crate::entity::is_name(n),
        forall|m: int| 0 <= m < ws.len() ==> space_char(#[trigger] ws[m]),
    ensures
        scan_step(seq!['<'] + n + ws + seq!['/', '>'], env, s) == (
            ScanModel::SelfClose(n, Seq::empty(), n.len() + ws.len() + 3int),
            s,
        ),
{
    let t = seq!['<'] + n + ws + seq!['/', '>'];
    crate::tag::lemma_empty_tag_self_closes(n, ws, env, s);
    assert(t[1] == n[0]);
    assert(!occurs_at(t, 0, comment_open())) by {
        if occurs_at(t, 0, comment_open()) {
            assert(t.subrange(0, 4)[1] == '!');
        }
    }
    assert(!occurs_at(t, 0, cdata_open())) by {
        if occurs_at(t, 0, cdata_open()) {
            assert(t.subrange(0, 9)[1] == '!');
        }
    }
    assert(!occurs_at(t, 0, doctype_open())) by {
        if occurs_at(t, 0, doctype_open()) {
            assert(t.subrange(0, 9)[1] == '!');
        }
    }
}

} // verus!
