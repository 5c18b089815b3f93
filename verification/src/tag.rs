//! Open and self-closing tags: `<name attr="v" ...>` and
//! `<name attr="v" ... />`. Attribute values are checked, normalised
//! (3.3.3) and, when entities are decoded, decoded as they are read; the
//! tag that would open one element more than the depth limit allows is
//! refused.
use vstd::prelude::*;

use crate::entity::{
    after_pos, attr_normalise_chars, attr_space_normalised, check_chars_in, check_entity_refs,
    expand_from, has_illegal_control, lemma_name_run_end, lemma_skip_spaces,
    name_end, read_name_at, references_error, skip_space, skip_spaces,
};
use crate::error::WfError;
use crate::lex::{LexEnv, MatcherState, ParseState, ScanModel, Scan, StateModel, DEPTH_LIMIT};
use crate::ordered::{has_key, str_entries, str_map_contains_key, str_map_insert, str_map_new};
use crate::text::string_of;

verus! {

/// The first position at or after `p` holding the closing quote `q` or
/// a `<`, or the end.
pub open spec fn value_stop(t: Seq<char>, p: int, q: char) -> int
    decreases t.len() - p,
{
    if p < 0 || p >= t.len() || t[p] == q || t[p] == '<' {
        p
    } else {
        value_stop(t, p + 1, q)
    }
}

pub proof fn lemma_value_stop(t: Seq<char>, p: int, q: char)
    requires
        0 <= p <= t.len(),
    ensures
        p <= value_stop(t, p, q) <= t.len(),
        value_stop(t, p, q) < t.len() ==> (t[value_stop(t, p, q)] == q || t[value_stop(t, p, q)]
            == '<'),
    decreases t.len() - p,
{
    if p < t.len() && t[p] != q && t[p] != '<' {
        lemma_value_stop(t, p + 1, q);
    }
}

/// The verdict on the raw text of an attribute value: an illegal
/// control, else the first reference error (inside an attribute).
pub open spec fn attr_value_error(raw: Seq<char>, env: LexEnv, s: StateModel) -> Option<WfError> {
    if has_illegal_control(raw) {
        Some(WfError::InvalidXmlChar)
    } else {
        references_error(
            raw,
            0,
            s.dtd.dom(),
            env.base.dom(),
            env.strict,
            s.external.dom(),
            s.unparsed.dom(),
            s.dtd_unread && !s.standalone,
            true,
        )
    }
}

/// An attribute value as stored: its white space normalised, then its
/// references decoded when entities are decoded at all; with decoding off
/// the references stay as written.
pub open spec fn attr_value(raw: Seq<char>, env: LexEnv, s: StateModel) -> Seq<char> {
    if env.entities {
        expand_from(env.base, s.dtd, Set::empty(), attr_space_normalised(raw), 0)
    } else {
        attr_space_normalised(raw)
    }
}

/// The rest of a tag from position `i`, `attrs` read so far: white
/// space, then `>` (open, refused at the depth limit), `/>` (self
/// closing), or an attribute `name = "value"` that white space must
/// precede; a value may not hold `<`, must be legal, and names no
/// attribute twice.
pub open spec fn tag_from(
    t: Seq<char>,
    name: Seq<char>,
    i: int,
    attrs: Seq<(Seq<char>, Seq<char>)>,
    env: LexEnv,
    s: StateModel,
) -> ScanModel
    decreases t.len() - i,
{
    if i < 0 || i > t.len() {
        ScanModel::NoMatch
    } else {
        let j = skip_spaces(t, i);
        if j >= t.len() {
            ScanModel::Bad(WfError::XmlInvalidTag, 0, t.len() as int)
        } else if t[j] == '>' {
            if s.depth >= DEPTH_LIMIT {
                ScanModel::Bad(WfError::Cancel, 0, j + 1)
            } else {
                ScanModel::Open(name, attrs, j + 1)
            }
        } else if t[j] == '/' && j + 1 < t.len() && t[j + 1] == '>' {
            ScanModel::SelfClose(name, attrs, j + 2)
        } else if j == i {
            ScanModel::Bad(WfError::XmlInvalidTag, 0, j + 1)
        } else {
            match name_end(t, j) {
                None => ScanModel::Bad(WfError::XmlInvalidTag, 0, j + 1),
                Some(ae) => {
                    let k = skip_spaces(t, ae);
                    if k >= t.len() || t[k] != '=' {
                        ScanModel::Bad(WfError::XmlInvalidTag, 0, after_pos(t, k))
                    } else {
                        let v = skip_spaces(t, k + 1);
                        if v >= t.len() {
                            ScanModel::Bad(WfError::XmlInvalidTag, 0, t.len() as int)
                        } else if t[v] != '"' && t[v] != '\'' {
                            ScanModel::Bad(WfError::XmlInvalidTag, 0, v + 1)
                        } else {
                            let e = value_stop(t, v + 1, t[v]);
                            if e >= t.len() {
                                ScanModel::Bad(WfError::XmlInvalidTag, 0, t.len() as int)
                            } else if t[e] == '<' {
                                ScanModel::Bad(WfError::LtInAttrValue, 0, e + 1)
                            } else {
                                let raw = t.subrange(v + 1, e);
                                let an = t.subrange(j, ae);
                                match attr_value_error(raw, env, s) {
                                    Some(err) => ScanModel::Bad(err, v + 1, e + 1),
                                    None => if has_key(attrs, an) {
                                        ScanModel::Bad(WfError::DuplicateAttribute, 0, e + 1)
                                    } else {
                                        proof {
                                            lemma_skip_spaces(t, i);
                                            lemma_name_run_end(t, j + 1);
                                            lemma_skip_spaces(t, ae);
                                            lemma_skip_spaces(t, k + 1);
                                            lemma_value_stop(t, v + 1, t[v]);
                                        }
                                        tag_from(
                                            t,
                                            name,
                                            e + 1,
                                            attrs.push((an, attr_value(raw, env, s))),
                                            env,
                                            s,
                                        )
                                    },
                                }
                            }
                        }
                    }
                },
            }
        }
    }
}

/// A tag at the front of the source: `<` and a Name, then the rest of
/// the tag; no Name after the `<` is not XML markup at all.
pub open spec fn tag_scan(t: Seq<char>, env: LexEnv, s: StateModel) -> ScanModel {
    match name_end(t, 1) {
        None => ScanModel::NoMatch,
        Some(after) => tag_from(t, t.subrange(1, after), after, Seq::empty(), env, s),
    }
}

/// Where an attribute value starting at `p` stops.
fn find_value_stop(chars: &[char], p: usize, q: char) -> (r: usize)
    requires
        p <= chars@.len(),
    ensures
        r == value_stop(chars@, p as int, q),
{
    let mut k = p;
    while k < chars.len() && chars[k] != q && chars[k] != '<'
        invariant
            p <= k <= chars@.len(),
            value_stop(chars@, k as int, q) == value_stop(chars@, p as int, q),
        decreases chars.len() - k,
    {
        k = k + 1;
    }
    k
}

/// Scan an open or self-closing tag; the source starts with `<`. An open
/// tag adds one to the depth.
pub fn scan_tag(state: &MatcherState, parse: &mut ParseState, rest: &[char]) -> (r: Scan)
    requires
        old(parse).wf(),
    ensures
        r.model() == tag_scan(rest@, state.env(), old(parse).model()),
        final(parse).wf(),
        final(parse).model() == (if tag_scan(rest@, state.env(), old(parse).model()) is Open {
            StateModel { depth: old(parse).depth + 1, ..old(parse).model() }
        } else {
            old(parse).model()
        }),
{
    let ghost t = rest@;
    let ghost env = state.env();
    let ghost s = parse.model();
    assert(rest@.len() == rest.len());
    let after = match read_name_at(rest, 1) {
        None => {
            return Scan::NoMatch;
        },
        Some(after) => after,
    };
    let name = string_of(rest, 1, after);
    let mut attributes = str_map_new();
    let mut i = after;
    loop
        invariant
            t == rest@,
            rest@.len() == rest.len(),
            env == state.env(),
            s == parse.model(),
            s == old(parse).model(),
            parse.wf(),
            after <= i <= rest@.len(),
            name@ == t.subrange(1, after as int),
            tag_from(t, name@, i as int, str_entries(attributes), env, s) == tag_scan(t, env, s),
        decreases rest@.len() - i,
    {
        let ws_start = i;
        i = skip_space(rest, i);
        proof {
            lemma_skip_spaces(t, ws_start as int);
        }
        if i >= rest.len() {
            return Scan::Bad { code: WfError::XmlInvalidTag, from: 0, to: rest.len() };
        }
        if rest[i] == '>' {
            if parse.depth() >= DEPTH_LIMIT {
                return Scan::Bad { code: WfError::Cancel, from: 0, to: i + 1 };
            }
            let d = parse.depth();
            parse.set_depth(d + 1);
            return Scan::Open { name, attributes, end: i + 1 };
        }
        if rest[i] == '/' && i + 1 < rest.len() && rest[i + 1] == '>' {
            return Scan::SelfClose { name, attributes, end: i + 2 };
        }
        if ws_start == i {
            return Scan::Bad { code: WfError::XmlInvalidTag, from: 0, to: i + 1 };
        }
        let j = i;
        let attr_end = match read_name_at(rest, j) {
            None => {
                return Scan::Bad { code: WfError::XmlInvalidTag, from: 0, to: j + 1 };
            },
            Some(attr_end) => attr_end,
        };
        proof {
            lemma_name_run_end(t, j + 1);
        }
        i = skip_space(rest, attr_end);
        proof {
            lemma_skip_spaces(t, attr_end as int);
        }
        if i >= rest.len() || rest[i] != '=' {
            let to = if i >= rest.len() {
                rest.len()
            } else {
                i + 1
            };
            return Scan::Bad { code: WfError::XmlInvalidTag, from: 0, to };
        }
        let k = i;
        i = skip_space(rest, k + 1);
        proof {
            lemma_skip_spaces(t, k + 1);
        }
        if i >= rest.len() {
            return Scan::Bad { code: WfError::XmlInvalidTag, from: 0, to: rest.len() };
        }
        let quote = rest[i];
        if quote != '"' && quote != '\'' {
            return Scan::Bad { code: WfError::XmlInvalidTag, from: 0, to: i + 1 };
        }
        let value_start = i + 1;
        let e = find_value_stop(rest, value_start, quote);
        proof {
            lemma_value_stop(t, value_start as int, quote);
        }
        if e >= rest.len() {
            return Scan::Bad { code: WfError::XmlInvalidTag, from: 0, to: rest.len() };
        }
        if rest[e] == '<' {
            return Scan::Bad { code: WfError::LtInAttrValue, from: 0, to: e + 1 };
        }
        let raw = string_of(rest, value_start, e);
        if let Some(code) = check_chars_in(rest, value_start, e) {
            return Scan::Bad { code, from: value_start, to: e + 1 };
        }
        if let Some(code) = check_entity_refs(
            raw.as_str(),
            parse.dtd_entities(),
            state.decoder.declared(),
            state.strict,
            parse.entity_decl_state(),
            true,
        ) {
            return Scan::Bad { code, from: value_start, to: e + 1 };
        }
        let attr_name = string_of(rest, j, attr_end);
        if str_map_contains_key(&attributes, attr_name.as_str()) {
            return Scan::Bad { code: WfError::DuplicateAttribute, from: 0, to: e + 1 };
        }
        let normalised = attr_normalise_chars(rest, value_start, e);
        let value = if state.entities {
            state.decoder.decode(normalised.as_str(), parse.dtd_entities())
        } else {
            normalised
        };
        let ghost before = str_entries(attributes);
        str_map_insert(&mut attributes, attr_name, value);
        proof {
            assert(str_entries(attributes) == before.push((t.subrange(j as int, attr_end as int), attr_value(t.subrange(value_start as int, e as int), env, s))));
        }
        i = e + 1;
    }
}

} // verus!

verus! {

/// Every span the rest of a tag reports lies within the source, and a
/// tag opens only below the depth limit.
pub proof fn lemma_tag_from(
    t: Seq<char>,
    name: Seq<char>,
    i: int,
    attrs: Seq<(Seq<char>, Seq<char>)>,
    env: LexEnv,
    s: StateModel,
)
    requires
        1 <= i <= t.len(),
    ensures
        crate::lex::in_bounds(tag_from(t, name, i, attrs, env, s), t.len() as int),
        tag_from(t, name, i, attrs, env, s) is Open ==> s.depth < DEPTH_LIMIT,
    decreases t.len() - i,
{
    lemma_skip_spaces(t, i);
    let j = skip_spaces(t, i);
    if j < t.len() && t[j] != '>' && !(t[j] == '/' && j + 1 < t.len() && t[j + 1] == '>') && j
        != i {
        if let Some(ae) = name_end(t, j) {
            lemma_name_run_end(t, j + 1);
            lemma_skip_spaces(t, ae);
            let k = skip_spaces(t, ae);
            if k < t.len() && t[k] == '=' {
                lemma_skip_spaces(t, k + 1);
                let v = skip_spaces(t, k + 1);
                if v < t.len() && (t[v] == '"' || t[v] == '\'') {
                    lemma_value_stop(t, v + 1, t[v]);
                    let e = value_stop(t, v + 1, t[v]);
                    if e < t.len() && t[e] != '<' {
                        let raw = t.subrange(v + 1, e);
                        let an = t.subrange(j, ae);
                        if attr_value_error(raw, env, s) is None && !has_key(attrs, an) {
                            lemma_tag_from(
                                t,
                                name,
                                e + 1,
                                attrs.push((an, attr_value(raw, env, s))),
                                env,
                                s,
                            );
                        }
                    }
                }
            }
        }
    }
}

} // verus!

verus! {

/// White space from `j` runs to `e` when every character before `e` is
/// white space and the one at `e` (if any) is not.
proof fn lemma_spaces_run_to(t: Seq<char>, j: int, e: int)
    requires
        0 <= j <= e <= t.len(),
        forall|m: int| j <= m < e ==> crate::entity::space_char(#[trigger] t[m]),
        e == t.len() || !crate::entity::space_char(t[e]),
    ensures
        skip_spaces(t, j) == e,
    decreases e - j,
{
    if j < e {
        lemma_spaces_run_to(t, j + 1, e);
    }
}

/// Wherever a tag continues with white space (any amount, none included)
/// and then `/>`, it closes there as a self-closing tag, carrying the name
/// and the attributes read so far, and covering the white space and the
/// `/>`.
pub proof fn lemma_space_then_self_close(
    t: Seq<char>,
    name: Seq<char>,
    i: int,
    ws: int,
    attrs: Seq<(Seq<char>, Seq<char>)>,
    env: LexEnv,
    s: StateModel,
)
    requires
        0 <= i,
        0 <= ws,
        i + ws + 2 <= t.len(),
        forall|m: int| i <= m < i + ws ==> crate::entity::space_char(#[trigger] t[m]),
        t[i + ws] == '/',
        t[i + ws + 1] == '>',
    ensures
        tag_from(t, name, i, attrs, env, s) == ScanModel::SelfClose(name, attrs, i + ws + 2),
{
    lemma_spaces_run_to(t, i, i + ws);
}

/// Likewise, white space and then `>` opens the element, unless the
/// depth limit is reached.
pub proof fn lemma_space_then_open(
    t: Seq<char>,
    name: Seq<char>,
    i: int,
    ws: int,
    attrs: Seq<(Seq<char>, Seq<char>)>,
    env: LexEnv,
    s: StateModel,
)
    requires
        0 <= i,
        0 <= ws,
        i + ws + 1 <= t.len(),
        forall|m: int| i <= m < i + ws ==> crate::entity::space_char(#[trigger] t[m]),
        t[i + ws] == '>',
    ensures
        tag_from(t, name, i, attrs, env, s) == (if s.depth < DEPTH_LIMIT {
            ScanModel::Open(name, attrs, i + ws + 1)
        } else {
            ScanModel::Bad(WfError::Cancel, 0, i + ws + 1)
        }),
{
    lemma_spaces_run_to(t, i, i + ws);
}

/// An empty tag `<n/>` or `<n />` (any white space before the `/>`)
/// self-closes with name `n`, no attributes, and covers the whole tag.
pub proof fn lemma_empty_tag_self_closes(n: Seq<char>, ws: Seq<char>, env: LexEnv, s: StateModel)
    requires
        crate::entity::is_name(n),
        forall|m: int| 0 <= m < ws.len() ==> crate::entity::space_char(#[trigger] ws[m]),
    ensures
        tag_scan(seq!['<'] + n + ws + seq!['/', '>'], env, s) == ScanModel::SelfClose(
            n,
            Seq::empty(),
            n.len() + ws.len() + 3int,
        ),
{
    let t = seq!['<'] + n + ws + seq!['/', '>'];
    let e = 1 + n.len() as int;
    assert forall|m: int| 2 <= m < e implies crate::entity::name_char(#[trigger] t[m]) by {
        assert(t[m] == n[m - 1]);
    }
    assert(t[1] == n[0]);
    assert(!crate::entity::name_char(t[e])) by {
        if ws.len() > 0 {
            assert(t[e] == ws[0]);
        } else {
            assert(t[e] == '/');
        }
    }
    lemma_name_run_to(t, 2, e);
    assert(name_end(t, 1) == Some(e));
    assert(t.subrange(1, e) =~= n);
    assert forall|m: int| e <= m < e + ws.len() implies crate::entity::space_char(#[trigger] t[m]) by {
        assert(t[m] == ws[m - e]);
    }
    lemma_space_then_self_close(t, n, e, ws.len() as int, Seq::empty(), env, s);
}

proof fn lemma_name_run_to(t: Seq<char>, i: int, e: int)
    requires
        0 <= i <= e < t.len(),
        forall|m: int| i <= m < e ==> crate::entity::name_char(#[trigger] t[m]),
        !crate::entity::name_char(t[e]),
    ensures
        crate::entity::name_run_end(t, i) == e,
    decreases e - i,
{
    if i < e {
        lemma_name_run_to(t, i + 1, e);
    }
}

} // verus!
