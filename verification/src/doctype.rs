//! `<!DOCTYPE ... [ ... ] >`: finding its end, then mining the internal
//! subset for entity and ATTLIST declarations, which the text, attribute
//! and element paths read back for the rest of the parse.
use indexmap::IndexMap;
use vstd::prelude::*;

use crate::decl::{external_id_in, has_external_id, has_pe_ref, pe_ref_in};
use crate::entity::{
    doctype_attlists, doctype_attlists_in, doctype_entities, doctype_entities_in, find_char,
    lemma_next_char_pos, next_char_pos, DeclMaps, TableEntries,
};
use crate::error::WfError;
use crate::lex::{
    comment_close, comment_open, pi_close, ParseState, Scan, ScanModel, StateModel,
};
use crate::ordered::{
    inserted, keys_unique, lemma_found_is_lookup, lemma_inserted_unique, lookup, str_entries,
    str_map_clone, str_map_get_index, str_map_insert, str_map_len, str_map_new, table_entries,
    table_get, table_get_index, table_insert, table_len,
};
use crate::text::{find_from, first_at, lemma_first_at, occurs_at, starts_at, sub_chars};

verus! {

pub open spec fn pi_open() -> Seq<char> {
    seq!['<', '?']
}

/// Walk a DOCTYPE from position `i` to its closing `>`: comments and
/// processing instructions are opaque, quoted strings are skipped whole,
/// and brackets nest; the first `[` opens the internal subset and the
/// `]` that brings the nesting back to zero closes it. The result is
/// where the walk stopped (the end when no `>` closes the DOCTYPE), the
/// position after the subset's `[`, and the position of its `]`.
pub open spec fn doctype_walk(
    t: Seq<char>,
    i: int,
    nesting: int,
    start: Option<int>,
    stop: Option<int>,
) -> (int, Option<int>, Option<int>)
    decreases t.len() - i,
{
    if i < 0 || i >= t.len() {
        (i, start, stop)
    } else if occurs_at(t, i, comment_open()) {
        match first_at(t, i + 4, comment_close()) {
            Some(c) => {
                proof {
                    lemma_first_at(t, i + 4, comment_close());
                }
                doctype_walk(t, c + 3, nesting, start, stop)
            },
            None => (t.len() as int, start, stop),
        }
    } else if occurs_at(t, i, pi_open()) {
        match first_at(t, i + 2, pi_close()) {
            Some(c) => {
                proof {
                    lemma_first_at(t, i + 2, pi_close());
                }
                doctype_walk(t, c + 2, nesting, start, stop)
            },
            None => (t.len() as int, start, stop),
        }
    } else if t[i] == '"' || t[i] == '\'' {
        match next_char_pos(t, i + 1, t[i]) {
            Some(q) => {
                proof {
                    lemma_next_char_pos(t, i + 1, t[i]);
                }
                doctype_walk(t, q + 1, nesting, start, stop)
            },
            None => (t.len() as int, start, stop),
        }
    } else if t[i] == '[' {
        doctype_walk(
            t,
            i + 1,
            nesting + 1,
            if nesting == 0 {
                Some(i + 1)
            } else {
                start
            },
            stop,
        )
    } else if t[i] == ']' {
        doctype_walk(
            t,
            i + 1,
            nesting - 1,
            start,
            if nesting - 1 == 0 {
                Some(i)
            } else {
                stop
            },
        )
    } else if t[i] == '>' && nesting <= 0 {
        (i, start, stop)
    } else {
        doctype_walk(t, i + 1, nesting, start, stop)
    }
}

pub proof fn lemma_doctype_walk(
    t: Seq<char>,
    i: int,
    nesting: int,
    start: Option<int>,
    stop: Option<int>,
)
    requires
        9 <= i <= t.len(),
        start matches Some(a) ==> 10 <= a <= t.len(),
        stop matches Some(b) ==> 0 <= b <= t.len(),
    ensures
        i <= doctype_walk(t, i, nesting, start, stop).0 <= t.len(),
        doctype_walk(t, i, nesting, start, stop).1 matches Some(a) ==> 10 <= a <= t.len(),
        doctype_walk(t, i, nesting, start, stop).2 matches Some(b) ==> 0 <= b <= t.len(),
    decreases t.len() - i,
{
    if i < t.len() {
        if occurs_at(t, i, comment_open()) {
            lemma_first_at(t, i + 4, comment_close());
            if let Some(c) = first_at(t, i + 4, comment_close()) {
                lemma_doctype_walk(t, c + 3, nesting, start, stop);
            }
        } else if occurs_at(t, i, pi_open()) {
            lemma_first_at(t, i + 2, pi_close());
            if let Some(c) = first_at(t, i + 2, pi_close()) {
                lemma_doctype_walk(t, c + 2, nesting, start, stop);
            }
        } else if t[i] == '"' || t[i] == '\'' {
            lemma_next_char_pos(t, i + 1, t[i]);
            if let Some(q) = next_char_pos(t, i + 1, t[i]) {
                lemma_doctype_walk(t, q + 1, nesting, start, stop);
            }
        } else if t[i] == '[' {
            lemma_doctype_walk(
                t,
                i + 1,
                nesting + 1,
                if nesting == 0 {
                    Some(i + 1)
                } else {
                    start
                },
                stop,
            );
        } else if t[i] == ']' {
            lemma_doctype_walk(
                t,
                i + 1,
                nesting - 1,
                start,
                if nesting - 1 == 0 {
                    Some(i)
                } else {
                    stop
                },
            );
        } else if t[i] == '>' && nesting <= 0 {
        } else {
            lemma_doctype_walk(t, i + 1, nesting, start, stop);
        }
    }
}

/// The rows of defaults `old` with `new` merged in, in order: a value
/// already there is replaced in place, a new attribute goes last.
pub open spec fn merge_entries(
    old: Seq<(Seq<char>, Seq<char>)>,
    new: Seq<(Seq<char>, Seq<char>)>,
) -> Seq<(Seq<char>, Seq<char>)>
    decreases new.len(),
{
    if new.len() == 0 {
        old
    } else {
        inserted(merge_entries(old, new.drop_last()), new.last().0, new.last().1)
    }
}

/// The table of defaults `table` with the rows of `new` merged in, in
/// order: each element's row is merged with the row it already has (an
/// element met for the first time gets a row, last).
pub open spec fn merge_defaults(table: TableEntries, new: TableEntries) -> TableEntries
    decreases new.len(),
{
    if new.len() == 0 {
        table
    } else {
        let acc = merge_defaults(table, new.drop_last());
        let e = new.last().0;
        let existing = match lookup(acc, e) {
            Some(row) => row,
            None => Seq::empty(),
        };
        inserted(acc, e, merge_entries(existing, new.last().1))
    }
}

/// A DOCTYPE at the front of the source: unterminated, or ignored after
/// its declarations are recorded. An ExternalID in its head, or a
/// parameter-entity reference in its internal subset, marks part of the
/// DTD unread; the subset's entity declarations join the maps (a later
/// text winning), and its attribute defaults are merged into the table.
pub open spec fn doctype_step(t: Seq<char>, s: StateModel) -> (ScanModel, StateModel) {
    let (i, start, stop) = doctype_walk(t, 9, 0, None, None);
    if i >= t.len() {
        (ScanModel::Bad(WfError::UnterminatedDoctype, 0, t.len() as int), s)
    } else {
        let head_end = match start {
            Some(a) => a - 1,
            None => i,
        };
        let unread = s.dtd_unread || has_external_id(t.subrange(9, head_end));
        match (start, stop) {
            (Some(a), Some(b)) => if b > a {
                let subset = t.subrange(a, b);
                let ents: DeclMaps = doctype_entities(subset);
                (
                    ScanModel::Ignored(i + 1),
                    StateModel {
                        dtd_unread: unread || has_pe_ref(subset),
                        dtd: s.dtd.union_prefer_right(ents.0),
                        external: s.external.union_prefer_right(ents.1),
                        unparsed: s.unparsed.union_prefer_right(ents.2),
                        defaults: merge_defaults(s.defaults, doctype_attlists(subset)),
                        ..s
                    },
                )
            } else {
                (ScanModel::Ignored(i + 1), StateModel { dtd_unread: unread, ..s })
            },
            _ => (ScanModel::Ignored(i + 1), StateModel { dtd_unread: unread, ..s }),
        }
    }
}

/// Merge the rows of `new` into the table of defaults.
pub fn merge_attr_defaults(
    table: &mut IndexMap<String, IndexMap<String, String>>,
    new: &IndexMap<String, IndexMap<String, String>>,
)
    requires
        keys_unique(table_entries(*old(table))),
    ensures
        table_entries(*final(table)) == merge_defaults(
            table_entries(*old(table)),
            table_entries(*new),
        ),
        keys_unique(table_entries(*final(table))),
{
    let ghost t0 = table_entries(*table);
    let ghost ne = table_entries(*new);
    let n = table_len(new);
    let mut k: usize = 0;
    proof {
        assert(ne.take(0) =~= Seq::<(Seq<char>, Seq<(Seq<char>, Seq<char>)>)>::empty());
    }
    while k < n
        invariant
            n == ne.len(),
            ne == table_entries(*new),
            k <= n,
            keys_unique(table_entries(*table)),
            table_entries(*table) == merge_defaults(t0, ne.take(k as int)),
        decreases n - k,
    {
        let (elem, defaults) = table_get_index(new, k);
        let ghost acc = table_entries(*table);
        let mut row = match table_get(table, elem.as_str()) {
            Some(existing) => {
                proof {
                    lemma_found_is_lookup(acc, elem@, str_entries(*existing));
                }
                str_map_clone(existing)
            },
            None => str_map_new(),
        };
        let ghost existing = str_entries(row);
        assert(existing == match lookup(acc, elem@) {
            Some(r) => r,
            None => Seq::<(Seq<char>, Seq<char>)>::empty(),
        });
        let ghost d = str_entries(*defaults);
        let m = str_map_len(defaults);
        let mut j: usize = 0;
        proof {
            assert(d.take(0) =~= Seq::<(Seq<char>, Seq<char>)>::empty());
        }
        while j < m
            invariant
                m == d.len(),
                d == str_entries(*defaults),
                j <= m,
                str_entries(row) == merge_entries(existing, d.take(j as int)),
            decreases m - j,
        {
            let (attr, value) = str_map_get_index(defaults, j);
            str_map_insert(&mut row, attr.clone(), value.clone());
            proof {
                assert(d.take(j + 1).drop_last() =~= d.take(j as int));
                assert(d.take(j + 1).last() == d[j as int]);
            }
            j = j + 1;
        }
        proof {
            assert(d.take(m as int) =~= d);
            lemma_inserted_unique(acc, elem@, str_entries(row));
        }
        table_insert(table, elem.clone(), row);
        proof {
            assert(ne.take(k + 1).drop_last() =~= ne.take(k as int));
            assert(ne.take(k + 1).last() == ne[k as int]);
        }
        k = k + 1;
    }
    proof {
        assert(ne.take(n as int) =~= ne);
    }
}

/// Scan a DOCTYPE; the source starts with `<!DOCTYPE`.
pub fn scan_doctype(parse: &mut ParseState, rest: &[char]) -> (r: Scan)
    requires
        old(parse).wf(),
        occurs_at(rest@, 0, crate::lex::doctype_open()),
    ensures
        (r.model(), final(parse).model()) == doctype_step(rest@, old(parse).model()),
        final(parse).wf(),
{
    let ghost t = rest@;
    let n = rest.len();
    assert(rest@.len() == n);
    let comment = vec!['<', '!', '-', '-'];
    let comment_end = vec!['-', '-', '>'];
    let pi = vec!['<', '?'];
    let pi_end = vec!['?', '>'];
    proof {
        assert(comment@ =~= comment_open());
        assert(comment_end@ =~= comment_close());
        assert(pi@ =~= pi_open());
        assert(pi_end@ =~= pi_close());
    }
    let ghost walked = doctype_walk(t, 9, 0, None, None);
    let mut i: usize = 9;
    let mut nesting: i128 = 0;
    let mut subset_start: Option<usize> = None;
    let mut subset_end: Option<usize> = None;
    let mut done = false;
    while i < n && !done
        invariant
            t == rest@,
            n == t.len(),
            9 <= i <= n,
            -(i as int) <= nesting <= i as int,
            comment@ == comment_open(),
            comment_end@ == comment_close(),
            pi@ == pi_open(),
            pi_end@ == pi_close(),
            subset_start matches Some(a) ==> 10 <= a <= i,
            subset_end matches Some(b) ==> 0 <= b < i,
            done ==> i < n && walked == (
                i as int,
                crate::text::opt_pos(subset_start),
                crate::text::opt_pos(subset_end),
            ),
            !done ==> doctype_walk(
                t,
                i as int,
                nesting as int,
                crate::text::opt_pos(subset_start),
                crate::text::opt_pos(subset_end),
            ) == walked,
        decreases n - i + (if done {
            0int
        } else {
            1int
        }),
    {
        if starts_at(rest, i, &comment) {
            proof {
                lemma_first_at(t, i + 4, comment_close());
            }
            match find_from(rest, i + 4, &comment_end) {
                Some(c) => {
                    i = c + 3;
                },
                None => {
                    i = n;
                },
            }
        } else if starts_at(rest, i, &pi) {
            proof {
                lemma_first_at(t, i + 2, pi_close());
            }
            match find_from(rest, i + 2, &pi_end) {
                Some(c) => {
                    i = c + 2;
                },
                None => {
                    i = n;
                },
            }
        } else {
            let ch = rest[i];
            if ch == '"' || ch == '\'' {
                proof {
                    lemma_next_char_pos(t, i + 1, ch);
                }
                match find_char(rest, i + 1, ch) {
                    Some(q) => {
                        i = q + 1;
                    },
                    None => {
                        i = n;
                    },
                }
            } else if ch == '[' {
                if nesting == 0 {
                    subset_start = Some(i + 1);
                }
                nesting = nesting + 1;
                i = i + 1;
            } else if ch == ']' {
                nesting = nesting - 1;
                if nesting == 0 {
                    subset_end = Some(i);
                }
                i = i + 1;
            } else if ch == '>' && nesting <= 0 {
                done = true;
            } else {
                i = i + 1;
            }
        }
    }
    proof {
        lemma_doctype_walk(t, 9, 0, None, None);
    }
    if !done {
        return Scan::Bad { code: WfError::UnterminatedDoctype, from: 0, to: n };
    }
    let end = i + 1;
    let head_end = match subset_start {
        Some(a) => a - 1,
        None => i,
    };
    let head = sub_chars(rest, 9, head_end);
    if external_id_in(&head) {
        parse.dtd_unread = true;
        parse.entdecl.unread = !parse.standalone;
    }
    match (subset_start, subset_end) {
        (Some(a), Some(b)) => {
            if b > a {
                let subset = sub_chars(rest, a, b);
                if pe_ref_in(&subset) {
                    parse.dtd_unread = true;
                    parse.entdecl.unread = !parse.standalone;
                }
                let entities = doctype_entities_in(&subset);
                parse.dtd_entities.absorb(entities.internal);
                parse.entdecl.external.absorb(entities.external);
                parse.entdecl.unparsed.absorb(entities.unparsed);
                let attlists = doctype_attlists_in(&subset);
                merge_attr_defaults(&mut parse.dtd_attr_defaults, &attlists);
            }
        },
        _ => {},
    }
    Scan::Ignored { end }
}

} // verus!
