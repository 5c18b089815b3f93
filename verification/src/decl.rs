//! The three patterns read over DOCTYPE and XML-declaration text: a
//! parameter-entity reference in an internal subset, an ExternalID in a
//! DOCTYPE head, and a `standalone="yes"` declaration. Their `\s` is the
//! ECMAScript class and their word boundary the ASCII one.
use vstd::prelude::*;

use crate::entity::{
    ascii_ref_start, class_run_end, closed_at, is_pattern_space, pattern_space,
    run_end, RefClass,
};
use crate::text::{occurs_at, starts_at};

verus! {

/// `%` then an ASCII name then `;` at position `k`.
pub open spec fn pe_ref_at(t: Seq<char>, k: int) -> bool {
    &&& 0 <= k
    &&& k + 1 < t.len()
    &&& t[k] == '%'
    &&& ascii_ref_start(t[k + 1])
    &&& closed_at(t, run_end(t, k + 2, RefClass::Name)) is Some
}

/// Whether the text holds a parameter-entity reference (4.1 treats the
/// declarations behind one like an unread external subset).
pub open spec fn has_pe_ref(t: Seq<char>) -> bool {
    exists|k: int| #[trigger] pe_ref_at(t, k)
}

/// Whether a parameter-entity reference starts at `k`.
fn pe_ref_here(chars: &[char], k: usize) -> (r: bool)
    ensures
        r == pe_ref_at(chars@, k as int),
{
    if k >= chars.len() || chars.len() - k < 2 {
        return false;
    }
    if chars[k] != '%' {
        return false;
    }
    let c = chars[k + 1];
    if !(('A' <= c && c <= 'Z') || ('a' <= c && c <= 'z') || c == '_' || c == ':') {
        return false;
    }
    let e = class_run_end(chars, k + 2, RefClass::Name);
    e < chars.len() && chars[e] == ';'
}

/// Whether the text holds a parameter-entity reference.
pub fn pe_ref_in(chars: &[char]) -> (r: bool)
    ensures
        r == has_pe_ref(chars@),
{
    let mut k: usize = 0;
    while k < chars.len()
        invariant
            k <= chars@.len(),
            forall|m: int| 0 <= m < k ==> !#[trigger] pe_ref_at(chars@, m),
        decreases chars.len() - k,
    {
        if pe_ref_here(chars, k) {
            return true;
        }
        k = k + 1;
    }
    proof {
        assert forall|m: int| !#[trigger] pe_ref_at(chars@, m) by {
            if 0 <= m && m < k {
            }
        }
    }
    false
}

pub open spec fn system_kw() -> Seq<char> {
    seq!['S', 'Y', 'S', 'T', 'E', 'M']
}

pub open spec fn public_kw() -> Seq<char> {
    seq!['P', 'U', 'B', 'L', 'I', 'C']
}

/// `SYSTEM` or `PUBLIC` at `k`, after the start, white space or `>`, and
/// before white space or a quote (2.8 [75]).
pub open spec fn external_id_at(t: Seq<char>, k: int) -> bool {
    &&& 0 <= k
    &&& k == 0 || pattern_space(t[k - 1]) || t[k - 1] == '>'
    &&& occurs_at(t, k, system_kw()) || occurs_at(t, k, public_kw())
    &&& k + 6 < t.len()
    &&& pattern_space(t[k + 6]) || t[k + 6] == '"' || t[k + 6] == '\''
}

/// Whether a DOCTYPE head names an external subset.
pub open spec fn has_external_id(t: Seq<char>) -> bool {
    exists|k: int| #[trigger] external_id_at(t, k)
}

/// Whether the text holds an ExternalID.
pub fn external_id_in(chars: &[char]) -> (r: bool)
    ensures
        r == has_external_id(chars@),
{
    let system = vec!['S', 'Y', 'S', 'T', 'E', 'M'];
    let public = vec!['P', 'U', 'B', 'L', 'I', 'C'];
    proof {
        assert(system@ =~= system_kw());
        assert(public@ =~= public_kw());
    }
    let mut k: usize = 0;
    while k < chars.len()
        invariant
            k <= chars@.len(),
            system@ == system_kw(),
            public@ == public_kw(),
            forall|m: int| 0 <= m < k ==> !#[trigger] external_id_at(chars@, m),
        decreases chars.len() - k,
    {
        let before = k == 0 || is_pattern_space(chars[k - 1]) || chars[k - 1] == '>';
        if before && (starts_at(chars, k, &system) || starts_at(chars, k, &public)) && chars.len()
            - k > 6 {
            let c = chars[k + 6];
            if is_pattern_space(c) || c == '"' || c == '\'' {
                assert(external_id_at(chars@, k as int));
                return true;
            }
        }
        k = k + 1;
    }
    proof {
        assert forall|m: int| !#[trigger] external_id_at(chars@, m) by {
            if 0 <= m && m < k {
            }
        }
    }
    false
}

/// An ASCII word character, for the word boundary of the patterns.
pub open spec fn ascii_word(c: char) -> bool {
    ('A' <= c <= 'Z') || ('a' <= c <= 'z') || ('0' <= c <= '9') || c == '_'
}

/// Where the run of pattern white space from `j` ends.
pub open spec fn pattern_spaces_end(t: Seq<char>, j: int) -> int
    decreases t.len() - j,
{
    if 0 <= j < t.len() && pattern_space(t[j]) {
        pattern_spaces_end(t, j + 1)
    } else {
        j
    }
}

pub proof fn lemma_pattern_spaces_end(t: Seq<char>, j: int)
    requires
        0 <= j,
    ensures
        j <= pattern_spaces_end(t, j),
        j <= t.len() ==> pattern_spaces_end(t, j) <= t.len(),
    decreases t.len() - j,
{
    if j < t.len() && pattern_space(t[j]) {
        lemma_pattern_spaces_end(t, j + 1);
    }
}

pub open spec fn standalone_kw() -> Seq<char> {
    seq!['s', 't', 'a', 'n', 'd', 'a', 'l', 'o', 'n', 'e']
}

pub open spec fn yes_double() -> Seq<char> {
    seq!['"', 'y', 'e', 's', '"']
}

pub open spec fn yes_single() -> Seq<char> {
    seq!['\'', 'y', 'e', 's', '\'']
}

/// `standalone`, at a word boundary, then `=` and `"yes"` or `'yes'`,
/// white space allowed around the `=` (2.9 [32]).
pub open spec fn standalone_yes_at(t: Seq<char>, k: int) -> bool {
    &&& occurs_at(t, k, standalone_kw())
    &&& k == 0 || !ascii_word(t[k - 1])
    &&& {
        let e = pattern_spaces_end(t, k + 10);
        &&& e < t.len()
        &&& t[e] == '='
        &&& {
            let v = pattern_spaces_end(t, e + 1);
            occurs_at(t, v, yes_double()) || occurs_at(t, v, yes_single())
        }
    }
}

/// Whether the text of an XML declaration says `standalone="yes"`.
pub open spec fn has_standalone_yes(t: Seq<char>) -> bool {
    exists|k: int| #[trigger] standalone_yes_at(t, k)
}

/// Skip pattern white space from `j`.
fn skip_pattern_space(chars: &[char], j: usize) -> (r: usize)
    ensures
        r == pattern_spaces_end(chars@, j as int),
{
    let mut at = j;
    while at < chars.len() && is_pattern_space(chars[at])
        invariant
            j <= at,
            pattern_spaces_end(chars@, at as int) == pattern_spaces_end(chars@, j as int),
        decreases chars.len() - at,
    {
        at = at + 1;
    }
    at
}

/// Whether the text says `standalone="yes"`.
pub fn standalone_yes_in(chars: &[char]) -> (r: bool)
    ensures
        r == has_standalone_yes(chars@),
{
    let word = vec!['s', 't', 'a', 'n', 'd', 'a', 'l', 'o', 'n', 'e'];
    let dq = vec!['"', 'y', 'e', 's', '"'];
    let sq = vec!['\'', 'y', 'e', 's', '\''];
    proof {
        assert(word@ =~= standalone_kw());
        assert(dq@ =~= yes_double());
        assert(sq@ =~= yes_single());
    }
    let mut k: usize = 0;
    while k < chars.len()
        invariant
            k <= chars@.len(),
            word@ == standalone_kw(),
            dq@ == yes_double(),
            sq@ == yes_single(),
            forall|m: int| 0 <= m < k ==> !#[trigger] standalone_yes_at(chars@, m),
        decreases chars.len() - k,
    {
        if starts_at(chars, k, &word) {
            let boundary = k == 0 || {
                let c = chars[k - 1];
                !(('A' <= c && c <= 'Z') || ('a' <= c && c <= 'z') || ('0' <= c && c <= '9') || c
                    == '_')
            };
            if boundary {
                let e = skip_pattern_space(chars, k + 10);
                if e < chars.len() && chars[e] == '=' {
                    let v = skip_pattern_space(chars, e + 1);
                    if starts_at(chars, v, &dq) || starts_at(chars, v, &sq) {
                        assert(standalone_yes_at(chars@, k as int));
                        return true;
                    }
                }
            }
        }
        k = k + 1;
    }
    proof {
        assert forall|m: int| !#[trigger] standalone_yes_at(chars@, m) by {
            if 0 <= m && m < k {
            }
        }
    }
    false
}

} // verus!
