//! Character classes, names, character checks and the two normalisers of
//! XML 1.0, and (below) entity references and the DOCTYPE internal
//! subset.
//!
//! `after_char` and `read_name` take UTF-8 byte offsets into a `&str`;
//! the scanners further on take character positions into the text's
//! characters. The markup characters they stop on are ASCII, so the two
//! reach the same boundaries.
use std::borrow::Cow;

use indexmap::IndexMap;

use vstd::prelude::*;
use vstd::hash_set::StringHashSet;
use vstd::string::{StringExecFns, StringSliceAdditionalSpecFns};
use vstd::utf8::*;

use crate::error::WfError;
use crate::textmap::TextMap;
use crate::ordered::{inserted, keys_unique, lemma_found_is_lookup, lemma_inserted_unique, lookup, str_entries, str_map_clone, str_map_get_index, str_map_insert, str_map_len, str_map_new, table_entries, table_get, table_insert, table_new};
use crate::stdx::push_char;
use crate::text::{find_from, first_at, lemma_first_at, occurs_at, starts_at, opt_pos, string_of, char_at, char_at_byte, chars_of, lemma_char_step, lemma_sub_boundary, slice_between, text_between, width_at};

verus! {

broadcast use vstd::seq::group_seq_axioms;

/// XML 1.0 Fifth Edition NameStartChar (2.3 [4]).
pub open spec fn name_start_char(c: char) -> bool {
    let cp = c as u32;
    ||| cp == 0x3a
    ||| cp == 0x5f
    ||| 0x41 <= cp <= 0x5a
    ||| 0x61 <= cp <= 0x7a
    ||| 0xc0 <= cp <= 0xd6
    ||| 0xd8 <= cp <= 0xf6
    ||| 0xf8 <= cp <= 0x2ff
    ||| 0x370 <= cp <= 0x37d
    ||| 0x37f <= cp <= 0x1fff
    ||| 0x200c <= cp <= 0x200d
    ||| 0x2070 <= cp <= 0x218f
    ||| 0x2c00 <= cp <= 0x2fef
    ||| 0x3001 <= cp <= 0xd7ff
    ||| 0xf900 <= cp <= 0xfdcf
    ||| 0xfdf0 <= cp <= 0xfffd
    ||| 0x10000 <= cp <= 0xeffff
}

/// XML 1.0 NameChar (2.3 [4a]).
pub open spec fn name_char(c: char) -> bool {
    let cp = c as u32;
    ||| name_start_char(c)
    ||| cp == 0x2d
    ||| cp == 0x2e
    ||| 0x30 <= cp <= 0x39
    ||| cp == 0xb7
    ||| 0x300 <= cp <= 0x36f
    ||| 0x203f <= cp <= 0x2040
}

/// XML 1.0 Name (2.3 [5]).
pub open spec fn is_name(t: Seq<char>) -> bool {
    &&& t.len() > 0
    &&& name_start_char(t[0])
    &&& forall|k: int| 1 <= k < t.len() ==> name_char(#[trigger] t[k])
}

/// XML white space (2.3 [3]) as a character.
pub open spec fn space_char(c: char) -> bool {
    c == ' ' || c == '\t' || c == '\n' || c == '\r'
}

/// XML 1.0 NameStartChar (2.3 [4]).
pub fn is_name_start(cp: char) -> (r: bool)
    ensures
        r == name_start_char(cp),
{
    let cp = cp as u32;
    cp == 0x3a || cp == 0x5f || (0x41 <= cp && cp <= 0x5a) || (0x61 <= cp && cp <= 0x7a) || (0xc0
        <= cp && cp <= 0xd6) || (0xd8 <= cp && cp <= 0xf6) || (0xf8 <= cp && cp <= 0x2ff) || (0x370
        <= cp && cp <= 0x37d) || (0x37f <= cp && cp <= 0x1fff) || (0x200c <= cp && cp <= 0x200d)
        || (0x2070 <= cp && cp <= 0x218f) || (0x2c00 <= cp && cp <= 0x2fef) || (0x3001 <= cp && cp
        <= 0xd7ff) || (0xf900 <= cp && cp <= 0xfdcf) || (0xfdf0 <= cp && cp <= 0xfffd) || (0x10000
        <= cp && cp <= 0xeffff)
}

/// XML 1.0 NameChar (2.3 [4a]): NameStartChar plus digits, hyphen, full
/// stop, the middle dot and the combining-mark blocks.
pub fn is_name_char(cp: char) -> (r: bool)
    ensures
        r == name_char(cp),
{
    if is_name_start(cp) {
        return true;
    }
    let cp = cp as u32;
    cp == 0x2d || cp == 0x2e || (0x30 <= cp && cp <= 0x39) || cp == 0xb7 || (0x300 <= cp && cp
        <= 0x36f) || (0x203f <= cp && cp <= 0x2040)
}

/// XML white space (2.3 [3]).
pub fn is_space(byte: u8) -> (r: bool)
    ensures
        r == (byte == 0x20 || byte == 0x09 || byte == 0x0a || byte == 0x0d),
{
    byte == 0x20 || byte == 0x09 || byte == 0x0a || byte == 0x0d
}

/// XML white space (2.3 [3]), for a character.
pub fn is_space_char(c: char) -> (r: bool)
    ensures
        r == space_char(c),
{
    c == ' ' || c == '\t' || c == '\n' || c == '\r'
}

/// The byte offset just past the character at byte offset `at`, or
/// `s.len()` when `at` is at or beyond the end.
pub fn after_char(s: &str, at: usize) -> (r: usize)
    requires
        at >= s.spec_bytes().len() || is_char_boundary(s.spec_bytes(), at as int),
    ensures
        at >= s.spec_bytes().len() ==> r == s.spec_bytes().len(),
        at < s.spec_bytes().len() ==> r == at + width_at(s.spec_bytes(), at as int),
        is_char_boundary(s.spec_bytes(), r as int),
{
    let bytes = s.as_bytes();
    proof {
        crate::bom::lemma_view_from_bytes(s);
        broadcast use vstd::utf8::group_utf8_lib;

    }
    if at >= bytes.len() {
        return bytes.len();
    }
    proof {
        lemma_char_step(bytes@, at as int);
    }
    let (_, next) = char_at_byte(bytes, at);
    next
}

/// Read an XML Name starting at byte offset `start`: the name and the
/// offset after it, or `None` when the character there is not a
/// NameStartChar (or there is no character at all).
pub fn read_name(s: &str, start: usize) -> (r: Option<(&str, usize)>)
    requires
        start <= s.spec_bytes().len(),
        is_char_boundary(s.spec_bytes(), start as int),
    ensures
        match r {
            None => start == s.spec_bytes().len() || !name_start_char(
                char_at(s.spec_bytes(), start as int),
            ),
            Some((name, end)) => {
                &&& start < end <= s.spec_bytes().len()
                &&& is_char_boundary(s.spec_bytes(), end as int)
                &&& name.spec_bytes() == s.spec_bytes().subrange(start as int, end as int)
                &&& is_name(name@)
                &&& (end == s.spec_bytes().len() || !name_char(
                    char_at(s.spec_bytes(), end as int),
                ))
            },
        },
{
    let bytes = s.as_bytes();
    let ghost b = bytes@;
    proof {
        crate::bom::lemma_view_from_bytes(s);
        broadcast use vstd::utf8::group_utf8_lib;

    }
    let n = bytes.len();
    if start >= n {
        return None;
    }
    proof {
        lemma_char_step(b, start as int);
    }
    let (first, mut end) = char_at_byte(bytes, start);
    if !is_name_start(first) {
        return None;
    }
    proof {
        assert(text_between(b, start as int, end as int) == seq![first]);
    }
    while end < n
        invariant
            b == s.spec_bytes(),
            b == bytes@,
            n == b.len(),
            valid_utf8(b),
            start < end <= n,
            is_char_boundary(b, start as int),
            is_char_boundary(b, end as int),
            is_name(text_between(b, start as int, end as int)),
        ensures
            end == n || !name_char(char_at(b, end as int)),
        decreases n - end,
    {
        proof {
            lemma_char_step(b, end as int);
        }
        let (ch, next) = char_at_byte(bytes, end);
        if !is_name_char(ch) {
            break;
        }
        proof {
            lemma_sub_boundary(b, start as int, end as int, next as int);
            let before = text_between(b, start as int, end as int);
            let after = text_between(b, start as int, next as int);
            assert(after == before + seq![ch]);
            assert forall|k: int| 1 <= k < after.len() implies name_char(#[trigger] after[k]) by {
                if k < before.len() {
                    assert(after[k] == before[k]);
                }
            }
        }
        end = next;
    }
    let name = slice_between(s, start, end);
    Some((name, end))
}

/// Where the run of name characters from `i` ends.
pub open spec fn name_run_end(t: Seq<char>, i: int) -> int
    decreases t.len() - i,
{
    if i < 0 || i >= t.len() || !name_char(t[i]) {
        i
    } else {
        name_run_end(t, i + 1)
    }
}

/// Where the Name starting at position `start` ends, if one starts there.
pub open spec fn name_end(t: Seq<char>, start: int) -> Option<int> {
    if 0 <= start < t.len() && name_start_char(t[start]) {
        Some(name_run_end(t, start + 1))
    } else {
        None
    }
}

pub proof fn lemma_name_run_end(t: Seq<char>, i: int)
    requires
        0 <= i <= t.len(),
    ensures
        i <= name_run_end(t, i) <= t.len(),
        forall|k: int| i <= k < name_run_end(t, i) ==> name_char(#[trigger] t[k]),
        name_run_end(t, i) == t.len() || !name_char(t[name_run_end(t, i)]),
    decreases t.len() - i,
{
    if i < t.len() && name_char(t[i]) {
        lemma_name_run_end(t, i + 1);
    }
}

/// A Name read over characters: the position after the Name starting at
/// `start`, or `None` when no name character can start one there.
pub fn read_name_at(chars: &[char], start: usize) -> (r: Option<usize>)
    ensures
        opt_pos(r) == name_end(chars@, start as int),
        r matches Some(end) ==> start < end <= chars@.len() && is_name(
            chars@.subrange(start as int, end as int),
        ),
{
    if start >= chars.len() || !is_name_start(chars[start]) {
        return None;
    }
    let mut end = start + 1;
    while end < chars.len() && is_name_char(chars[end])
        invariant
            start < end <= chars@.len(),
            name_run_end(chars@, start + 1) == name_run_end(chars@, end as int),
            forall|k: int| start + 1 <= k < end ==> name_char(#[trigger] chars@[k]),
        decreases chars.len() - end,
    {
        end = end + 1;
    }
    proof {
        let t = chars@.subrange(start as int, end as int);
        assert forall|k: int| 1 <= k < t.len() implies name_char(#[trigger] t[k]) by {
            assert(t[k] == chars@[start + k]);
        }
    }
    Some(end)
}

/// A C0 control other than tab, newline and carriage return.
pub open spec fn illegal_control(c: char) -> bool {
    (c as u32) < 0x20 && c != '\t' && c != '\n' && c != '\r'
}

/// Whether the text holds an illegal C0 control.
pub open spec fn has_illegal_control(t: Seq<char>) -> bool {
    exists|k: int| 0 <= k < t.len() && illegal_control(#[trigger] t[k])
}

/// `Some(InvalidXmlChar)` when `s` holds a C0 control other than tab,
/// newline or carriage return. Only the C0 band is checked.
pub fn check_chars(s: &str) -> (r: Option<WfError>)
    ensures
        r == (if has_illegal_control(s@) {
            Some(WfError::InvalidXmlChar)
        } else {
            None::<WfError>
        }),
{
    let chars = chars_of(s);
    proof {
        assert(chars@.subrange(0, chars@.len() as int) =~= s@);
    }
    check_chars_in(&chars, 0, chars.len())
}

/// `check_chars` over `chars[from..to]`.
pub fn check_chars_in(chars: &[char], from: usize, to: usize) -> (r: Option<WfError>)
    requires
        from <= to <= chars@.len(),
    ensures
        r == (if has_illegal_control(chars@.subrange(from as int, to as int)) {
            Some(WfError::InvalidXmlChar)
        } else {
            None::<WfError>
        }),
{
    let ghost t = chars@.subrange(from as int, to as int);
    let mut i = from;
    while i < to
        invariant
            from <= i <= to <= chars@.len(),
            t == chars@.subrange(from as int, to as int),
            forall|k: int| from <= k < i ==> !illegal_control(#[trigger] chars@[k]),
        decreases to - i,
    {
        let c = chars[i];
        if (c as u32) < 0x20 && c != '\t' && c != '\n' && c != '\r' {
            proof {
                assert(t[i - from] == c);
            }
            return Some(WfError::InvalidXmlChar);
        }
        i = i + 1;
    }
    proof {
        assert forall|k: int| 0 <= k < t.len() implies !illegal_control(#[trigger] t[k]) by {
            assert(t[k] == chars@[from + k]);
        }
    }
    None
}

/// 2.11 end-of-line handling: CR LF and a lone CR become LF.
pub open spec fn lf_normalised(t: Seq<char>) -> Seq<char>
    decreases t.len(),
{
    if t.len() == 0 {
        seq![]
    } else if t[0] == '\r' {
        if t.len() > 1 && t[1] == '\n' {
            seq!['\n'] + lf_normalised(t.subrange(2, t.len() as int))
        } else {
            seq!['\n'] + lf_normalised(t.subrange(1, t.len() as int))
        }
    } else {
        seq![t[0]] + lf_normalised(t.subrange(1, t.len() as int))
    }
}

/// 3.3.3 attribute-value normalisation for CDATA-typed attributes: TAB,
/// LF, CR and CR LF each become one SPACE; runs are kept and nothing is
/// trimmed.
pub open spec fn attr_space_normalised(t: Seq<char>) -> Seq<char>
    decreases t.len(),
{
    if t.len() == 0 {
        seq![]
    } else if t[0] == '\r' {
        if t.len() > 1 && t[1] == '\n' {
            seq![' '] + attr_space_normalised(t.subrange(2, t.len() as int))
        } else {
            seq![' '] + attr_space_normalised(t.subrange(1, t.len() as int))
        }
    } else if t[0] == '\t' || t[0] == '\n' {
        seq![' '] + attr_space_normalised(t.subrange(1, t.len() as int))
    } else {
        seq![t[0]] + attr_space_normalised(t.subrange(1, t.len() as int))
    }
}

/// Text without a carriage return is left as it is by end-of-line
/// handling.
pub proof fn lemma_lf_normalised_identity(t: Seq<char>)
    requires
        !t.contains('\r'),
    ensures
        lf_normalised(t) == t,
    decreases t.len(),
{
    if t.len() > 0 {
        let rest = t.subrange(1, t.len() as int);
        assert(!rest.contains('\r')) by {
            if rest.contains('\r') {
                let k = choose|k: int| 0 <= k < rest.len() && rest[k] == '\r';
                assert(t[k + 1] == '\r');
            }
        }
        assert(t[0] != '\r') by {
            assert(t.contains(t[0]));
        }
        lemma_lf_normalised_identity(rest);
        assert(t =~= seq![t[0]] + rest);
    }
}

/// Text without TAB, LF or CR is left as it is by attribute-value
/// normalisation.
pub proof fn lemma_attr_space_normalised_identity(t: Seq<char>)
    requires
        !t.contains('\r'),
        !t.contains('\n'),
        !t.contains('\t'),
    ensures
        attr_space_normalised(t) == t,
    decreases t.len(),
{
    if t.len() > 0 {
        let rest = t.subrange(1, t.len() as int);
        assert(!rest.contains('\r') && !rest.contains('\n') && !rest.contains('\t')) by {
            if rest.contains('\r') {
                let k = choose|k: int| 0 <= k < rest.len() && rest[k] == '\r';
                assert(t[k + 1] == '\r');
            }
            if rest.contains('\n') {
                let k = choose|k: int| 0 <= k < rest.len() && rest[k] == '\n';
                assert(t[k + 1] == '\n');
            }
            if rest.contains('\t') {
                let k = choose|k: int| 0 <= k < rest.len() && rest[k] == '\t';
                assert(t[k + 1] == '\t');
            }
        }
        assert(t[0] != '\r' && t[0] != '\n' && t[0] != '\t') by {
            assert(t.contains(t[0]));
        }
        lemma_attr_space_normalised_identity(rest);
        assert(t =~= seq![t[0]] + rest);
    }
}

/// Whether `c` occurs in `chars`.
fn contains_char(chars: &[char], c: char) -> (r: bool)
    ensures
        r == chars@.contains(c),
{
    let mut i: usize = 0;
    while i < chars.len()
        invariant
            i <= chars@.len(),
            forall|k: int| 0 <= k < i ==> chars@[k] != c,
        decreases chars.len() - i,
    {
        if chars[i] == c {
            return true;
        }
        i = i + 1;
    }
    false
}

/// 2.11 end-of-line handling: CR LF and a lone CR become LF.
pub fn normalise_line_endings(s: &str) -> (r: Cow<'_, str>)
    ensures
        r@ == lf_normalised(s@),
{
    let chars = chars_of(s);
    if !contains_char(&chars, '\r') {
        proof {
            lemma_lf_normalised_identity(s@);
        }
        return Cow::Borrowed(s);
    }
    proof {
        assert(chars@.subrange(0, chars@.len() as int) =~= s@);
    }
    Cow::Owned(lf_normalise_chars(&chars, 0, chars.len()))
}

/// `normalise_line_endings` over `chars[from..to]`.
pub fn lf_normalise_chars(chars: &[char], from: usize, to: usize) -> (out: String)
    requires
        from <= to <= chars@.len(),
    ensures
        out@ == lf_normalised(chars@.subrange(from as int, to as int)),
{
    let mut out = String::new();
    let mut i = from;
    while i < to
        invariant
            from <= i <= to <= chars@.len(),
            out@ + lf_normalised(chars@.subrange(i as int, to as int)) == lf_normalised(
                chars@.subrange(from as int, to as int),
            ),
        decreases to - i,
    {
        let ghost rest = chars@.subrange(i as int, to as int);
        let ch = chars[i];
        if ch == '\r' {
            push_char(&mut out, '\n');
            if i + 1 < to && chars[i + 1] == '\n' {
                proof {
                    assert(rest.subrange(2, rest.len() as int) =~= chars@.subrange(i + 2, to as int));
                }
                i = i + 2;
            } else {
                proof {
                    assert(rest.subrange(1, rest.len() as int) =~= chars@.subrange(i + 1, to as int));
                }
                i = i + 1;
            }
        } else {
            push_char(&mut out, ch);
            proof {
                assert(rest.subrange(1, rest.len() as int) =~= chars@.subrange(i + 1, to as int));
            }
            i = i + 1;
        }
    }
    proof {
        assert(chars@.subrange(to as int, to as int) =~= Seq::<char>::empty());
    }
    out
}

/// 3.3.3 attribute-value normalisation for CDATA-typed attributes: TAB,
/// LF, CR and CR LF each become one SPACE.
pub fn normalise_attr_whitespace(s: &str) -> (r: Cow<'_, str>)
    ensures
        r@ == attr_space_normalised(s@),
{
    let chars = chars_of(s);
    if !contains_char(&chars, '\t') && !contains_char(&chars, '\n') && !contains_char(
        &chars,
        '\r',
    ) {
        proof {
            lemma_attr_space_normalised_identity(s@);
        }
        return Cow::Borrowed(s);
    }
    proof {
        assert(chars@.subrange(0, chars@.len() as int) =~= s@);
    }
    Cow::Owned(attr_normalise_chars(&chars, 0, chars.len()))
}

/// `normalise_attr_whitespace` over `chars[from..to]`.
pub fn attr_normalise_chars(chars: &[char], from: usize, to: usize) -> (out: String)
    requires
        from <= to <= chars@.len(),
    ensures
        out@ == attr_space_normalised(chars@.subrange(from as int, to as int)),
{
    let mut out = String::new();
    let mut i = from;
    while i < to
        invariant
            from <= i <= to <= chars@.len(),
            out@ + attr_space_normalised(chars@.subrange(i as int, to as int))
                == attr_space_normalised(chars@.subrange(from as int, to as int)),
        decreases to - i,
    {
        let ghost rest = chars@.subrange(i as int, to as int);
        let ch = chars[i];
        if ch == '\r' {
            push_char(&mut out, ' ');
            if i + 1 < to && chars[i + 1] == '\n' {
                proof {
                    assert(rest.subrange(2, rest.len() as int) =~= chars@.subrange(i + 2, to as int));
                }
                i = i + 2;
            } else {
                proof {
                    assert(rest.subrange(1, rest.len() as int) =~= chars@.subrange(i + 1, to as int));
                }
                i = i + 1;
            }
        } else {
            if ch == '\t' || ch == '\n' {
                push_char(&mut out, ' ');
            } else {
                push_char(&mut out, ch);
            }
            proof {
                assert(rest.subrange(1, rest.len() as int) =~= chars@.subrange(i + 1, to as int));
            }
            i = i + 1;
        }
    }
    proof {
        assert(chars@.subrange(to as int, to as int) =~= Seq::<char>::empty());
    }
    out
}

/// End-of-line handling leaves no carriage return behind.
pub proof fn lemma_lf_normalised_has_no_cr(t: Seq<char>)
    ensures
        !lf_normalised(t).contains('\r'),
    decreases t.len(),
{
    if t.len() > 0 {
        let rest = if t[0] == '\r' && t.len() > 1 && t[1] == '\n' {
            t.subrange(2, t.len() as int)
        } else {
            t.subrange(1, t.len() as int)
        };
        lemma_lf_normalised_has_no_cr(rest);
        let head = if t[0] == '\r' {
            '\n'
        } else {
            t[0]
        };
        let out = lf_normalised(t);
        assert(out == seq![head] + lf_normalised(rest));
        if out.contains('\r') {
            let k = choose|k: int| 0 <= k < out.len() && out[k] == '\r';
            if k > 0 {
                assert(lf_normalised(rest)[k - 1] == '\r');
            }
        }
    }
}

/// End-of-line handling is idempotent: normalised text is left as it is.
pub proof fn lemma_lf_normalised_idempotent(t: Seq<char>)
    ensures
        lf_normalised(lf_normalised(t)) == lf_normalised(t),
{
    lemma_lf_normalised_has_no_cr(t);
    lemma_lf_normalised_identity(lf_normalised(t));
}

/// Attribute-value normalisation leaves no TAB, LF or CR behind.
pub proof fn lemma_attr_space_normalised_has_no_space_controls(t: Seq<char>)
    ensures
        !attr_space_normalised(t).contains('\r'),
        !attr_space_normalised(t).contains('\n'),
        !attr_space_normalised(t).contains('\t'),
    decreases t.len(),
{
    if t.len() > 0 {
        let rest = if t[0] == '\r' && t.len() > 1 && t[1] == '\n' {
            t.subrange(2, t.len() as int)
        } else {
            t.subrange(1, t.len() as int)
        };
        lemma_attr_space_normalised_has_no_space_controls(rest);
        let head = if t[0] == '\r' || t[0] == '\n' || t[0] == '\t' {
            ' '
        } else {
            t[0]
        };
        let out = attr_space_normalised(t);
        let tail = attr_space_normalised(rest);
        assert(out == seq![head] + tail);
        assert forall|c: char| c == '\r' || c == '\n' || c == '\t' implies !out.contains(c) by {
            if out.contains(c) {
                let k = choose|k: int| 0 <= k < out.len() && out[k] == c;
                if k > 0 {
                    assert(tail[k - 1] == c);
                }
            }
        }
    }
}

} // verus!

verus! {

/// The character classes of the entity-reference grammar the decoder
/// recognises: hexadecimal digits, decimal digits, and the ASCII name
/// characters of a named reference.
#[derive(Clone, Copy)]
pub enum RefClass {
    Hex,
    Dec,
    Name,
}

/// Whether `c` belongs to the class.
pub open spec fn in_class(k: RefClass, c: char) -> bool {
    match k {
        RefClass::Hex => ('0' <= c <= '9') || ('a' <= c <= 'f') || ('A' <= c <= 'F'),
        RefClass::Dec => '0' <= c <= '9',
        RefClass::Name => ('A' <= c <= 'Z') || ('a' <= c <= 'z') || ('0' <= c <= '9') || c == '_'
            || c == '-' || c == '.' || c == ':',
    }
}

/// The first character of a named reference the decoder recognises.
pub open spec fn ascii_ref_start(c: char) -> bool {
    ('A' <= c <= 'Z') || ('a' <= c <= 'z') || c == '_' || c == ':'
}

/// Where the run of class characters from `i` ends.
pub open spec fn run_end(t: Seq<char>, i: int, k: RefClass) -> int
    decreases t.len() - i,
{
    if 0 <= i < t.len() && in_class(k, t[i]) {
        run_end(t, i + 1, k)
    } else {
        i
    }
}

pub proof fn lemma_run_end(t: Seq<char>, i: int, k: RefClass)
    requires
        0 <= i <= t.len(),
    ensures
        i <= run_end(t, i, k) <= t.len(),
        forall|j: int| i <= j < run_end(t, i, k) ==> in_class(k, #[trigger] t[j]),
        run_end(t, i, k) == t.len() || !in_class(k, t[run_end(t, i, k)]),
    decreases t.len() - i,
{
    if i < t.len() && in_class(k, t[i]) {
        lemma_run_end(t, i + 1, k);
    }
}

/// The end (just past the `;`) of a run closed at `e`, if it is closed.
pub open spec fn closed_at(t: Seq<char>, e: int) -> Option<int> {
    if 0 <= e < t.len() && t[e] == ';' {
        Some(e + 1)
    } else {
        None
    }
}

/// Where an entity reference starting at `i` ends (just past its `;`):
/// `&#x` hex digits `;`, `&#` decimal digits `;`, or `&` an ASCII name
/// `;`, tried in that order; `None` when none matches at `i`.
pub open spec fn entity_match_end(t: Seq<char>, i: int) -> Option<int> {
    if !(0 <= i < t.len() && t[i] == '&') {
        None
    } else if i + 3 < t.len() && t[i + 1] == '#' && t[i + 2] == 'x' && in_class(
        RefClass::Hex,
        t[i + 3],
    ) {
        closed_at(t, run_end(t, i + 3, RefClass::Hex))
    } else if i + 2 < t.len() && t[i + 1] == '#' && in_class(RefClass::Dec, t[i + 2]) {
        closed_at(t, run_end(t, i + 2, RefClass::Dec))
    } else if i + 1 < t.len() && ascii_ref_start(t[i + 1]) {
        closed_at(t, run_end(t, i + 2, RefClass::Name))
    } else {
        None
    }
}

pub proof fn lemma_entity_match_end(t: Seq<char>, i: int)
    ensures
        entity_match_end(t, i) matches Some(e) ==> i + 3 <= e <= t.len() && t[i] == '&' && t[e
            - 1] == ';',
{
    if 0 <= i < t.len() && t[i] == '&' {
        if i + 3 < t.len() && t[i + 1] == '#' && t[i + 2] == 'x' && in_class(RefClass::Hex, t[i + 3]) {
            lemma_run_end(t, i + 3, RefClass::Hex);
        } else if i + 2 < t.len() && t[i + 1] == '#' && in_class(RefClass::Dec, t[i + 2]) {
            lemma_run_end(t, i + 2, RefClass::Dec);
        } else if i + 1 < t.len() && ascii_ref_start(t[i + 1]) {
            lemma_run_end(t, i + 2, RefClass::Name);
        }
    }
}

/// The value of one digit.
pub open spec fn digit_value(c: char) -> nat {
    if '0' <= c <= '9' {
        (c as u32 - '0' as u32) as nat
    } else if 'a' <= c <= 'f' {
        (c as u32 - 'a' as u32 + 10) as nat
    } else {
        (c as u32 - 'A' as u32 + 10) as nat
    }
}

/// The value of a digit string in the given radix.
pub open spec fn digits_value(ds: Seq<char>, radix: nat) -> nat
    decreases ds.len(),
{
    if ds.len() == 0 {
        0
    } else {
        digits_value(ds.drop_last(), radix) * radix + digit_value(ds.last())
    }
}

/// A digit string is worth at least any of its prefixes.
pub proof fn lemma_digits_value_grows(ds: Seq<char>, k: int, radix: nat)
    requires
        0 <= k <= ds.len(),
        radix >= 1,
    ensures
        digits_value(ds.take(k), radix) <= digits_value(ds, radix),
    decreases ds.len() - k,
{
    if k < ds.len() {
        lemma_digits_value_grows(ds, k + 1, radix);
        let p = ds.take(k + 1);
        assert(p.drop_last() =~= ds.take(k));
        let v = digits_value(ds.take(k), radix);
        assert(v * radix >= v) by (nonlinear_arith)
            requires
                radix >= 1,
        ;
    } else {
        assert(ds.take(k) =~= ds);
    }
}

/// The character a character reference of this value stands for: the
/// value itself when it is a Unicode scalar value, U+FFFD for a
/// surrogate.
pub open spec fn char_ref_char(v: nat) -> char {
    if is_scalar(v as u32) {
        v as char
    } else {
        '\u{FFFD}'
    }
}

/// The value of a numeric reference body (`#x` hex digits or `#`
/// decimal digits).
pub open spec fn char_ref_value(r: Seq<char>) -> nat {
    if r.len() > 1 && r[1] == 'x' {
        digits_value(r.subrange(2, r.len() as int), 16)
    } else {
        digits_value(r.subrange(1, r.len() as int), 10)
    }
}

/// The expansion of `t` from position `i`: every entity reference the
/// decoder recognises replaced, everything else kept. A numeric
/// reference becomes its character when its value is at most U+10FFFF
/// and is kept as written otherwise; a named one takes the predefined or
/// custom text in `base` first, then the DTD text in `dtd` expanded in
/// turn (unless it is already being expanded, in which case it is kept
/// as written), and is kept as written when neither declares it.
pub open spec fn expand_from(
    base: Map<Seq<char>, Seq<char>>,
    dtd: Map<Seq<char>, Seq<char>>,
    seen: Set<Seq<char>>,
    t: Seq<char>,
    i: int,
) -> Seq<char>
    decreases dtd.dom().difference(seen).len(), t.len() - i,
    when dtd.dom().finite() && 0 <= i
{
    if i >= t.len() {
        seq![]
    } else {
        match entity_match_end(t, i) {
            None => seq![t[i]] + expand_from(base, dtd, seen, t, i + 1),
            Some(e) => {
                proof {
                    lemma_entity_match_end(t, i);
                }
                let r = t.subrange(i + 1, e - 1);
                let whole = t.subrange(i, e);
                let head = if r[0] == '#' {
                    if char_ref_value(r) <= 0x10ffff {
                        seq![char_ref_char(char_ref_value(r))]
                    } else {
                        whole
                    }
                } else if base.contains_key(r) {
                    base[r]
                } else if dtd.contains_key(r) && !seen.contains(r) {
                    proof {
                        lemma_difference_shrinks(dtd.dom(), seen, r);
                    }
                    expand_from(base, dtd, seen.insert(r), dtd[r], 0)
                } else {
                    whole
                };
                head + expand_from(base, dtd, seen, t, e)
            },
        }
    }
}

/// Adding a member of a finite set to the excluded set shrinks the
/// difference.
pub proof fn lemma_difference_shrinks(d: Set<Seq<char>>, seen: Set<Seq<char>>, r: Seq<char>)
    requires
        d.finite(),
        d.contains(r),
        !seen.contains(r),
    ensures
        d.difference(seen.insert(r)).len() < d.difference(seen).len(),
{
    broadcast use vstd::set::group_set_axioms;

    assert(d.difference(seen.insert(r)) =~= d.difference(seen).remove(r));
}

/// The five predefined entities (4.6).
pub open spec fn predefined_entities() -> Map<Seq<char>, Seq<char>> {
    map![
        seq!['a', 'm', 'p'] => seq!['&'],
        seq!['l', 't'] => seq!['<'],
        seq!['g', 't'] => seq!['>'],
        seq!['q', 'u', 'o', 't'] => seq!['"'],
        seq!['a', 'p', 'o', 's'] => seq!['\''],
    ]
}

/// The map a sequence of entries spells, a later entry overriding an
/// earlier one with the same key.
pub open spec fn entries_map(e: Seq<(Seq<char>, Seq<char>)>) -> Map<Seq<char>, Seq<char>>
    decreases e.len(),
{
    if e.len() == 0 {
        Map::empty()
    } else {
        entries_map(e.drop_last()).insert(e.last().0, e.last().1)
    }
}

} // verus!

verus! {

/// Where the run of class characters from `i` ends.
pub fn class_run_end(chars: &[char], i: usize, k: RefClass) -> (e: usize)
    requires
        i <= chars@.len(),
    ensures
        e == run_end(chars@, i as int, k),
{
    let mut e = i;
    while e < chars.len() && char_in_class(k, chars[e])
        invariant
            i <= e <= chars@.len(),
            run_end(chars@, e as int, k) == run_end(chars@, i as int, k),
        decreases chars.len() - e,
    {
        e = e + 1;
    }
    e
}

/// Whether `c` belongs to the class.
pub fn char_in_class(k: RefClass, c: char) -> (r: bool)
    ensures
        r == in_class(k, c),
{
    match k {
        RefClass::Hex => ('0' <= c && c <= '9') || ('a' <= c && c <= 'f') || ('A' <= c && c <= 'F'),
        RefClass::Dec => '0' <= c && c <= '9',
        RefClass::Name => ('A' <= c && c <= 'Z') || ('a' <= c && c <= 'z') || ('0' <= c && c <= '9')
            || c == '_' || c == '-' || c == '.' || c == ':',
    }
}

/// Where an entity reference starting at `i` ends, as
/// `entity_match_end` states it.
pub fn entity_match_at(chars: &[char], i: usize) -> (r: Option<usize>)
    ensures
        opt_pos(r) == entity_match_end(chars@, i as int),
{
    let n = chars.len();
    if !(i < n && chars[i] == '&') {
        return None;
    }
    let e: usize;
    if n - i > 3 && chars[i + 1] == '#' && chars[i + 2] == 'x' && char_in_class(
        RefClass::Hex,
        chars[i + 3],
    ) {
        e = class_run_end(chars, i + 3, RefClass::Hex);
    } else if n - i > 2 && chars[i + 1] == '#' && char_in_class(RefClass::Dec, chars[i + 2]) {
        e = class_run_end(chars, i + 2, RefClass::Dec);
    } else if n - i > 1 && (('A' <= chars[i + 1] && chars[i + 1] <= 'Z') || ('a' <= chars[i + 1]
        && chars[i + 1] <= 'z') || chars[i + 1] == '_' || chars[i + 1] == ':') {
        e = class_run_end(chars, i + 2, RefClass::Name);
    } else {
        return None;
    }
    if e < n && chars[e] == ';' {
        Some(e + 1)
    } else {
        None
    }
}

/// The value of the digits `chars[from..to]` in the given radix, or
/// `None` when it exceeds U+10FFFF.
pub fn digits_value_capped(chars: &[char], from: usize, to: usize, radix: u32) -> (r: Option<u32>)
    requires
        from <= to <= chars@.len(),
        radix == 10 || radix == 16,
        forall|j: int|
            from <= j < to ==> in_class(
                if radix == 16 {
                    RefClass::Hex
                } else {
                    RefClass::Dec
                },
                #[trigger] chars@[j],
            ),
    ensures
        match r {
            Some(v) => v as nat == digits_value(chars@.subrange(from as int, to as int), radix as nat)
                && v <= 0x10ffff,
            None => digits_value(chars@.subrange(from as int, to as int), radix as nat) > 0x10ffff,
        },
{
    let ghost ds = chars@.subrange(from as int, to as int);
    let mut acc: u32 = 0;
    let mut i = from;
    proof {
        assert(ds.take(0) =~= Seq::<char>::empty());
    }
    while i < to
        invariant
            from <= i <= to <= chars@.len(),
            radix == 10 || radix == 16,
            ds == chars@.subrange(from as int, to as int),
            forall|j: int|
                from <= j < to ==> in_class(
                    if radix == 16 {
                        RefClass::Hex
                    } else {
                        RefClass::Dec
                    },
                    #[trigger] chars@[j],
                ),
            acc as nat == digits_value(ds.take(i - from), radix as nat),
            acc <= 0x10ffff,
        decreases to - i,
    {
        let c = chars[i];
        let d: u32 = if '0' <= c && c <= '9' {
            (c as u32) - ('0' as u32)
        } else if 'a' <= c && c <= 'f' {
            (c as u32) - ('a' as u32) + 10
        } else {
            (c as u32) - ('A' as u32) + 10
        };
        assert(d == digit_value(c));
        assert(d < 16);
        assert(acc * radix <= 0x10ffff * 16) by (nonlinear_arith)
            requires
                acc <= 0x10ffff,
                radix <= 16,
        ;
        let next = acc * radix + d;
        proof {
            let p = ds.take(i - from + 1);
            assert(p.drop_last() =~= ds.take(i - from));
            assert(p.last() == c);
        }
        if next > 0x10ffff {
            proof {
                lemma_digits_value_grows(ds, i - from + 1, radix as nat);
            }
            return None;
        }
        acc = next;
        i = i + 1;
    }
    proof {
        assert(ds.take(to - from) =~= ds);
    }
    Some(acc)
}

} // verus!

verus! {

/// Decodes entity references in text and attribute values: the five
/// predefined entities, numeric character references, the caller's
/// custom entities, and per-parse DOCTYPE entities, the last expanded
/// recursively with cycle detection. The predefined and custom texts are
/// fixed when the decoder is built; the DTD map arrives with each call.
pub struct EntityDecoder {
    base: TextMap,
}

impl EntityDecoder {
    /// The texts of the names that are always declared: predefined plus
    /// custom.
    pub closed spec fn entities(&self) -> Map<Seq<char>, Seq<char>> {
        self.base@
    }

    /// Whether the declared-names map is finite.
    pub closed spec fn wf(&self) -> bool {
        self.base@.dom().finite()
    }

    /// A decoder for the predefined entities plus `custom`, a custom entry
    /// overriding a predefined one of the same name.
    pub fn new(custom: &IndexMap<String, String>) -> (d: Self)
        ensures
            d.entities() == predefined_entities().union_prefer_right(
                entries_map(str_entries(*custom)),
            ),
            d.wf(),
    {
        let mut base: TextMap = TextMap::new();
        base.insert(String::from_str("amp"), String::from_str("&"));
        base.insert(String::from_str("lt"), String::from_str("<"));
        base.insert(String::from_str("gt"), String::from_str(">"));
        base.insert(String::from_str("quot"), String::from_str("\""));
        base.insert(String::from_str("apos"), String::from_str("'"));
        proof {
            reveal_strlit("amp");
            reveal_strlit("&");
            reveal_strlit("lt");
            reveal_strlit("<");
            reveal_strlit("gt");
            reveal_strlit(">");
            reveal_strlit("quot");
            reveal_strlit("\"");
            reveal_strlit("apos");
            reveal_strlit("'");
            assert("amp"@ =~= seq!['a', 'm', 'p']);
            assert("lt"@ =~= seq!['l', 't']);
            assert("gt"@ =~= seq!['g', 't']);
            assert("quot"@ =~= seq!['q', 'u', 'o', 't']);
            assert("apos"@ =~= seq!['a', 'p', 'o', 's']);
            assert("&"@ =~= seq!['&']);
            assert("<"@ =~= seq!['<']);
            assert(">"@ =~= seq!['>']);
            assert("\""@ =~= seq!['"']);
            assert("'"@ =~= seq!['\'']);
            assert(base@ =~= predefined_entities());
            assert(str_entries(*custom).take(0) =~= Seq::<(Seq<char>, Seq<char>)>::empty());
            assert(predefined_entities().union_prefer_right(Map::empty()) =~= predefined_entities());
        }
        let ghost e = str_entries(*custom);
        let n = str_map_len(custom);
        let mut i: usize = 0;
        while i < n
            invariant
                i <= n,
                n == e.len(),
                e == str_entries(*custom),
                base@.dom().finite(),
                base@ == predefined_entities().union_prefer_right(
                    entries_map(e.take(i as int)),
                ),
            decreases n - i,
        {
            let (name, text) = str_map_get_index(custom, i);
            let ghost before = base@;
            base.insert(name.clone(), text.clone());
            proof {
                let t = e.take(i + 1);
                assert(t.drop_last() =~= e.take(i as int));
                assert(t.last() == e[i as int]);
                assert(base@ =~= before.insert(name@, text@));
                assert(predefined_entities().union_prefer_right(entries_map(t)) =~= predefined_entities().union_prefer_right(
                    entries_map(e.take(i as int)),
                ).insert(name@, text@));
            }
            i = i + 1;
        }
        proof {
            assert(e.take(n as int) =~= e);
        }
        EntityDecoder { base }
    }

    /// The names that are always declared: predefined plus custom.
    pub fn declared(&self) -> (r: &TextMap)
        ensures
            r@ == self.entities(),
    {
        &self.base
    }

    /// The text with every recognised entity reference decoded, DTD
    /// entities expanded in turn.
    pub fn decode(&self, src: &str, dtd: &TextMap) -> (out: String)
        requires
            dtd@.dom().finite(),
        ensures
            out@ == expand_from(self.entities(), dtd@, Set::empty(), src@, 0),
    {
        let mut seen = StringHashSet::new();
        self.expand(src, dtd, &mut seen)
    }

    fn expand(&self, src: &str, dtd: &TextMap, seen: &mut StringHashSet) -> (out:
        String)
        requires
            dtd@.dom().finite(),
        ensures
            out@ == expand_from(self.entities(), dtd@, old(seen)@, src@, 0),
            final(seen)@ == old(seen)@,
        decreases dtd@.dom().difference(old(seen)@).len(),
    {
        let ghost base = self.entities();
        let ghost d = dtd@;
        let ghost s0 = seen@;
        proof {
            assert(d.dom() == dtd@.dom());
        }
        let chars = chars_of(src);
        let n = chars.len();
        let mut out = String::new();
        let mut i: usize = 0;
        while i < n
            invariant
                i <= n,
                n == chars@.len(),
                chars@ == src@,
                d.dom().finite(),
                dtd@.dom().finite(),
                d == dtd@,
                base == self.entities(),
                seen@ == s0,
                s0 == old(seen)@,
                out@ + expand_from(base, d, s0, chars@, i as int) == expand_from(
                    base,
                    d,
                    s0,
                    chars@,
                    0,
                ),
            decreases n - i,
        {
            let ghost t = chars@;
            match entity_match_at(&chars, i) {
                None => {
                    push_char(&mut out, chars[i]);
                    i = i + 1;
                },
                Some(e) => {
                    proof {
                        lemma_entity_match_end(t, i as int);
                    }
                    let ghost r = t.subrange(i + 1, e - 1);
                    let ghost whole = t.subrange(i as int, e as int);
                    let head: String;
                    if chars[i + 1] == '#' {
                        let hex = chars[i + 2] == 'x';
                        let from = if hex {
                            i + 3
                        } else {
                            i + 2
                        };
                        proof {
                            if hex {
                                assert(r.subrange(2, r.len() as int) =~= t.subrange(
                                    i + 3,
                                    e - 1,
                                ));
                                lemma_run_end(t, i + 3, RefClass::Hex);
                            } else {
                                assert(r.subrange(1, r.len() as int) =~= t.subrange(
                                    i + 2,
                                    e - 1,
                                ));
                                if n - i > 2 && t[i + 2] == 'x' {
                                    assert(false);
                                }
                                lemma_run_end(t, i + 2, RefClass::Dec);
                            }
                        }
                        let value = digits_value_capped(
                            &chars,
                            from,
                            e - 1,
                            if hex {
                                16
                            } else {
                                10
                            },
                        );
                        match value {
                            Some(code) => {
                                let c = match crate::stdx::char_from_u32(code) {
                                    Some(c) => c,
                                    None => '\u{FFFD}',
                                };
                                let mut one = String::new();
                                push_char(&mut one, c);
                                head = one;
                            },
                            None => {
                                head = string_of(&chars, i, e);
                            },
                        }
                    } else {
                        let name = string_of(&chars, i + 1, e - 1);
                        match self.base.get(name.as_str()) {
                            Some(text) => {
                                head = text.clone();
                            },
                            None => {
                                let found = dtd.get(name.as_str());
                                if found.is_some() && !seen.contains(name.as_str()) {
                                    let text = found.unwrap();
                                    proof {
                                        lemma_difference_shrinks(d.dom(), s0, r);
                                    }
                                    seen.insert(name.clone());
                                    let expanded = self.expand(text.as_str(), dtd, seen);
                                    seen.remove(name.as_str());
                                    proof {
                                        assert(seen@ =~= s0);
                                    }
                                    head = expanded;
                                } else {
                                    head = string_of(&chars, i, e);
                                }
                            },
                        }
                    }
                    out.append(head.as_str());
                    i = e;
                },
            }
        }
        out
    }
}

} // verus!

verus! {

/// What the current parse knows about entity declarations, for the 4.1
/// "Entity Declared" check.
pub struct EntityDeclState {
    /// External general entities: declared, never fetched.
    pub external: TextMap,
    /// Unparsed (NDATA) entities: may never be referenced.
    pub unparsed: TextMap,
    /// True only when part of the DTD went unread and the document did
    /// not declare `standalone="yes"`.
    pub unread: bool,
}

impl Default for EntityDeclState {
    /// No declarations known, nothing unread.
    fn default() -> (s: Self)
        ensures
            s.external@ == Map::<Seq<char>, Seq<char>>::empty(),
            s.unparsed@ == Map::<Seq<char>, Seq<char>>::empty(),
            !s.unread,
    {
        EntityDeclState { external: TextMap::new(), unparsed: TextMap::new(), unread: false }
    }
}

/// The first position at or after `j` holding `c`.
pub open spec fn next_char_pos(t: Seq<char>, j: int, c: char) -> Option<int>
    decreases t.len() - j,
{
    if j < 0 || j >= t.len() {
        None
    } else if t[j] == c {
        Some(j)
    } else {
        next_char_pos(t, j + 1, c)
    }
}

pub proof fn lemma_next_char_pos(t: Seq<char>, j: int, c: char)
    requires
        0 <= j,
    ensures
        next_char_pos(t, j, c) matches Some(k) ==> j <= k < t.len() && t[k] == c && forall|m: int|
            j <= m < k ==> t[m] != c,
        next_char_pos(t, j, c) is None ==> forall|m: int| j <= m < t.len() ==> t[m] != c,
    decreases t.len() - j,
{
    if j < t.len() && t[j] != c {
        lemma_next_char_pos(t, j + 1, c);
    }
}

/// The first position at or after `j` holding `c`.
pub fn find_char(chars: &[char], j: usize, c: char) -> (r: Option<usize>)
    ensures
        opt_pos(r) == next_char_pos(chars@, j as int, c),
{
    let mut k = j;
    while k < chars.len()
        invariant
            j <= k,
            next_char_pos(chars@, k as int, c) == next_char_pos(chars@, j as int, c),
        decreases chars.len() - k,
    {
        if chars[k] == c {
            return Some(k);
        }
        k = k + 1;
    }
    None
}

/// Whether every character of `ds` is in the class.
pub open spec fn all_in(ds: Seq<char>, k: RefClass) -> bool {
    forall|m: int| 0 <= m < ds.len() ==> in_class(k, #[trigger] ds[m])
}

/// The verdict on one reference body (the text between `&` and `;`).
pub open spec fn reference_error(
    r: Seq<char>,
    dtd: Set<Seq<char>>,
    declared: Set<Seq<char>>,
    strict: bool,
    external: Set<Seq<char>>,
    unparsed: Set<Seq<char>>,
    unread: bool,
    in_attr: bool,
) -> Option<WfError> {
    if r.len() == 0 {
        Some(WfError::BadEntityRef)
    } else if r[0] == '#' {
        let hex = r.len() > 1 && r[1] == 'x';
        let ds = if hex {
            r.subrange(2, r.len() as int)
        } else {
            r.subrange(1, r.len() as int)
        };
        let k = if hex {
            RefClass::Hex
        } else {
            RefClass::Dec
        };
        if ds.len() == 0 {
            Some(WfError::BadEntityRef)
        } else if !all_in(ds, k) {
            Some(WfError::BadEntityRef)
        } else {
            None
        }
    } else if !is_name(r) {
        Some(WfError::BadEntityRef)
    } else if unparsed.contains(r) {
        Some(WfError::UnparsedEntityRef)
    } else if external.contains(r) {
        if in_attr {
            Some(WfError::ExternalEntityInAttr)
        } else {
            None
        }
    } else if strict && !unread && !declared.contains(r) && !dtd.contains(r) {
        Some(WfError::UndeclaredEntity)
    } else {
        None
    }
}

/// The first violation among the references of `t` from position `i`:
/// every `&` must start a reference closed by the next `;`, and each
/// reference body is judged by `reference_error`.
pub open spec fn references_error(
    t: Seq<char>,
    i: int,
    dtd: Set<Seq<char>>,
    declared: Set<Seq<char>>,
    strict: bool,
    external: Set<Seq<char>>,
    unparsed: Set<Seq<char>>,
    unread: bool,
    in_attr: bool,
) -> Option<WfError>
    decreases t.len() - i,
{
    if i < 0 || i >= t.len() {
        None
    } else if t[i] != '&' {
        references_error(t, i + 1, dtd, declared, strict, external, unparsed, unread, in_attr)
    } else {
        match next_char_pos(t, i + 1, ';') {
            None => Some(WfError::BadEntityRef),
            Some(semi) => {
                proof {
                    lemma_next_char_pos(t, i + 1, ';');
                }
                match reference_error(
                    t.subrange(i + 1, semi),
                    dtd,
                    declared,
                    strict,
                    external,
                    unparsed,
                    unread,
                    in_attr,
                ) {
                    Some(err) => Some(err),
                    None => references_error(
                        t,
                        semi + 1,
                        dtd,
                        declared,
                        strict,
                        external,
                        unparsed,
                        unread,
                        in_attr,
                    ),
                }
            },
        }
    }
}

/// Whether every character of `chars[from..to]` is in the class.
fn all_in_class(chars: &[char], from: usize, to: usize, k: RefClass) -> (r: bool)
    requires
        from <= to <= chars@.len(),
    ensures
        r == all_in(chars@.subrange(from as int, to as int), k),
{
    let ghost ds = chars@.subrange(from as int, to as int);
    let mut i = from;
    while i < to
        invariant
            from <= i <= to <= chars@.len(),
            ds == chars@.subrange(from as int, to as int),
            forall|m: int| 0 <= m < i - from ==> in_class(k, #[trigger] ds[m]),
        decreases to - i,
    {
        if !char_in_class(k, chars[i]) {
            proof {
                assert(!in_class(k, ds[i - from]));
            }
            return false;
        }
        i = i + 1;
    }
    true
}

/// Whether `chars[from..to]` is an XML Name.
fn is_name_between(chars: &[char], from: usize, to: usize) -> (r: bool)
    requires
        from <= to <= chars@.len(),
    ensures
        r == is_name(chars@.subrange(from as int, to as int)),
{
    let ghost t = chars@.subrange(from as int, to as int);
    if from == to || !is_name_start(chars[from]) {
        return false;
    }
    let mut i = from + 1;
    while i < to
        invariant
            from < i <= to <= chars@.len(),
            t == chars@.subrange(from as int, to as int),
            forall|m: int| 1 <= m < i - from ==> name_char(#[trigger] t[m]),
        decreases to - i,
    {
        if !is_name_char(chars[i]) {
            proof {
                assert(!name_char(t[i - from]));
            }
            return false;
        }
        i = i + 1;
    }
    true
}

/// Validate every `&` in `s` as a well-formed entity reference, and apply
/// the 4.1 constraints: "Parsed Entity" (no reference to an unparsed
/// entity), "No External Entity References" (none in an attribute value)
/// and "Entity Declared" (when `strict`, unless part of the DTD went
/// unread). Returns the first violation.
pub fn check_entity_refs(
    s: &str,
    dtd: &TextMap,
    declared: &TextMap,
    strict: bool,
    entdecl: &EntityDeclState,
    in_attr: bool,
) -> (r: Option<WfError>)
    ensures
        r == references_error(
            s@,
            0,
            dtd@.dom(),
            declared@.dom(),
            strict,
            entdecl.external@.dom(),
            entdecl.unparsed@.dom(),
            entdecl.unread,
            in_attr,
        ),
{
    let chars = chars_of(s);
    check_entity_refs_in(&chars, dtd, declared, strict, entdecl, in_attr)
}

/// `check_entity_refs` over characters.
pub fn check_entity_refs_in(
    chars: &[char],
    dtd: &TextMap,
    declared: &TextMap,
    strict: bool,
    entdecl: &EntityDeclState,
    in_attr: bool,
) -> (r: Option<WfError>)
    ensures
        r == references_error(
            chars@,
            0,
            dtd@.dom(),
            declared@.dom(),
            strict,
            entdecl.external@.dom(),
            entdecl.unparsed@.dom(),
            entdecl.unread,
            in_attr,
        ),
{
    let ghost t = chars@;
    let ghost dd = dtd@.dom();
    let ghost decl = declared@.dom();
    let ghost ext = entdecl.external@.dom();
    let ghost unp = entdecl.unparsed@.dom();
    let n = chars.len();
    let mut i: usize = 0;
    while i < n
        invariant
            i <= n,
            n == t.len(),
            t == chars@,
            dd == dtd@.dom(),
            decl == declared@.dom(),
            ext == entdecl.external@.dom(),
            unp == entdecl.unparsed@.dom(),
            references_error(t, i as int, dd, decl, strict, ext, unp, entdecl.unread, in_attr)
                == references_error(t, 0, dd, decl, strict, ext, unp, entdecl.unread, in_attr),
        decreases n - i,
    {
        if chars[i] != '&' {
            i = i + 1;
            continue;
        }
        let semi = match find_char(chars, i + 1, ';') {
            None => {
                return Some(WfError::BadEntityRef);
            },
            Some(semi) => semi,
        };
        proof {
            lemma_next_char_pos(t, i + 1, ';');
        }
        let ghost r = t.subrange(i + 1, semi as int);
        let start = i + 1;
        if start == semi {
            return Some(WfError::BadEntityRef);
        }
        if chars[start] == '#' {
            let hex = semi - start > 1 && chars[start + 1] == 'x';
            let from = if hex {
                start + 2
            } else {
                start + 1
            };
            proof {
                let ds = if hex {
                    r.subrange(2, r.len() as int)
                } else {
                    r.subrange(1, r.len() as int)
                };
                assert(ds =~= t.subrange(from as int, semi as int));
            }
            if from == semi {
                return Some(WfError::BadEntityRef);
            }
            let k = if hex {
                RefClass::Hex
            } else {
                RefClass::Dec
            };
            if !all_in_class(chars, from, semi, k) {
                return Some(WfError::BadEntityRef);
            }
        } else {
            if !is_name_between(chars, start, semi) {
                return Some(WfError::BadEntityRef);
            }
            let name = string_of(chars, start, semi);
            if entdecl.unparsed.contains_key(name.as_str()) {
                return Some(WfError::UnparsedEntityRef);
            }
            if entdecl.external.contains_key(name.as_str()) {
                if in_attr {
                    return Some(WfError::ExternalEntityInAttr);
                }
            } else if strict && !entdecl.unread && !declared.contains_key(name.as_str())
                && !dtd.contains_key(name.as_str()) {
                return Some(WfError::UndeclaredEntity);
            }
        }
        i = semi + 1;
    }
    None
}

} // verus!

verus! {

/// Where the run of XML white space from `j` ends.
pub open spec fn skip_spaces(t: Seq<char>, j: int) -> int
    decreases t.len() - j,
{
    if 0 <= j < t.len() && space_char(t[j]) {
        skip_spaces(t, j + 1)
    } else {
        j
    }
}

pub proof fn lemma_skip_spaces(t: Seq<char>, j: int)
    requires
        0 <= j,
    ensures
        j <= skip_spaces(t, j),
        j <= t.len() ==> skip_spaces(t, j) <= t.len(),
        j > t.len() ==> skip_spaces(t, j) == j,
        forall|m: int| j <= m < skip_spaces(t, j) ==> space_char(#[trigger] t[m]),
        skip_spaces(t, j) < t.len() ==> !space_char(t[skip_spaces(t, j)]),
    decreases t.len() - j,
{
    if j < t.len() && space_char(t[j]) {
        lemma_skip_spaces(t, j + 1);
    }
}

/// Skip XML white space from `at`.
pub fn skip_space(chars: &[char], at: usize) -> (r: usize)
    ensures
        r == skip_spaces(chars@, at as int),
{
    let mut at = at;
    let ghost start = at;
    while at < chars.len() && is_space_char(chars[at])
        invariant
            start <= at,
            skip_spaces(chars@, at as int) == skip_spaces(chars@, start as int),
        decreases chars.len() - at,
    {
        at = at + 1;
    }
    at
}

/// The position just past the next `>` at or after `j`, or the end.
pub open spec fn past_gt(t: Seq<char>, j: int) -> int {
    match next_char_pos(t, j, '>') {
        Some(k) => k + 1,
        None => t.len() as int,
    }
}

/// The position after the character at `j`: `j + 1`, or the end when
/// `j` is at or past it.
pub open spec fn after_pos(t: Seq<char>, j: int) -> int {
    if j >= t.len() {
        t.len() as int
    } else {
        j + 1
    }
}

/// The position just past the next `>` at or after `j`, or the end.
fn skip_past_gt(chars: &[char], j: usize) -> (r: usize)
    ensures
        r == past_gt(chars@, j as int),
{
    let found = find_char(chars, j, '>');
    proof {
        lemma_next_char_pos(chars@, j as int, '>');
    }
    assert(chars@.len() == chars.len());
    match found {
        Some(k) => k + 1,
        None => chars.len(),
    }
}

/// The class `\s` of the declaration patterns, as ECMAScript defines it:
/// white space (tab, vertical tab, form feed, space, no-break space, the
/// byte-order mark and the other space separators) and line terminators.
/// Unlike Unicode White_Space it holds U+FEFF and not U+0085.
pub open spec fn pattern_space(c: char) -> bool {
    let cp = c as u32;
    ||| 0x09 <= cp <= 0x0d
    ||| cp == 0x20
    ||| cp == 0xa0
    ||| cp == 0x1680
    ||| 0x2000 <= cp <= 0x200a
    ||| cp == 0x2028
    ||| cp == 0x2029
    ||| cp == 0x202f
    ||| cp == 0x205f
    ||| cp == 0x3000
    ||| cp == 0xfeff
}

/// Whether a character is in the class `\s` of the declaration patterns.
pub fn is_pattern_space(c: char) -> (r: bool)
    ensures
        r == pattern_space(c),
{
    let cp = c as u32;
    (0x09 <= cp && cp <= 0x0d) || cp == 0x20 || cp == 0xa0 || cp == 0x1680 || (0x2000 <= cp && cp
        <= 0x200a) || cp == 0x2028 || cp == 0x2029 || cp == 0x202f || cp == 0x205f || cp == 0x3000
        || cp == 0xfeff
}

/// A character that may stand on either side of the NDATA keyword.
pub open spec fn ndata_edge(c: char) -> bool {
    pattern_space(c) || c == '"' || c == '\''
}

pub open spec fn ndata_word() -> Seq<char> {
    seq!['N', 'D', 'A', 'T', 'A']
}

/// Whether an entity declaration tail carries the NDATA keyword of an
/// unparsed entity (4.2.2 [76]): the word standing alone between white
/// space, quotes or the ends of the tail.
pub open spec fn ndata_marked(tail: Seq<char>) -> bool {
    exists|k: int|
        #![trigger occurs_at(tail, k, ndata_word())]
        occurs_at(tail, k, ndata_word()) && (k == 0 || ndata_edge(tail[k - 1])) && (k + 5
            == tail.len() || ndata_edge(tail[k + 5]))
}

fn ndata_pattern_word() -> (v: Vec<char>)
    ensures
        v@ == ndata_word(),
{
    let v = vec!['N', 'D', 'A', 'T', 'A'];
    proof {
        assert(v@ =~= ndata_word());
    }
    v
}

/// Whether `chars[from..to]` carries the NDATA keyword.
fn ndata_in(chars: &[char], from: usize, to: usize) -> (r: bool)
    requires
        from <= to <= chars@.len(),
    ensures
        r == ndata_marked(chars@.subrange(from as int, to as int)),
{
    let ghost tail = chars@.subrange(from as int, to as int);
    let word = ndata_pattern_word();
    let mut k = from;
    while k <= to && to - k >= 5
        invariant
            from <= k,
            to <= chars@.len(),
            word@ == ndata_word(),
            tail == chars@.subrange(from as int, to as int),
            forall|m: int|
                0 <= m < k - from ==> !(#[trigger] occurs_at(tail, m, ndata_word()) && (m == 0
                    || ndata_edge(tail[m - 1])) && (m + 5 == tail.len() || ndata_edge(
                    tail[m + 5],
                ))),
        decreases to - k,
    {
        let here = starts_at(chars, k, &word);
        let m = k - from;
        proof {
            if here {
                assert(tail.subrange(m as int, m + 5) =~= chars@.subrange(k as int, k + 5));
            } else {
                if occurs_at(tail, m as int, ndata_word()) {
                    assert(tail.subrange(m as int, m + 5) =~= chars@.subrange(k as int, k + 5));
                }
            }
        }
        if here {
            let before = k == from || is_pattern_space(chars[k - 1]) || chars[k - 1] == '"'
                || chars[k - 1] == '\'';
            let after = k + 5 == to || is_pattern_space(chars[k + 5]) || chars[k + 5] == '"'
                || chars[k + 5] == '\'';
            proof {
                if m > 0 {
                    assert(tail[m - 1] == chars@[k - 1]);
                }
                if k + 5 < to {
                    assert(tail[m + 5] == chars@[k + 5]);
                }
            }
            if before && after {
                proof {
                    assert(occurs_at(tail, m as int, ndata_word()));
                }
                return true;
            }
        }
        k = k + 1;
    }
    proof {
        assert forall|m: int|
            #![trigger occurs_at(tail, m, ndata_word())]
            occurs_at(tail, m, ndata_word()) implies !((m == 0 || ndata_edge(tail[m - 1])) && (m
            + 5 == tail.len() || ndata_edge(tail[m + 5]))) by {
            assert(m < k - from);
        }
    }
    false
}

} // verus!

verus! {

/// The general entity declarations of a DOCTYPE internal subset.
pub struct DoctypeEntities {
    /// `<!ENTITY name "value">`: stored verbatim, expanded on reference.
    pub internal: TextMap,
    /// `<!ENTITY name SYSTEM "...">` / `PUBLIC ...`: declared, never
    /// fetched, so a reference stays verbatim in the output (4.4.3).
    pub external: TextMap,
    /// External entities carrying an `NDATA` notation.
    pub unparsed: TextMap,
}

/// The three declaration maps, by text: internal, external, unparsed.
pub type DeclMaps = (Map<Seq<char>, Seq<char>>, Map<Seq<char>, Seq<char>>, Map<Seq<char>, Seq<char>>);

impl DoctypeEntities {
    /// The three maps by text.
    pub open spec fn maps(&self) -> DeclMaps {
        (self.internal@, self.external@, self.unparsed@)
    }

    /// All three maps are finite.
    pub open spec fn wf(&self) -> bool {
        &&& self.internal@.dom().finite()
        &&& self.external@.dom().finite()
        &&& self.unparsed@.dom().finite()
    }
}

pub open spec fn entity_decl_word() -> Seq<char> {
    seq!['<', '!', 'E', 'N', 'T', 'I', 'T', 'Y']
}

pub open spec fn system_word() -> Seq<char> {
    seq!['S', 'Y', 'S', 'T', 'E', 'M']
}

pub open spec fn public_word() -> Seq<char> {
    seq!['P', 'U', 'B', 'L', 'I', 'C']
}

/// A character of an entity declaration's name: a name character from
/// the basic multilingual plane. The declaration reader takes a name the
/// way a reader of UTF-16 code units does, so a character beyond U+FFFF
/// ends the name (or starts none).
pub open spec fn decl_name_char(c: char) -> bool {
    name_char(c) && (c as u32) < 0x10000
}

/// Where the run of declaration-name characters from `i` ends.
pub open spec fn decl_name_run_end(t: Seq<char>, i: int) -> int
    decreases t.len() - i,
{
    if i < 0 || i >= t.len() || !decl_name_char(t[i]) {
        i
    } else {
        decl_name_run_end(t, i + 1)
    }
}

/// Where the declaration name starting at `start` ends, if one starts
/// there.
pub open spec fn decl_name_end(t: Seq<char>, start: int) -> Option<int> {
    if 0 <= start < t.len() && name_start_char(t[start]) && (t[start] as u32) < 0x10000 {
        Some(decl_name_run_end(t, start + 1))
    } else {
        None
    }
}

pub proof fn lemma_decl_name_run_end(t: Seq<char>, i: int)
    requires
        0 <= i <= t.len(),
    ensures
        i <= decl_name_run_end(t, i) <= t.len(),
        forall|k: int| i <= k < decl_name_run_end(t, i) ==> decl_name_char(#[trigger] t[k]),
    decreases t.len() - i,
{
    if i < t.len() && decl_name_char(t[i]) {
        lemma_decl_name_run_end(t, i + 1);
    }
}

/// The end of the declaration name starting at `start`, if one starts
/// there.
fn read_declaration_name(chars: &[char], start: usize) -> (r: Option<usize>)
    ensures
        opt_pos(r) == decl_name_end(chars@, start as int),
{
    if start >= chars.len() || !is_name_start(chars[start]) || (chars[start] as u32) >= 0x10000 {
        return None;
    }
    let mut end = start + 1;
    while end < chars.len() && is_name_char(chars[end]) && (chars[end] as u32) < 0x10000
        invariant
            start < end <= chars@.len(),
            decl_name_run_end(chars@, start + 1) == decl_name_run_end(chars@, end as int),
        decreases chars.len() - end,
    {
        end = end + 1;
    }
    Some(end)
}

/// The declarations of `t` from position `i` on, added to `acc`. Each
/// `<!ENTITY` is read in turn: a parameter entity (`%`) is skipped to
/// its `>`; a quoted value makes an internal entity (an unterminated one
/// ends the reading); a `SYSTEM` or `PUBLIC` tail makes an external
/// entity, or an unparsed one when it carries `NDATA`; anything else
/// declares nothing.
pub open spec fn entity_decls_from(t: Seq<char>, i: int, acc: DeclMaps) -> DeclMaps
    decreases t.len() - i,
{
    if i < 0 || i >= t.len() {
        acc
    } else {
        match first_at(t, i, entity_decl_word()) {
            None => acc,
            Some(f) => {
                proof {
                    lemma_first_at(t, i, entity_decl_word());
                    lemma_skip_spaces(t, f + 8);
                }
                let j = skip_spaces(t, f + 8);
                if j < t.len() && t[j] == '%' {
                    proof {
                        lemma_next_char_pos(t, j, '>');
                    }
                    entity_decls_from(t, past_gt(t, j), acc)
                } else {
                    match decl_name_end(t, j) {
                        None => entity_decls_from(t, after_pos(t, j), acc),
                        Some(after) => {
                            proof {
                                lemma_decl_name_run_end(t, j + 1);
                                lemma_skip_spaces(t, after);
                            }
                            let name = t.subrange(j, after);
                            let j2 = skip_spaces(t, after);
                            if j2 < t.len() && (t[j2] == '"' || t[j2] == '\'') {
                                match next_char_pos(t, j2 + 1, t[j2]) {
                                    None => acc,
                                    Some(q) => {
                                        proof {
                                            lemma_next_char_pos(t, j2 + 1, t[j2]);
                                            lemma_next_char_pos(t, q, '>');
                                        }
                                        entity_decls_from(
                                            t,
                                            past_gt(t, q),
                                            (
                                                acc.0.insert(name, t.subrange(j2 + 1, q)),
                                                acc.1,
                                                acc.2,
                                            ),
                                        )
                                    },
                                }
                            } else {
                                proof {
                                    lemma_next_char_pos(t, j2, '>');
                                }
                                let end = match next_char_pos(t, j2, '>') {
                                    Some(e) => e,
                                    None => t.len() as int,
                                };
                                let tail = t.subrange(j2, end);
                                let next = if (occurs_at(tail, 0, system_word())
                                    || occurs_at(tail, 0, public_word())) {
                                    if ndata_marked(tail) {
                                        (acc.0, acc.1, acc.2.insert(name, Seq::empty()))
                                    } else {
                                        (acc.0, acc.1.insert(name, Seq::empty()), acc.2)
                                    }
                                } else {
                                    acc
                                };
                                entity_decls_from(t, past_gt(t, j2), next)
                            }
                        },
                    }
                }
            },
        }
    }
}

/// The entity declarations of an internal subset.
pub open spec fn doctype_entities(t: Seq<char>) -> DeclMaps {
    entity_decls_from(t, 0, (Map::empty(), Map::empty(), Map::empty()))
}

fn entity_decl_pattern() -> (v: Vec<char>)
    ensures
        v@ == entity_decl_word(),
{
    let v = vec!['<', '!', 'E', 'N', 'T', 'I', 'T', 'Y'];
    proof {
        assert(v@ =~= entity_decl_word());
    }
    v
}

fn system_pattern() -> (v: Vec<char>)
    ensures
        v@ == system_word(),
{
    let v = vec!['S', 'Y', 'S', 'T', 'E', 'M'];
    proof {
        assert(v@ =~= system_word());
    }
    v
}

fn public_pattern() -> (v: Vec<char>)
    ensures
        v@ == public_word(),
{
    let v = vec!['P', 'U', 'B', 'L', 'I', 'C'];
    proof {
        assert(v@ =~= public_word());
    }
    v
}

/// Every general entity declaration of an internal subset. Parameter
/// entity declarations (`<!ENTITY % name ...>`) and the other declaration
/// kinds are recognised and skipped.
pub fn parse_doctype_entities(body: &str) -> (out: DoctypeEntities)
    ensures
        out.maps() == doctype_entities(body@),
        out.wf(),
{
    let chars = chars_of(body);
    doctype_entities_in(&chars)
}

/// `parse_doctype_entities` over characters.
pub fn doctype_entities_in(t: &[char]) -> (out: DoctypeEntities)
    ensures
        out.maps() == doctype_entities(t@),
        out.wf(),
{
    let mut out = DoctypeEntities {
        internal: TextMap::new(),
        external: TextMap::new(),
        unparsed: TextMap::new(),
    };
    proof {
        assert(out.maps() =~~= (Map::empty(), Map::empty(), Map::empty()));
    }
    let decl = entity_decl_pattern();
    let system = system_pattern();
    let public = public_pattern();
    let n = t.len();
    let mut i: usize = 0;
    while i < n
        invariant
            n == t@.len(),
            decl@ == entity_decl_word(),
            system@ == system_word(),
            public@ == public_word(),
            out.wf(),
            entity_decls_from(t@, i as int, out.maps()) == doctype_entities(t@),
        ensures
            out.wf(),
            out.maps() == doctype_entities(t@),
        decreases n - i,
    {
        let found = find_from(t, i, &decl);
        let f = match found {
            None => {
                break;
            },
            Some(f) => f,
        };
        proof {
            lemma_first_at(t@, i as int, entity_decl_word());
            lemma_skip_spaces(t@, f + 8);
        }
        let j = skip_space(t, f + 8);
        if j < n && t[j] == '%' {
            proof {
                lemma_next_char_pos(t@, j as int, '>');
            }
            i = skip_past_gt(t, j);
            continue;
        }
        let after = match read_declaration_name(t, j) {
            None => {
                i = if j >= n {
                    n
                } else {
                    j + 1
                };
                continue;
            },
            Some(after) => after,
        };
        proof {
            lemma_decl_name_run_end(t@, j + 1);
            lemma_skip_spaces(t@, after as int);
        }
        let name = string_of(t, j, after);
        let j2 = skip_space(t, after);
        if j2 < n && (t[j2] == '"' || t[j2] == '\'') {
            let quote = t[j2];
            let q = match find_char(t, j2 + 1, quote) {
                None => {
                    break;
                },
                Some(q) => q,
            };
            proof {
                lemma_next_char_pos(t@, j2 + 1, quote);
            }
            let value = string_of(t, j2 + 1, q);
            let ghost before = out.maps();
            out.internal.insert(name, value);
            proof {
                assert(out.internal@ =~= before.0.insert(t@.subrange(j as int, after as int), t@.subrange(j2 + 1, q as int)));
            }
            proof {
                lemma_next_char_pos(t@, q as int, '>');
            }
            i = skip_past_gt(t, q);
            continue;
        }
        let found_end = find_char(t, j2, '>');
        proof {
            lemma_next_char_pos(t@, j2 as int, '>');
        }
        let end = match found_end {
            Some(e) => e,
            None => n,
        };
        let ghost tail = t@.subrange(j2 as int, end as int);
        let is_system = starts_at(t, j2, &system) && 6 <= end - j2;
        let is_public = starts_at(t, j2, &public) && 6 <= end - j2;
        proof {
            if end - j2 >= 6 {
                assert(tail.subrange(0, 6) =~= t@.subrange(j2 as int, j2 + 6));
            }
        }
        if is_system || is_public {
            let ghost before = out.maps();
            if ndata_in(t, j2, end) {
                out.unparsed.insert(name, String::new());
                proof {
                    assert(out.unparsed@ =~= before.2.insert(t@.subrange(j as int, after as int), Seq::empty()));
                }
            } else {
                out.external.insert(name, String::new());
                proof {
                    assert(out.external@ =~= before.1.insert(t@.subrange(j as int, after as int), Seq::empty()));
                }
            }
        }
        i = match found_end {
            Some(e) => e + 1,
            None => n,
        };
    }
    out
}

} // verus!

verus! {

/// The entries of a table of attribute defaults.
pub type TableEntries = Seq<(Seq<char>, Seq<(Seq<char>, Seq<char>)>)>;

/// The table with `attr` set to `value` under `elem`, the element's own
/// entry created (last) when it is missing.
pub open spec fn with_default(table: TableEntries, elem: Seq<char>, attr: Seq<char>, value: Seq<char>) -> TableEntries {
    let row = match lookup(table, elem) {
        Some(r) => r,
        None => Seq::empty(),
    };
    inserted(table, elem, inserted(row, attr, value))
}

pub open spec fn attlist_word() -> Seq<char> {
    seq!['<', '!', 'A', 'T', 'T', 'L', 'I', 'S', 'T']
}

pub open spec fn notation_word() -> Seq<char> {
    seq!['N', 'O', 'T', 'A', 'T', 'I', 'O', 'N']
}

pub open spec fn required_word() -> Seq<char> {
    seq!['#', 'R', 'E', 'Q', 'U', 'I', 'R', 'E', 'D']
}

pub open spec fn implied_word() -> Seq<char> {
    seq!['#', 'I', 'M', 'P', 'L', 'I', 'E', 'D']
}

pub open spec fn fixed_word() -> Seq<char> {
    seq!['#', 'F', 'I', 'X', 'E', 'D']
}

/// Where the run of ASCII capitals from `j` ends.
pub open spec fn upper_run_end(t: Seq<char>, j: int) -> int
    decreases t.len() - j,
{
    if 0 <= j < t.len() && 'A' <= t[j] <= 'Z' {
        upper_run_end(t, j + 1)
    } else {
        j
    }
}

pub proof fn lemma_upper_run_end(t: Seq<char>, j: int)
    requires
        0 <= j <= t.len(),
    ensures
        j <= upper_run_end(t, j) <= t.len(),
    decreases t.len() - j,
{
    if j < t.len() && 'A' <= t[j] <= 'Z' {
        lemma_upper_run_end(t, j + 1);
    }
}

/// The position after an attribute type starting at `j` (an enumeration
/// `( ... )`, `NOTATION ( ... )`, or a bare identifier), or `None` when
/// an enumeration is never closed.
pub open spec fn after_att_type(t: Seq<char>, j: int) -> Option<int> {
    if j < t.len() && t[j] == '(' {
        match next_char_pos(t, j, ')') {
            Some(c) => Some(c + 1),
            None => None,
        }
    } else if occurs_at(t, j, notation_word()) {
        let k = skip_spaces(t, j + 8);
        if k < t.len() && t[k] == '(' {
            match next_char_pos(t, k, ')') {
                Some(c) => Some(c + 1),
                None => None,
            }
        } else {
            Some(k)
        }
    } else {
        Some(upper_run_end(t, j))
    }
}

pub proof fn lemma_after_att_type(t: Seq<char>, j: int)
    requires
        0 <= j <= t.len(),
    ensures
        after_att_type(t, j) matches Some(k) ==> j <= k <= t.len(),
{
    if j < t.len() && t[j] == '(' {
        lemma_next_char_pos(t, j, ')');
    } else if occurs_at(t, j, notation_word()) {
        lemma_skip_spaces(t, j + 8);
        let k = skip_spaces(t, j + 8);
        if k < t.len() && t[k] == '(' {
            lemma_next_char_pos(t, k, ')');
        }
    } else {
        lemma_upper_run_end(t, j);
    }
}

/// The attribute definitions of the ATTLIST for `elem` from position
/// `j`, up to its `>` or the end: the position reading stopped at, and
/// the table with every literal or `#FIXED` default added. `#REQUIRED`
/// and `#IMPLIED` add nothing; a name that cannot start an attribute is
/// stepped over; an unclosed enumeration or value ends the reading at
/// the end of the text.
pub open spec fn attdefs_from(t: Seq<char>, j: int, elem: Seq<char>, table: TableEntries) -> (int, TableEntries)
    decreases t.len() - j,
{
    if j < 0 || j >= t.len() {
        (j, table)
    } else {
        proof {
            lemma_skip_spaces(t, j);
        }
        let j1 = skip_spaces(t, j);
        if j1 >= t.len() {
            (j1, table)
        } else if t[j1] == '>' {
            (j1 + 1, table)
        } else {
            match name_end(t, j1) {
                None => attdefs_from(t, after_pos(t, j1), elem, table),
                Some(after) => {
                    proof {
                        lemma_name_run_end(t, j1 + 1);
                        lemma_skip_spaces(t, after);
                        lemma_after_att_type(t, skip_spaces(t, after));
                    }
                    let attr = t.subrange(j1, after);
                    let j2 = skip_spaces(t, after);
                    match after_att_type(t, j2) {
                        None => (t.len() as int, table),
                        Some(j3) => {
                            proof {
                                lemma_skip_spaces(t, j3);
                            }
                            let j5 = skip_spaces(t, j3);
                            if occurs_at(t, j5, required_word()) {
                                attdefs_from(t, j5 + 9, elem, table)
                            } else if occurs_at(t, j5, implied_word()) {
                                attdefs_from(t, j5 + 8, elem, table)
                            } else {
                                proof {
                                    lemma_skip_spaces(t, j5 + 6);
                                }
                                let j6 = if occurs_at(t, j5, fixed_word()) {
                                    skip_spaces(t, j5 + 6)
                                } else {
                                    j5
                                };
                                if j6 < t.len() && (t[j6] == '"' || t[j6] == '\'') {
                                    match next_char_pos(t, j6 + 1, t[j6]) {
                                        None => (t.len() as int, table),
                                        Some(q) => {
                                            proof {
                                                lemma_next_char_pos(t, j6 + 1, t[j6]);
                                            }
                                            attdefs_from(
                                                t,
                                                q + 1,
                                                elem,
                                                with_default(
                                                    table,
                                                    elem,
                                                    attr,
                                                    t.subrange(j6 + 1, q),
                                                ),
                                            )
                                        },
                                    }
                                } else {
                                    attdefs_from(t, j6, elem, table)
                                }
                            }
                        },
                    }
                },
            }
        }
    }
}

pub proof fn lemma_attdefs_from_advances(t: Seq<char>, j: int, elem: Seq<char>, table: TableEntries)
    requires
        0 <= j,
    ensures
        j <= attdefs_from(t, j, elem, table).0,
        j <= t.len() ==> attdefs_from(t, j, elem, table).0 <= t.len(),
    decreases t.len() - j,
{
    if j < t.len() {
        lemma_skip_spaces(t, j);
        let j1 = skip_spaces(t, j);
        if j1 < t.len() && t[j1] != '>' {
            match name_end(t, j1) {
                None => lemma_attdefs_from_advances(t, after_pos(t, j1), elem, table),
                Some(after) => {
                    lemma_name_run_end(t, j1 + 1);
                    lemma_skip_spaces(t, after);
                    let j2 = skip_spaces(t, after);
                    lemma_after_att_type(t, j2);
                    match after_att_type(t, j2) {
                        None => {},
                        Some(j3) => {
                            lemma_skip_spaces(t, j3);
                            let j5 = skip_spaces(t, j3);
                            if occurs_at(t, j5, required_word()) {
                                lemma_attdefs_from_advances(t, j5 + 9, elem, table);
                            } else if occurs_at(t, j5, implied_word()) {
                                lemma_attdefs_from_advances(t, j5 + 8, elem, table);
                            } else {
                                lemma_skip_spaces(t, j5 + 6);
                                let j6 = if occurs_at(t, j5, fixed_word()) {
                                    skip_spaces(t, j5 + 6)
                                } else {
                                    j5
                                };
                                if j6 < t.len() && (t[j6] == '"' || t[j6] == '\'') {
                                    lemma_next_char_pos(t, j6 + 1, t[j6]);
                                    match next_char_pos(t, j6 + 1, t[j6]) {
                                        None => {},
                                        Some(q) => {
                                            lemma_attdefs_from_advances(
                                                t,
                                                q + 1,
                                                elem,
                                                with_default(
                                                    table,
                                                    elem,
                                                    t.subrange(j1, after),
                                                    t.subrange(j6 + 1, q),
                                                ),
                                            );
                                        },
                                    }
                                } else {
                                    lemma_attdefs_from_advances(t, j6, elem, table);
                                }
                            }
                        },
                    }
                },
            }
        }
    }
}

/// The ATTLIST declarations of `t` from position `i` on, added to the
/// table: for each `<!ATTLIST` that names an element, its attribute
/// definitions; one that names none is stepped over by a character.
pub open spec fn attlists_from(t: Seq<char>, i: int, table: TableEntries) -> TableEntries
    decreases t.len() - i,
{
    if i < 0 || i >= t.len() {
        table
    } else {
        match first_at(t, i, attlist_word()) {
            None => table,
            Some(f) => {
                proof {
                    lemma_first_at(t, i, attlist_word());
                    lemma_skip_spaces(t, f + 9);
                }
                let j = skip_spaces(t, f + 9);
                match name_end(t, j) {
                    None => attlists_from(t, after_pos(t, j), table),
                    Some(after) => {
                        proof {
                            lemma_name_run_end(t, j + 1);
                            lemma_attdefs_from_advances(t, after, t.subrange(j, after), table);
                            assert(i <= j < after);
                            assert(after <= attdefs_from(t, after, t.subrange(j, after), table).0);
                            assert(attdefs_from(t, after, t.subrange(j, after), table).0 <= t.len());
                        }
                        attlists_from(
                            t,
                            attdefs_from(t, after, t.subrange(j, after), table).0,
                            attdefs_from(t, after, t.subrange(j, after), table).1,
                        )
                    },
                }
            },
        }
    }
}

/// Every ATTLIST default of an internal subset, keyed by element name
/// then attribute name, in order of first declaration.
pub open spec fn doctype_attlists(t: Seq<char>) -> TableEntries {
    attlists_from(t, 0, Seq::empty())
}

} // verus!

verus! {

fn attlist_pattern() -> (v: Vec<char>)
    ensures
        v@ == attlist_word(),
{
    let v = vec!['<', '!', 'A', 'T', 'T', 'L', 'I', 'S', 'T'];
    proof {
        assert(v@ =~= attlist_word());
    }
    v
}

fn notation_pattern() -> (v: Vec<char>)
    ensures
        v@ == notation_word(),
{
    let v = vec!['N', 'O', 'T', 'A', 'T', 'I', 'O', 'N'];
    proof {
        assert(v@ =~= notation_word());
    }
    v
}

fn required_pattern() -> (v: Vec<char>)
    ensures
        v@ == required_word(),
{
    let v = vec!['#', 'R', 'E', 'Q', 'U', 'I', 'R', 'E', 'D'];
    proof {
        assert(v@ =~= required_word());
    }
    v
}

fn implied_pattern() -> (v: Vec<char>)
    ensures
        v@ == implied_word(),
{
    let v = vec!['#', 'I', 'M', 'P', 'L', 'I', 'E', 'D'];
    proof {
        assert(v@ =~= implied_word());
    }
    v
}

fn fixed_pattern() -> (v: Vec<char>)
    ensures
        v@ == fixed_word(),
{
    let v = vec!['#', 'F', 'I', 'X', 'E', 'D'];
    proof {
        assert(v@ =~= fixed_word());
    }
    v
}

/// Set `attr` to `value` under `elem`, creating the element's entry
/// (last) when it is missing.
pub fn add_default(
    table: &mut IndexMap<String, IndexMap<String, String>>,
    elem: &String,
    attr: String,
    value: String,
)
    requires
        keys_unique(table_entries(*old(table))),
    ensures
        table_entries(*final(table)) == with_default(
            table_entries(*old(table)),
            elem@,
            attr@,
            value@,
        ),
        keys_unique(table_entries(*final(table))),
{
    let ghost before = table_entries(*table);
    let mut row = match table_get(table, elem.as_str()) {
        Some(r) => {
            proof {
                lemma_found_is_lookup(before, elem@, str_entries(*r));
            }
            str_map_clone(r)
        },
        None => str_map_new(),
    };
    let ghost row0 = str_entries(row);
    str_map_insert(&mut row, attr, value);
    table_insert(table, elem.clone(), row);
    proof {
        lemma_inserted_unique(before, elem@, str_entries(row));
    }
}

/// The position after an attribute type starting at `j`, as
/// `after_att_type` states it.
fn skip_att_type(t: &[char], j: usize, notation: &Vec<char>) -> (r: Option<usize>)
    requires
        j <= t@.len(),
        notation@ == notation_word(),
    ensures
        opt_pos(r) == after_att_type(t@, j as int),
{
    if j < t.len() && t[j] == '(' {
        let found = find_char(t, j, ')');
        proof {
            lemma_next_char_pos(t@, j as int, ')');
        }
        assert(t@.len() == t.len());
        match found {
            Some(c) => Some(c + 1),
            None => None,
        }
    } else if starts_at(t, j, notation) {
        let k = skip_space(t, j + 8);
        if k < t.len() && t[k] == '(' {
            let found = find_char(t, k, ')');
            proof {
                lemma_next_char_pos(t@, k as int, ')');
            }
            assert(t@.len() == t.len());
            match found {
                Some(c) => Some(c + 1),
                None => None,
            }
        } else {
            Some(k)
        }
    } else {
        let mut k = j;
        while k < t.len() && 'A' <= t[k] && t[k] <= 'Z'
            invariant
                j <= k,
                upper_run_end(t@, k as int) == upper_run_end(t@, j as int),
            decreases t.len() - k,
        {
            k = k + 1;
        }
        Some(k)
    }
}

/// The attribute definitions of one ATTLIST, as `attdefs_from` states
/// them: the position reading stopped at, with the defaults added to the
/// table.
fn attdefs_in(
    t: &[char],
    start: usize,
    elem: &String,
    table: &mut IndexMap<String, IndexMap<String, String>>,
) -> (r: usize)
    requires
        start <= t@.len(),
        keys_unique(table_entries(*old(table))),
    ensures
        (r as int, table_entries(*final(table))) == attdefs_from(
            t@,
            start as int,
            elem@,
            table_entries(*old(table)),
        ),
        keys_unique(table_entries(*final(table))),
{
    let ghost goal = attdefs_from(t@, start as int, elem@, table_entries(*table));
    let notation = notation_pattern();
    let required = required_pattern();
    let implied = implied_pattern();
    let fixed = fixed_pattern();
    let n = t.len();
    let mut j = start;
    loop
        invariant
            n == t@.len(),
            j <= n,
            notation@ == notation_word(),
            required@ == required_word(),
            implied@ == implied_word(),
            fixed@ == fixed_word(),
            keys_unique(table_entries(*table)),
            attdefs_from(t@, j as int, elem@, table_entries(*table)) == goal,
            goal == attdefs_from(t@, start as int, elem@, table_entries(*old(table))),
        decreases n - j,
    {
        if j >= n {
            return j;
        }
        proof {
            lemma_skip_spaces(t@, j as int);
        }
        let j1 = skip_space(t, j);
        if j1 >= n {
            return j1;
        }
        if t[j1] == '>' {
            return j1 + 1;
        }
        let after = match read_name_at(t, j1) {
            None => {
                j = j1 + 1;
                continue;
            },
            Some(after) => after,
        };
        proof {
            lemma_name_run_end(t@, j1 + 1);
            lemma_skip_spaces(t@, after as int);
        }
        let j2 = skip_space(t, after);
        proof {
            lemma_after_att_type(t@, j2 as int);
        }
        let j3 = match skip_att_type(t, j2, &notation) {
            None => {
                return n;
            },
            Some(j3) => j3,
        };
        proof {
            lemma_skip_spaces(t@, j3 as int);
        }
        let j5 = skip_space(t, j3);
        if starts_at(t, j5, &required) {
            j = j5 + 9;
            continue;
        }
        if starts_at(t, j5, &implied) {
            j = j5 + 8;
            continue;
        }
        let j6 = if starts_at(t, j5, &fixed) {
            proof {
                lemma_skip_spaces(t@, j5 + 6);
            }
            skip_space(t, j5 + 6)
        } else {
            j5
        };
        if j6 < n && (t[j6] == '"' || t[j6] == '\'') {
            let quote = t[j6];
            let q = match find_char(t, j6 + 1, quote) {
                None => {
                    return n;
                },
                Some(q) => q,
            };
            proof {
                lemma_next_char_pos(t@, j6 + 1, quote);
            }
            let attr = string_of(t, j1, after);
            let value = string_of(t, j6 + 1, q);
            add_default(table, elem, attr, value);
            j = q + 1;
        } else {
            j = j6;
        }
    }
}

/// Every `<!ATTLIST>` default attribute value of an internal subset,
/// keyed by element name then attribute name. Literal defaults and
/// `#FIXED "value"` defaults are returned; `#REQUIRED` and `#IMPLIED`
/// contribute nothing, having no default value.
pub fn parse_doctype_attlists(body: &str) -> (out: IndexMap<String, IndexMap<String, String>>)
    ensures
        table_entries(out) == doctype_attlists(body@),
        keys_unique(table_entries(out)),
{
    let chars = chars_of(body);
    doctype_attlists_in(&chars)
}

/// `parse_doctype_attlists` over characters.
pub fn doctype_attlists_in(t: &[char]) -> (out: IndexMap<String, IndexMap<String, String>>)
    ensures
        table_entries(out) == doctype_attlists(t@),
        keys_unique(table_entries(out)),
{
    let mut out = table_new();
    let decl = attlist_pattern();
    let n = t.len();
    let mut i: usize = 0;
    while i < n
        invariant
            n == t@.len(),
            decl@ == attlist_word(),
            keys_unique(table_entries(out)),
            attlists_from(t@, i as int, table_entries(out)) == doctype_attlists(t@),
        ensures
            keys_unique(table_entries(out)),
            table_entries(out) == doctype_attlists(t@),
        decreases n - i,
    {
        let f = match find_from(t, i, &decl) {
            None => {
                break;
            },
            Some(f) => f,
        };
        proof {
            lemma_first_at(t@, i as int, attlist_word());
            lemma_skip_spaces(t@, f + 9);
        }
        let j = skip_space(t, f + 9);
        let after = match read_name_at(t, j) {
            None => {
                i = if j >= n {
                    n
                } else {
                    j + 1
                };
                continue;
            },
            Some(after) => after,
        };
        proof {
            lemma_name_run_end(t@, j + 1);
            lemma_attdefs_from_advances(t@, after as int, t@.subrange(j as int, after as int), table_entries(out));
        }
        let elem = string_of(t, j, after);
        i = attdefs_in(t, after, &elem, &mut out);
    }
    out
}

} // verus!

verus! {

/// Text with no `&` decodes to itself.
pub proof fn lemma_plain_text_decodes_to_itself(
    base: Map<Seq<char>, Seq<char>>,
    dtd: Map<Seq<char>, Seq<char>>,
    seen: Set<Seq<char>>,
    t: Seq<char>,
    i: int,
)
    requires
        dtd.dom().finite(),
        0 <= i <= t.len(),
        forall|k: int| i <= k < t.len() ==> t[k] != '&',
    ensures
        expand_from(base, dtd, seen, t, i) == t.subrange(i, t.len() as int),
    decreases t.len() - i,
{
    if i < t.len() {
        lemma_plain_text_decodes_to_itself(base, dtd, seen, t, i + 1);
        assert(seq![t[i]] + t.subrange(i + 1, t.len() as int) =~= t.subrange(i, t.len() as int));
    } else {
        assert(t.subrange(i, t.len() as int) =~= Seq::<char>::empty());
    }
}

} // verus!

verus! {

/// With `strictEntities` off, a reference to an unknown name is never an
/// error: no reference check reports an undeclared entity.
pub proof fn lemma_lenient_references_never_undeclared(
    t: Seq<char>,
    i: int,
    dtd: Set<Seq<char>>,
    declared: Set<Seq<char>>,
    external: Set<Seq<char>>,
    unparsed: Set<Seq<char>>,
    unread: bool,
    in_attr: bool,
)
    ensures
        references_error(t, i, dtd, declared, false, external, unparsed, unread, in_attr) != Some(
            WfError::UndeclaredEntity,
        ),
    decreases t.len() - i,
{
    if 0 <= i < t.len() {
        if t[i] != '&' {
            lemma_lenient_references_never_undeclared(
                t,
                i + 1,
                dtd,
                declared,
                external,
                unparsed,
                unread,
                in_attr,
            );
        } else {
            lemma_next_char_pos(t, i + 1, ';');
            if let Some(semi) = next_char_pos(t, i + 1, ';') {
                lemma_lenient_references_never_undeclared(
                    t,
                    semi + 1,
                    dtd,
                    declared,
                    external,
                    unparsed,
                    unread,
                    in_attr,
                );
            }
        }
    }
}

} // verus!

verus! {

/// Every character of the text lies in the basic multilingual plane.
pub open spec fn in_bmp(n: Seq<char>) -> bool {
    forall|k: int| 0 <= k < n.len() ==> (#[trigger] n[k] as u32) < 0x10000
}

/// Every name the three maps declare lies in the basic multilingual plane.
pub open spec fn names_in_bmp(m: DeclMaps) -> bool {
    &&& forall|n: Seq<char>| #[trigger] m.0.contains_key(n) ==> in_bmp(n)
    &&& forall|n: Seq<char>| #[trigger] m.1.contains_key(n) ==> in_bmp(n)
    &&& forall|n: Seq<char>| #[trigger] m.2.contains_key(n) ==> in_bmp(n)
}

proof fn lemma_decls_from_in_bmp(t: Seq<char>, i: int, acc: DeclMaps)
    requires
        names_in_bmp(acc),
    ensures
        names_in_bmp(entity_decls_from(t, i, acc)),
    decreases t.len() - i,
{
    if 0 <= i < t.len() {
        if let Some(f) = first_at(t, i, entity_decl_word()) {
            lemma_first_at(t, i, entity_decl_word());
            lemma_skip_spaces(t, f + 8);
            let j = skip_spaces(t, f + 8);
            if j < t.len() && t[j] == '%' {
                lemma_next_char_pos(t, j, '>');
                lemma_decls_from_in_bmp(t, past_gt(t, j), acc);
            } else {
                match decl_name_end(t, j) {
                    None => {
                        lemma_decls_from_in_bmp(t, after_pos(t, j), acc);
                    },
                    Some(after) => {
                        lemma_decl_name_run_end(t, j + 1);
                        lemma_skip_spaces(t, after);
                        let name = t.subrange(j, after);
                        assert(in_bmp(name)) by {
                            assert forall|k: int| 0 <= k < name.len() implies (#[trigger] name[k]
                                as u32) < 0x10000 by {
                                if k > 0 {
                                    assert(decl_name_char(t[j + k]));
                                }
                            }
                        }
                        let j2 = skip_spaces(t, after);
                        if j2 < t.len() && (t[j2] == '"' || t[j2] == '\'') {
                            lemma_next_char_pos(t, j2 + 1, t[j2]);
                            if let Some(q) = next_char_pos(t, j2 + 1, t[j2]) {
                                lemma_next_char_pos(t, q, '>');
                                let next = (
                                    acc.0.insert(name, t.subrange(j2 + 1, q)),
                                    acc.1,
                                    acc.2,
                                );
                                lemma_decls_from_in_bmp(t, past_gt(t, q), next);
                            }
                        } else {
                            lemma_next_char_pos(t, j2, '>');
                            let end = match next_char_pos(t, j2, '>') {
                                Some(e) => e,
                                None => t.len() as int,
                            };
                            let tail = t.subrange(j2, end);
                            let next = if (occurs_at(tail, 0, system_word()) || occurs_at(
                                tail,
                                0,
                                public_word(),
                            )) {
                                if ndata_marked(tail) {
                                    (acc.0, acc.1, acc.2.insert(name, Seq::empty()))
                                } else {
                                    (acc.0, acc.1.insert(name, Seq::empty()), acc.2)
                                }
                            } else {
                                acc
                            };
                            lemma_decls_from_in_bmp(t, past_gt(t, j2), next);
                        }
                    },
                }
            }
        }
    }
}

/// A declaration name is read a code unit of the basic multilingual plane
/// at a time, so an entity whose name holds a character beyond U+FFFF is
/// never declared.
pub proof fn lemma_declared_names_in_bmp(t: Seq<char>)
    ensures
        names_in_bmp(doctype_entities(t)),
{
    lemma_decls_from_in_bmp(t, 0, (Map::empty(), Map::empty(), Map::empty()));
}

} // verus!

verus! {

/// The next `c` at or after `j` is at `k` when `t[k]` is `c` and nothing
/// between is.
pub proof fn lemma_next_char_at(t: Seq<char>, j: int, k: int, c: char)
    requires
        0 <= j <= k < t.len(),
        t[k] == c,
        forall|m: int| j <= m < k ==> t[m] != c,
    ensures
        next_char_pos(t, j, c) == Some(k),
    decreases k - j,
{
    if j < k {
        lemma_next_char_at(t, j + 1, k, c);
    }
}

/// A hexadecimal digit: `0`-`9`, `a`-`f` or `A`-`F`.
pub open spec fn is_hex_digit(c: char) -> bool {
    ('0' <= c <= '9') || ('a' <= c <= 'f') || ('A' <= c <= 'F')
}

/// A decimal digit.
pub open spec fn is_decimal_digit(c: char) -> bool {
    '0' <= c <= '9'
}

/// Every hexadecimal character reference `&#x` digits `;` is well
/// formed: the reference check finds nothing wrong with it, whatever the
/// declarations and settings.
pub proof fn lemma_hex_reference_passes(
    ds: Seq<char>,
    dtd: Set<Seq<char>>,
    declared: Set<Seq<char>>,
    strict: bool,
    external: Set<Seq<char>>,
    unparsed: Set<Seq<char>>,
    unread: bool,
    in_attr: bool,
)
    requires
        ds.len() > 0,
        forall|k: int| 0 <= k < ds.len() ==> is_hex_digit(#[trigger] ds[k]),
    ensures
        references_error(
            seq!['&', '#', 'x'] + ds + seq![';'],
            0,
            dtd,
            declared,
            strict,
            external,
            unparsed,
            unread,
            in_attr,
        ) is None,
{
    let t = seq!['&', '#', 'x'] + ds + seq![';'];
    let semi: int = 3 + ds.len() as int;
    assert forall|m: int| 1 <= m < semi implies t[m] != ';' by {
        if m >= 3 {
            assert(t[m] == ds[m - 3]);
        }
    }
    lemma_next_char_at(t, 1, semi, ';');
    let r = t.subrange(1, semi);
    assert(r.subrange(2, r.len() as int) =~= ds);
    assert(all_in(ds, RefClass::Hex));
    assert(references_error(t, semi + 1, dtd, declared, strict, external, unparsed, unread, in_attr)
        is None);
}

/// Every decimal character reference `&#` digits `;` is well formed.
pub proof fn lemma_decimal_reference_passes(
    ds: Seq<char>,
    dtd: Set<Seq<char>>,
    declared: Set<Seq<char>>,
    strict: bool,
    external: Set<Seq<char>>,
    unparsed: Set<Seq<char>>,
    unread: bool,
    in_attr: bool,
)
    requires
        ds.len() > 0,
        forall|k: int| 0 <= k < ds.len() ==> is_decimal_digit(#[trigger] ds[k]),
    ensures
        references_error(
            seq!['&', '#'] + ds + seq![';'],
            0,
            dtd,
            declared,
            strict,
            external,
            unparsed,
            unread,
            in_attr,
        ) is None,
{
    let t = seq!['&', '#'] + ds + seq![';'];
    let semi: int = 2 + ds.len() as int;
    assert forall|m: int| 1 <= m < semi implies t[m] != ';' by {
        if m >= 2 {
            assert(t[m] == ds[m - 2]);
        }
    }
    lemma_next_char_at(t, 1, semi, ';');
    let r = t.subrange(1, semi);
    assert(r.subrange(1, r.len() as int) =~= ds);
    assert(r[1] != 'x');
    assert(all_in(ds, RefClass::Dec));
    assert(references_error(t, semi + 1, dtd, declared, strict, external, unparsed, unread, in_attr)
        is None);
}

} // verus!

verus! {

/// A run of class characters from `i` ends at `e` when every character
/// before `e` is in the class and the one at `e` (if any) is not.
pub proof fn lemma_run_end_at(t: Seq<char>, i: int, e: int, k: RefClass)
    requires
        0 <= i <= e <= t.len(),
        forall|m: int| i <= m < e ==> in_class(k, #[trigger] t[m]),
        e == t.len() || !in_class(k, t[e]),
    ensures
        run_end(t, i, k) == e,
    decreases e - i,
{
    if i < e {
        lemma_run_end_at(t, i + 1, e, k);
    }
}

/// A named reference `&n;` to a name the base map declares decodes to
/// the base text of that name.
proof fn lemma_named_reference_decodes(
    base: Map<Seq<char>, Seq<char>>,
    dtd: Map<Seq<char>, Seq<char>>,
    seen: Set<Seq<char>>,
    n: Seq<char>,
)
    requires
        dtd.dom().finite(),
        n.len() > 0,
        ('a' <= n[0] <= 'z') || ('A' <= n[0] <= 'Z'),
        forall|m: int| 0 <= m < n.len() ==> ('a' <= #[trigger] n[m] <= 'z') || ('A' <= n[m] <= 'Z'),
        base.contains_key(n),
    ensures
        expand_from(base, dtd, seen, seq!['&'] + n + seq![';'], 0) == base[n],
{
    let t = seq!['&'] + n + seq![';'];
    let e: int = n.len() as int + 1;
    assert forall|m: int| 2 <= m < e implies in_class(RefClass::Name, #[trigger] t[m]) by {
        assert(t[m] == n[m - 1]);
    }
    lemma_run_end_at(t, 2, e, RefClass::Name);
    assert(t[1] == n[0]);
    assert(entity_match_end(t, 0) == Some(e + 1));
    assert(t.subrange(1, e) =~= n);
    assert(expand_from(base, dtd, seen, t, e + 1) == Seq::<char>::empty());
    assert(base[n] + Seq::<char>::empty() =~= base[n]);
}

/// The five predefined entities decode to their XML 1.0 4.6 characters:
/// `&quot;` to `"`, `&apos;` to `'`, `&amp;` to `&`, `&lt;` to `<` and
/// `&gt;` to `>`, with any custom entities that do not redefine them and
/// any DOCTYPE entities.
pub proof fn lemma_predefined_entities_decode(
    custom: Seq<(Seq<char>, Seq<char>)>,
    dtd: Map<Seq<char>, Seq<char>>,
    seen: Set<Seq<char>>,
)
    requires
        dtd.dom().finite(),
        !entries_map(custom).contains_key(seq!['q', 'u', 'o', 't']),
        !entries_map(custom).contains_key(seq!['a', 'p', 'o', 's']),
        !entries_map(custom).contains_key(seq!['a', 'm', 'p']),
        !entries_map(custom).contains_key(seq!['l', 't']),
        !entries_map(custom).contains_key(seq!['g', 't']),
    ensures
        ({
            let base = predefined_entities().union_prefer_right(entries_map(custom));
            &&& expand_from(base, dtd, seen, seq!['&', 'q', 'u', 'o', 't', ';'], 0) == seq!['"']
            &&& expand_from(base, dtd, seen, seq!['&', 'a', 'p', 'o', 's', ';'], 0) == seq!['\'']
            &&& expand_from(base, dtd, seen, seq!['&', 'a', 'm', 'p', ';'], 0) == seq!['&']
            &&& expand_from(base, dtd, seen, seq!['&', 'l', 't', ';'], 0) == seq!['<']
            &&& expand_from(base, dtd, seen, seq!['&', 'g', 't', ';'], 0) == seq!['>']
        }),
{
    let base = predefined_entities().union_prefer_right(entries_map(custom));
    let quot = seq!['q', 'u', 'o', 't'];
    let apos = seq!['a', 'p', 'o', 's'];
    let amp = seq!['a', 'm', 'p'];
    let lt = seq!['l', 't'];
    let gt = seq!['g', 't'];
    lemma_named_reference_decodes(base, dtd, seen, quot);
    lemma_named_reference_decodes(base, dtd, seen, apos);
    lemma_named_reference_decodes(base, dtd, seen, amp);
    lemma_named_reference_decodes(base, dtd, seen, lt);
    lemma_named_reference_decodes(base, dtd, seen, gt);
    assert(seq!['&'] + quot + seq![';'] =~= seq!['&', 'q', 'u', 'o', 't', ';']);
    assert(seq!['&'] + apos + seq![';'] =~= seq!['&', 'a', 'p', 'o', 's', ';']);
    assert(seq!['&'] + amp + seq![';'] =~= seq!['&', 'a', 'm', 'p', ';']);
    assert(seq!['&'] + lt + seq![';'] =~= seq!['&', 'l', 't', ';']);
    assert(seq!['&'] + gt + seq![';'] =~= seq!['&', 'g', 't', ';']);
}

} // verus!

verus! {

/// The run of declaration-name characters from `i` ends at `e` when every
/// character before `e` is one and the one at `e` (if any) is not.
proof fn lemma_decl_name_run_end_at(t: Seq<char>, i: int, e: int)
    requires
        0 <= i <= e <= t.len(),
        forall|m: int| i <= m < e ==> decl_name_char(#[trigger] t[m]),
        e == t.len() || !decl_name_char(t[e]),
    ensures
        decl_name_run_end(t, i) == e,
    decreases e - i,
{
    if i < e {
        lemma_decl_name_run_end_at(t, i + 1, e);
    }
}

/// White space from `j` runs to `e` when every character before `e` is
/// white space and the one at `e` (if any) is not.
proof fn lemma_skip_spaces_at(t: Seq<char>, j: int, e: int)
    requires
        0 <= j <= e <= t.len(),
        forall|m: int| j <= m < e ==> space_char(#[trigger] t[m]),
        e == t.len() || !space_char(t[e]),
    ensures
        skip_spaces(t, j) == e,
    decreases e - j,
{
    if j < e {
        lemma_skip_spaces_at(t, j + 1, e);
    }
}

/// An internal entity declaration `<!ENTITY n "v">` or `<!ENTITY n 'v'>`
/// declares `n` with the text `v`, in either quoting, and declares
/// nothing else.
pub proof fn lemma_quoted_entity_declares(n: Seq<char>, v: Seq<char>, q: char)
    requires
        q == '"' || q == '\'',
        n.len() > 0,
        name_start_char(n[0]),
        (n[0] as u32) < 0x10000,
        forall|m: int| 1 <= m < n.len() ==> decl_name_char(#[trigger] n[m]),
        forall|m: int| 0 <= m < v.len() ==> #[trigger] v[m] != q,
    ensures
        ({
            let t = seq!['<', '!', 'E', 'N', 'T', 'I', 'T', 'Y', ' '] + n + seq![' ', q] + v + seq![
                q,
                '>',
            ];
            doctype_entities(t) == (
                Map::<Seq<char>, Seq<char>>::empty().insert(n, v),
                Map::<Seq<char>, Seq<char>>::empty(),
                Map::<Seq<char>, Seq<char>>::empty(),
            )
        }),
{
    let t = seq!['<', '!', 'E', 'N', 'T', 'I', 'T', 'Y', ' '] + n + seq![' ', q] + v + seq![q, '>'];
    let nl = n.len() as int;
    let vl = v.len() as int;
    assert(t.len() == 13 + nl + vl);
    assert(t.subrange(0, 8) =~= entity_decl_word());
    assert(occurs_at(t, 0, entity_decl_word()));
    assert(first_at(t, 0, entity_decl_word()) == Some(0int));
    assert(t[8] == ' ');
    assert(t[9] == n[0]);
    lemma_skip_spaces_at(t, 8, 9);
    assert forall|m: int| 10 <= m < 9 + nl implies decl_name_char(#[trigger] t[m]) by {
        assert(t[m] == n[m - 9]);
    }
    assert(t[9 + nl] == ' ');
    lemma_decl_name_run_end_at(t, 10, 9 + nl);
    assert(decl_name_end(t, 9) == Some(9 + nl));
    assert(t[10 + nl] == q);
    lemma_skip_spaces_at(t, 9 + nl, 10 + nl);
    let j2 = 10 + nl;
    let qpos = 11 + nl + vl;
    assert forall|m: int| j2 + 1 <= m < qpos implies t[m] != q by {
        assert(t[m] == v[m - j2 - 1]);
    }
    assert(t[qpos] == q);
    lemma_next_char_at(t, j2 + 1, qpos, q);
    assert(t[qpos + 1] == '>');
    lemma_next_char_at(t, qpos, qpos + 1, '>');
    assert(past_gt(t, qpos) == t.len());
    assert(t.subrange(9, 9 + nl) =~= n);
    assert(t.subrange(j2 + 1, qpos) =~= v);
    let empty = Map::<Seq<char>, Seq<char>>::empty();
    assert(entity_decls_from(t, t.len() as int, (empty.insert(n, v), empty, empty)) == (
        empty.insert(n, v),
        empty,
        empty,
    ));
}

} // verus!
