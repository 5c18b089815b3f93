//! Reading text: characters at UTF-8 byte offsets, and the character
//! sequences the scanners work on.
use vstd::prelude::*;
use vstd::string::StringSliceAdditionalSpecFns;
use vstd::utf8::*;

use crate::bom::{lemma_lenient_step_on_valid, lenient_step};

verus! {

broadcast use vstd::seq::group_seq_axioms;

/// An optional position as an integer.
pub open spec fn opt_pos(o: Option<usize>) -> Option<int> {
    match o {
        Some(x) => Some(x as int),
        None => None,
    }
}

/// The character whose encoding starts at byte offset `i` of `b`.
pub open spec fn char_at(b: Seq<u8>, i: int) -> char {
    decode_first_scalar(b.subrange(i, b.len() as int)) as char
}

/// The number of bytes of the character starting at byte offset `i`.
pub open spec fn width_at(b: Seq<u8>, i: int) -> int {
    length_of_first_scalar(b.subrange(i, b.len() as int))
}

/// The text the bytes `from..to` of `b` spell.
pub open spec fn text_between(b: Seq<u8>, from: int, to: int) -> Seq<char> {
    vstd::utf8::decode_utf8(b.subrange(from, to))
}

/// A boundary of well-formed UTF-8 splits it into two well-formed halves
/// and is a boundary of any well-formed range around it.
pub proof fn lemma_sub_boundary(b: Seq<u8>, a: int, m: int, c: int)
    requires
        valid_utf8(b),
        0 <= a <= m <= c <= b.len(),
        is_char_boundary(b, a),
        is_char_boundary(b, m),
        is_char_boundary(b, c),
    ensures
        valid_utf8(b.subrange(a, c)),
        is_char_boundary(b.subrange(a, c), m - a),
        text_between(b, a, c) == text_between(b, a, m) + text_between(b, m, c),
{
    broadcast use vstd::utf8::group_utf8_lib;

    let tail = b.subrange(a, b.len() as int);
    valid_utf8_split(b, a);
    assert(valid_utf8(tail));
    let cc = c - a;
    if cc < tail.len() {
        assert(tail[cc] == b[c]);
        is_char_boundary_iff_not_is_continuation_byte(b, c);
        is_char_boundary_iff_not_is_continuation_byte(tail, cc);
    } else {
        is_char_boundary_start_end_of_seq(tail);
    }
    valid_utf8_split(tail, cc);
    assert(tail.subrange(0, cc) =~= b.subrange(a, c));
    let mid = b.subrange(a, c);
    let mm = m - a;
    if mm < mid.len() {
        assert(mid[mm] == b[m]);
        is_char_boundary_iff_not_is_continuation_byte(b, m);
        is_char_boundary_iff_not_is_continuation_byte(mid, mm);
    } else {
        is_char_boundary_start_end_of_seq(mid);
    }
    decode_utf8_split(mid, mm);
    assert(mid.subrange(0, mm) =~= b.subrange(a, m));
    assert(mid.subrange(mm, mid.len() as int) =~= b.subrange(m, c));
}

/// The character at a boundary: its width keeps inside the bytes, the
/// offset after it is a boundary, and its bytes spell just that character.
pub proof fn lemma_char_step(b: Seq<u8>, i: int)
    requires
        valid_utf8(b),
        0 <= i < b.len(),
        is_char_boundary(b, i),
    ensures
        1 <= width_at(b, i) <= 4,
        i + width_at(b, i) <= b.len(),
        is_char_boundary(b, i + width_at(b, i)),
        text_between(b, i, i + width_at(b, i)) == seq![char_at(b, i)],
        valid_first_scalar(b.subrange(i, b.len() as int)),
{
    broadcast use vstd::utf8::group_utf8_lib;

    let tail = b.subrange(i, b.len() as int);
    valid_utf8_split(b, i);
    let w = width_at(b, i);
    assert(valid_first_scalar(tail));
    let rest = pop_first_scalar(tail);
    assert(valid_utf8(rest));
    let e = i + w;
    if e < b.len() {
        assert(rest[0] == b[e]);
        assert(valid_first_scalar(rest));
        is_char_boundary_iff_not_is_continuation_byte(b, e);
    } else {
        is_char_boundary_start_end_of_seq(b);
    }
    let one = b.subrange(i, e);
    assert(one =~= tail.subrange(0, w));
    assert(valid_first_scalar(one));
    assert(decode_first_scalar(one) == decode_first_scalar(tail));
    assert(pop_first_scalar(one) =~= Seq::<u8>::empty());
    reveal_with_fuel(vstd::utf8::valid_utf8, 2);
    assert(valid_utf8(one));
    reveal_with_fuel(vstd::utf8::decode_utf8, 2);
    assert(vstd::utf8::decode_utf8(one) =~= seq![decode_first_scalar(one) as char]);
}

/// The character starting at byte offset `at` of well-formed UTF-8, and
/// the offset just after it.
pub fn char_at_byte(bytes: &[u8], at: usize) -> (r: (char, usize))
    requires
        valid_utf8(bytes@),
        at < bytes@.len(),
        is_char_boundary(bytes@, at as int),
    ensures
        r.0 == char_at(bytes@, at as int),
        r.1 == at + width_at(bytes@, at as int),
{
    proof {
        lemma_char_step(bytes@, at as int);
        lemma_lenient_step_on_valid(bytes@.subrange(at as int, bytes@.len() as int));
    }
    lenient_step(bytes, at)
}

/// The part of `s` between two byte boundaries.
pub fn slice_between(s: &str, from: usize, to: usize) -> (r: &str)
    requires
        from <= to <= s.spec_bytes().len(),
        is_char_boundary(s.spec_bytes(), from as int),
        is_char_boundary(s.spec_bytes(), to as int),
    ensures
        r.spec_bytes() == s.spec_bytes().subrange(from as int, to as int),
        r@ == text_between(s.spec_bytes(), from as int, to as int),
{
    proof {
        broadcast use vstd::utf8::group_utf8_lib;

    }
    let ghost b = s.spec_bytes();
    let (_, tail) = s.split_at(from);
    proof {
        valid_utf8_split(b, from as int);
        let t = tail.spec_bytes();
        let k = (to - from) as int;
        if k < t.len() {
            assert(t[k] == b[to as int]);
            is_char_boundary_iff_not_is_continuation_byte(b, to as int);
            is_char_boundary_iff_not_is_continuation_byte(t, k);
        } else {
            is_char_boundary_start_end_of_seq(t);
        }
    }
    let (r, _) = tail.split_at(to - from);
    proof {
        assert(r.spec_bytes() =~= b.subrange(from as int, to as int));
        assert(vstd::utf8::decode_utf8(encode_utf8(r@)) == r@);
    }
    r
}

/// The characters of a string, in order.
pub fn chars_of(s: &str) -> (v: Vec<char>)
    ensures
        v@ == s@,
{
    let mut v: Vec<char> = Vec::new();
    for c in it: s.chars()
        invariant
            v@ == it.seq().take(it.index() as int),
            it.seq() == s@,
    {
        v.push(c);
    }
    v
}

/// A string holding `chars[from..to]`.
pub fn string_of(chars: &[char], from: usize, to: usize) -> (s: String)
    requires
        from <= to <= chars@.len(),
    ensures
        s@ == chars@.subrange(from as int, to as int),
{
    let mut s = String::new();
    let mut i = from;
    while i < to
        invariant
            from <= i <= to <= chars@.len(),
            s@ == chars@.subrange(from as int, i as int),
        decreases to - i,
    {
        crate::stdx::push_char(&mut s, chars[i]);
        proof {
            assert(chars@.subrange(from as int, i + 1) =~= chars@.subrange(from as int, i as int).push(
                chars@[i as int],
            ));
        }
        i = i + 1;
    }
    s
}

/// Whether `pat` occurs in `chars` at position `at`.
pub open spec fn occurs_at(chars: Seq<char>, at: int, pat: Seq<char>) -> bool {
    0 <= at && at + pat.len() <= chars.len() && chars.subrange(at, at + pat.len()) == pat
}

/// Whether `pat` occurs in `chars` at position `at`.
pub fn starts_at(chars: &[char], at: usize, pat: &[char]) -> (r: bool)
    ensures
        r == occurs_at(chars@, at as int, pat@),
{
    if at > chars.len() || pat.len() > chars.len() - at {
        return false;
    }
    let mut k: usize = 0;
    while k < pat.len()
        invariant
            at + pat@.len() <= chars@.len(),
            chars@.len() == chars.len(),
            k <= pat@.len(),
            forall|j: int| 0 <= j < k ==> chars@[at + j] == pat@[j],
        decreases pat.len() - k,
    {
        if chars[at + k] != pat[k] {
            proof {
                assert(chars@.subrange(at as int, at + pat@.len())[k as int] != pat@[k as int]);
            }
            return false;
        }
        k = k + 1;
    }
    proof {
        assert(chars@.subrange(at as int, at + pat@.len()) =~= pat@);
    }
    true
}

/// The first position at or after `i` where `pat` occurs.
pub open spec fn first_at(t: Seq<char>, i: int, pat: Seq<char>) -> Option<int>
    decreases t.len() + 1 - i,
{
    if i < 0 || i + pat.len() > t.len() {
        None
    } else if occurs_at(t, i, pat) {
        Some(i)
    } else {
        first_at(t, i + 1, pat)
    }
}

pub proof fn lemma_first_at(t: Seq<char>, i: int, pat: Seq<char>)
    requires
        0 <= i,
    ensures
        first_at(t, i, pat) matches Some(k) ==> i <= k && k + pat.len() <= t.len() && occurs_at(
            t,
            k,
            pat,
        ),
    decreases t.len() + 1 - i,
{
    if i + pat.len() <= t.len() && !occurs_at(t, i, pat) {
        lemma_first_at(t, i + 1, pat);
    }
}

/// The first position at or after `from` where `pat` occurs, if any.
pub fn find_from(chars: &[char], from: usize, pat: &[char]) -> (r: Option<usize>)
    requires
        pat@.len() > 0,
    ensures
        opt_pos(r) == first_at(chars@, from as int, pat@),
{
    let mut k = from;
    while k <= chars.len() && pat.len() <= chars.len() - k
        invariant
            from <= k,
            pat@.len() > 0,
            first_at(chars@, k as int, pat@) == first_at(chars@, from as int, pat@),
        decreases chars.len() + 1 - k,
    {
        if starts_at(chars, k, pat) {
            return Some(k);
        }
        k = k + 1;
    }
    None
}

} // verus!

verus! {

/// Whether two strings hold the same text.
pub fn str_eq(a: &str, b: &str) -> (r: bool)
    ensures
        r == (a@ == b@),
{
    let x = chars_of(a);
    let y = chars_of(b);
    if x.len() != y.len() {
        return false;
    }
    let mut i: usize = 0;
    while i < x.len()
        invariant
            x@ == a@,
            y@ == b@,
            x@.len() == y@.len(),
            i <= x@.len(),
            forall|k: int| 0 <= k < i ==> x@[k] == y@[k],
        decreases x.len() - i,
    {
        if x[i] != y[i] {
            proof {
                assert(a@[i as int] != b@[i as int]);
            }
            return false;
        }
        i = i + 1;
    }
    proof {
        assert(x@ =~= y@);
    }
    true
}

/// A copy of a string.
pub fn copy_str(s: &str) -> (r: String)
    ensures
        r@ == s@,
{
    let chars = chars_of(s);
    proof {
        assert(chars@.subrange(0, chars@.len() as int) =~= chars@);
    }
    string_of(&chars, 0, chars.len())
}

} // verus!

verus! {

/// A copy of `chars[from..to]`.
pub fn sub_chars(chars: &[char], from: usize, to: usize) -> (v: Vec<char>)
    requires
        from <= to <= chars@.len(),
    ensures
        v@ == chars@.subrange(from as int, to as int),
{
    let mut v: Vec<char> = Vec::new();
    let mut i = from;
    while i < to
        invariant
            from <= i <= to <= chars@.len(),
            v@ == chars@.subrange(from as int, i as int),
        decreases to - i,
    {
        v.push(chars[i]);
        proof {
            assert(chars@.subrange(from as int, i + 1) =~= chars@.subrange(from as int, i as int).push(
                chars@[i as int],
            ));
        }
        i = i + 1;
    }
    v
}

} // verus!
