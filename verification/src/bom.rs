//! Byte-order-mark handling and transcoding of raw document bytes.
//!
//! `decode_bom` reads the encoding signature at the front of a byte
//! sequence (UTF-32 BE/LE, UTF-16 BE/LE, UTF-8) and transcodes the rest;
//! without a signature the bytes are read as UTF-8. Decoding never fails:
//! a malformed UTF-8 sequence (a lead byte without its continuation
//! bytes, an overlong form, a code above U+10FFFF) keeps each of its
//! bytes as the character with that code, and a unit that is not a Unicode scalar value becomes
//! U+FFFF, which (like the surrogate it stands for) is neither an XML
//! `Char` nor a `NameChar`.
use vstd::prelude::*;
use vstd::string::StringSliceAdditionalSpecFns;
use vstd::utf8::*;

use crate::stdx::{char_from_u32, push_char};

verus! {

broadcast use vstd::seq::group_seq_axioms;

/// The stand-in for a code that is not a Unicode scalar value: U+FFFF.
/// U+FFFD would not do, being a legal name character.
pub open spec fn non_scalar_char() -> char {
    '\u{FFFF}'
}

/// The character a code stands for: itself when it is a Unicode scalar
/// value, U+FFFF otherwise.
pub open spec fn scalar_or_nonchar(code: u32) -> char {
    if is_scalar(code) {
        code as char
    } else {
        non_scalar_char()
    }
}

/// The width a UTF-8 lead byte announces, when enough bytes follow it to
/// hold that many; 1 for an ASCII byte and for anything that cannot lead.
pub open spec fn announced_width(b: Seq<u8>) -> int
    recommends
        b.len() > 0,
{
    let lead = b[0];
    if lead < 0x80 {
        1
    } else if is_leading_byte_width_2(lead) && b.len() >= 2 {
        2
    } else if is_leading_byte_width_3(lead) && b.len() >= 3 {
        3
    } else if is_leading_byte_width_4(lead) && b.len() >= 4 {
        4
    } else {
        1
    }
}

/// The code the bytes at the front of `b` spell under the announced
/// width; `u32::MAX` when the lead byte cannot start a sequence here.
pub open spec fn announced_code(b: Seq<u8>) -> u32
    recommends
        b.len() > 0,
{
    let lead = b[0];
    if lead < 0x80 {
        lead as u32
    } else if is_leading_byte_width_2(lead) && b.len() >= 2 {
        codepoint_width_2(lead, b[1])
    } else if is_leading_byte_width_3(lead) && b.len() >= 3 {
        codepoint_width_3(lead, b[1], b[2])
    } else if is_leading_byte_width_4(lead) && b.len() >= 4 {
        codepoint_width_4(lead, b[1], b[2], b[3])
    } else {
        u32::MAX
    }
}

/// Whether the bytes at the front of `b` form one well-formed sequence:
/// an ASCII byte, or a lead byte followed by as many continuation bytes
/// (0x80 to 0xBF) as it announces, spelling a code in the range of that
/// width (no overlong form, nothing above U+10FFFF). A surrogate code
/// counts as a sequence here; it decodes to U+FFFF.
pub open spec fn sequence_ok(b: Seq<u8>) -> bool
    recommends
        b.len() > 0,
{
    let lead = b[0];
    if lead < 0x80 {
        true
    } else if is_leading_byte_width_2(lead) {
        &&& b.len() >= 2
        &&& is_continuation_byte(b[1])
        &&& 0x80 <= codepoint_width_2(lead, b[1])
    } else if is_leading_byte_width_3(lead) {
        &&& b.len() >= 3
        &&& is_continuation_byte(b[1])
        &&& is_continuation_byte(b[2])
        &&& 0x800 <= codepoint_width_3(lead, b[1], b[2])
    } else if is_leading_byte_width_4(lead) {
        &&& b.len() >= 4
        &&& is_continuation_byte(b[1])
        &&& is_continuation_byte(b[2])
        &&& is_continuation_byte(b[3])
        &&& 0x10000 <= codepoint_width_4(lead, b[1], b[2], b[3]) <= 0x10ffff
    } else {
        false
    }
}

/// How many bytes one step of lenient decoding consumes: the whole
/// sequence when it is well formed, otherwise the lead byte alone.
pub open spec fn lenient_width(b: Seq<u8>) -> int
    recommends
        b.len() > 0,
{
    if sequence_ok(b) {
        announced_width(b)
    } else {
        1
    }
}

/// The character one step of lenient decoding yields: the code of a
/// well-formed sequence (U+FFFF when it is a surrogate), otherwise the
/// lead byte as the character with its own code.
pub open spec fn lenient_char(b: Seq<u8>) -> char
    recommends
        b.len() > 0,
{
    if sequence_ok(b) {
        scalar_or_nonchar(announced_code(b))
    } else {
        b[0] as char
    }
}

pub proof fn lemma_lenient_width(b: Seq<u8>)
    requires
        b.len() > 0,
    ensures
        1 <= lenient_width(b) <= b.len(),
        1 <= announced_width(b) <= 4,
{
}

/// Lenient UTF-8 decoding of a whole byte sequence.
pub open spec fn lenient_utf8(b: Seq<u8>) -> Seq<char>
    decreases b.len(),
{
    if b.len() == 0 {
        seq![]
    } else {
        proof {
            lemma_lenient_width(b);
        }
        seq![lenient_char(b)] + lenient_utf8(b.subrange(lenient_width(b), b.len() as int))
    }
}

/// The 16-bit units of `b`, two bytes each in the given byte order; a
/// trailing odd byte is dropped.
pub open spec fn utf16_units(b: Seq<u8>, big: bool) -> Seq<u16> {
    Seq::new(
        (b.len() / 2) as nat,
        |k: int|
            if big {
                (b[2 * k] as int * 256 + b[2 * k + 1] as int) as u16
            } else {
                (b[2 * k + 1] as int * 256 + b[2 * k] as int) as u16
            },
    )
}

pub open spec fn is_high_surrogate(u: u16) -> bool {
    0xD800 <= u <= 0xDBFF
}

pub open spec fn is_low_surrogate(u: u16) -> bool {
    0xDC00 <= u <= 0xDFFF
}

/// The scalar value a surrogate pair encodes.
pub open spec fn pair_code(high: u16, low: u16) -> u32 {
    (0x10000 + (high as int - 0xD800) * 0x400 + (low as int - 0xDC00)) as u32
}

/// UTF-16 decoding of a unit sequence: a high surrogate followed by a low
/// one is a pair, any other surrogate is unpaired and becomes U+FFFF.
pub open spec fn utf16_chars(u: Seq<u16>) -> Seq<char>
    decreases u.len(),
{
    if u.len() == 0 {
        seq![]
    } else if u.len() >= 2 && is_high_surrogate(u[0]) && is_low_surrogate(u[1]) {
        seq![pair_code(u[0], u[1]) as char] + utf16_chars(u.subrange(2, u.len() as int))
    } else if is_high_surrogate(u[0]) || is_low_surrogate(u[0]) {
        seq![non_scalar_char()] + utf16_chars(u.subrange(1, u.len() as int))
    } else {
        seq![(u[0] as u32) as char] + utf16_chars(u.subrange(1, u.len() as int))
    }
}

/// The code of the `k`th four-byte unit of `b` in the given byte order.
pub open spec fn utf32_code(b: Seq<u8>, k: int, big: bool) -> u32 {
    if big {
        (b[4 * k] as int * 0x1000000 + b[4 * k + 1] as int * 0x10000 + b[4 * k + 2] as int * 0x100
            + b[4 * k + 3] as int) as u32
    } else {
        (b[4 * k + 3] as int * 0x1000000 + b[4 * k + 2] as int * 0x10000 + b[4 * k + 1] as int
            * 0x100 + b[4 * k] as int) as u32
    }
}

/// UTF-32 decoding: one character per whole four-byte unit, U+FFFF for a
/// unit that is not a scalar value; a trailing partial unit is dropped.
pub open spec fn utf32_chars(b: Seq<u8>, big: bool) -> Seq<char> {
    Seq::new((b.len() / 4) as nat, |k: int| scalar_or_nonchar(utf32_code(b, k, big)))
}

pub open spec fn starts_with_utf32_be_mark(b: Seq<u8>) -> bool {
    b.len() >= 4 && b[0] == 0x00 && b[1] == 0x00 && b[2] == 0xfe && b[3] == 0xff
}

pub open spec fn starts_with_utf32_le_mark(b: Seq<u8>) -> bool {
    b.len() >= 4 && b[0] == 0xff && b[1] == 0xfe && b[2] == 0x00 && b[3] == 0x00
}

pub open spec fn starts_with_utf16_be_mark(b: Seq<u8>) -> bool {
    b.len() >= 2 && b[0] == 0xfe && b[1] == 0xff
}

pub open spec fn starts_with_utf16_le_mark(b: Seq<u8>) -> bool {
    b.len() >= 2 && b[0] == 0xff && b[1] == 0xfe
}

pub open spec fn starts_with_utf8_mark(b: Seq<u8>) -> bool {
    b.len() >= 3 && b[0] == 0xef && b[1] == 0xbb && b[2] == 0xbf
}

/// What `decode_bom` yields: the signature picks the decoder (UTF-32 is
/// tested before UTF-16, whose little-endian mark it extends), and the
/// signature itself is dropped.
pub open spec fn bom_decoded(b: Seq<u8>) -> Seq<char> {
    if starts_with_utf32_be_mark(b) {
        utf32_chars(b.subrange(4, b.len() as int), true)
    } else if starts_with_utf32_le_mark(b) {
        utf32_chars(b.subrange(4, b.len() as int), false)
    } else if starts_with_utf16_be_mark(b) {
        utf16_chars(utf16_units(b.subrange(2, b.len() as int), true))
    } else if starts_with_utf16_le_mark(b) {
        utf16_chars(utf16_units(b.subrange(2, b.len() as int), false))
    } else if starts_with_utf8_mark(b) {
        lenient_utf8(b.subrange(3, b.len() as int))
    } else {
        lenient_utf8(b)
    }
}

/// Text without one leading U+FEFF.
pub open spec fn without_mark(s: Seq<char>) -> Seq<char> {
    if s.len() > 0 && s[0] == '\u{FEFF}' {
        s.drop_first()
    } else {
        s
    }
}

/// Decode a byte sequence into text, transcoding from whichever of UTF-8,
/// UTF-16 LE/BE or UTF-32 LE/BE its byte-order mark indicates, UTF-8 when
/// there is none. The mark itself is dropped.
pub fn decode_bom(bytes: &[u8]) -> (text: String)
    ensures
        text@ == bom_decoded(bytes@),
{
    let n = bytes.len();
    if n >= 4 && bytes[0] == 0x00 && bytes[1] == 0x00 && bytes[2] == 0xfe && bytes[3] == 0xff {
        decode_utf32(bytes, 4, true)
    } else if n >= 4 && bytes[0] == 0xff && bytes[1] == 0xfe && bytes[2] == 0x00 && bytes[3]
        == 0x00 {
        decode_utf32(bytes, 4, false)
    } else if n >= 2 && bytes[0] == 0xfe && bytes[1] == 0xff {
        decode_utf16(bytes, 2, true)
    } else if n >= 2 && bytes[0] == 0xff && bytes[1] == 0xfe {
        decode_utf16(bytes, 2, false)
    } else if n >= 3 && bytes[0] == 0xef && bytes[1] == 0xbb && bytes[2] == 0xbf {
        decode_utf8(bytes, 3)
    } else {
        proof {
            assert(bytes@.subrange(0, bytes@.len() as int) =~= bytes@);
        }
        decode_utf8(bytes, 0)
    }
}

/// The character that stands for a code that is not a Unicode scalar
/// value.
fn not_a_scalar(code: u32) -> (c: char)
    requires
        !is_scalar(code),
    ensures
        c == non_scalar_char(),
{
    '\u{FFFF}'
}

/// One step of lenient UTF-8 decoding at byte offset `i`: the character
/// read there and the offset after it.
pub fn lenient_step(bytes: &[u8], i: usize) -> (r: (char, usize))
    requires
        i < bytes@.len(),
    ensures
        r.0 == lenient_char(bytes@.subrange(i as int, bytes@.len() as int)),
        r.1 == i + lenient_width(bytes@.subrange(i as int, bytes@.len() as int)),
{
    let ghost rest = bytes@.subrange(i as int, bytes@.len() as int);
    let lead = bytes[i];
    let left = bytes.len() - i;
    let mut ok = false;
    let mut code: u32 = 0;
    let mut width: usize = 1;
    if lead < 0x80 {
        code = lead as u32;
        ok = true;
    } else if 0xc0 <= lead && lead <= 0xdf {
        if left >= 2 && 0x80 <= bytes[i + 1] && bytes[i + 1] <= 0xbf {
            code = (((lead & 0x1f) as u32) << 6) | ((bytes[i + 1] & 0x3f) as u32);
            width = 2;
            assert(code == announced_code(rest));
            ok = 0x80 <= code;
        }
    } else if 0xe0 <= lead && lead <= 0xef {
        if left >= 3 && 0x80 <= bytes[i + 1] && bytes[i + 1] <= 0xbf && 0x80 <= bytes[i + 2]
            && bytes[i + 2] <= 0xbf {
            code = (((lead & 0x0f) as u32) << 12) | (((bytes[i + 1] & 0x3f) as u32) << 6) | ((
            bytes[i + 2] & 0x3f) as u32);
            width = 3;
            assert(code == announced_code(rest));
            ok = 0x800 <= code;
        }
    } else if 0xf0 <= lead && lead <= 0xf7 {
        if left >= 4 && 0x80 <= bytes[i + 1] && bytes[i + 1] <= 0xbf && 0x80 <= bytes[i + 2]
            && bytes[i + 2] <= 0xbf && 0x80 <= bytes[i + 3] && bytes[i + 3] <= 0xbf {
            code = (((lead & 0x07) as u32) << 18) | (((bytes[i + 1] & 0x3f) as u32) << 12) | (((
            bytes[i + 2] & 0x3f) as u32) << 6) | ((bytes[i + 3] & 0x3f) as u32);
            width = 4;
            assert(code == announced_code(rest));
            ok = 0x10000 <= code && code <= 0x10ffff;
        }
    }
    assert(ok == sequence_ok(rest));
    let ch: char;
    let advance: usize;
    if ok {
        assert(code == announced_code(rest));
        assert(width == announced_width(rest));
        ch = match char_from_u32(code) {
            Some(c) => c,
            None => not_a_scalar(code),
        };
        advance = width;
    } else {
        ch = lead as char;
        advance = 1;
    }
    assert(ch == lenient_char(rest));
    assert(advance == lenient_width(rest));
    proof {
        lemma_lenient_width(rest);
    }
    (ch, i + advance)
}

/// Lenient UTF-8 decoding of `bytes` from offset `start`.
fn decode_utf8(bytes: &[u8], start: usize) -> (out: String)
    requires
        start <= bytes@.len(),
    ensures
        out@ == lenient_utf8(bytes@.subrange(start as int, bytes@.len() as int)),
{
    let n = bytes.len();
    let mut out = String::new();
    let mut i = start;
    while i < n
        invariant
            start <= i <= n,
            n == bytes@.len(),
            out@ + lenient_utf8(bytes@.subrange(i as int, n as int)) == lenient_utf8(
                bytes@.subrange(start as int, n as int),
            ),
        decreases n - i,
    {
        let ghost rest = bytes@.subrange(i as int, n as int);
        let (ch, next) = lenient_step(bytes, i);
        let advance = next - i;
        push_char(&mut out, ch);
        proof {
            lemma_lenient_width(rest);
            assert(rest.subrange(advance as int, rest.len() as int) =~= bytes@.subrange(
                i + advance,
                n as int,
            ));
            assert(lenient_utf8(rest) == seq![ch] + lenient_utf8(
                rest.subrange(advance as int, rest.len() as int),
            ));
        }
        i = i + advance;
    }
    proof {
        assert(bytes@.subrange(n as int, n as int) =~= Seq::<u8>::empty());
    }
    out
}

/// UTF-16 decoding of `bytes` from offset `start`, in the given byte
/// order.
fn decode_utf16(bytes: &[u8], start: usize, big: bool) -> (out: String)
    requires
        start <= bytes@.len(),
    ensures
        out@ == utf16_chars(utf16_units(bytes@.subrange(start as int, bytes@.len() as int), big)),
{
    let ghost body = bytes@.subrange(start as int, bytes@.len() as int);
    let ghost units = utf16_units(body, big);
    let n = bytes.len();
    let count = (n - start) / 2;
    proof {
        assert(units.subrange(0, count as int) =~= units);
    }
    let mut out = String::new();
    let mut k: usize = 0;
    let mut at: usize = start;
    while k < count
        invariant
            k <= count,
            at == start + 2 * k,
            n == bytes@.len(),
            count == units.len(),
            count == (n - start) / 2,
            units == utf16_units(body, big),
            body == bytes@.subrange(start as int, n as int),
            out@ + utf16_chars(units.subrange(k as int, count as int)) == utf16_chars(units),
        decreases count - k,
    {
        let ghost rest = units.subrange(k as int, count as int);
        let unit = unit16(bytes[at], bytes[at + 1], big);
        assert(unit == units[k as int]);
        if 0xD800 <= unit && unit <= 0xDBFF && k + 1 < count {
            let next = unit16(bytes[at + 2], bytes[at + 3], big);
            assert(next == units[k + 1]);
            if 0xDC00 <= next && next <= 0xDFFF {
                let code: u32 = 0x10000 + ((unit - 0xD800) as u32) * 0x400 + ((next - 0xDC00) as u32);
                assert(code == pair_code(unit, next));
                let c = match char_from_u32(code) {
                    Some(c) => c,
                    None => not_a_scalar(code),
                };
                push_char(&mut out, c);
                proof {
                    assert(rest.subrange(2, rest.len() as int) =~= units.subrange(
                        k + 2,
                        count as int,
                    ));
                }
                k = k + 2;
                at = at + 4;
                continue;
            }
        }
        let c: char;
        if 0xD800 <= unit && unit <= 0xDFFF {
            c = not_a_scalar(unit as u32);
        } else {
            c = match char_from_u32(unit as u32) {
                Some(c) => c,
                None => not_a_scalar(unit as u32),
            };
        }
        push_char(&mut out, c);
        proof {
            assert(rest.subrange(1, rest.len() as int) =~= units.subrange(k + 1, count as int));
        }
        k = k + 1;
        at = at + 2;
    }
    proof {
        assert(units.subrange(count as int, count as int) =~= Seq::<u16>::empty());
    }
    out
}

/// The 16-bit unit two bytes spell in the given byte order.
fn unit16(first: u8, second: u8, big: bool) -> (u: u16)
    ensures
        u == (if big {
            (first as int * 256 + second as int) as u16
        } else {
            (second as int * 256 + first as int) as u16
        }),
{
    if big {
        (first as u16) * 256 + (second as u16)
    } else {
        (second as u16) * 256 + (first as u16)
    }
}

/// UTF-32 decoding of `bytes` from offset `start`, in the given byte
/// order.
fn decode_utf32(bytes: &[u8], start: usize, big: bool) -> (out: String)
    requires
        start <= bytes@.len(),
    ensures
        out@ == utf32_chars(bytes@.subrange(start as int, bytes@.len() as int), big),
{
    let ghost body = bytes@.subrange(start as int, bytes@.len() as int);
    let n = bytes.len();
    let count = (n - start) / 4;
    let mut out = String::new();
    let mut k: usize = 0;
    let mut at: usize = start;
    while k < count
        invariant
            k <= count,
            at == start + 4 * k,
            n == bytes@.len(),
            count == body.len() / 4,
            count == (n - start) / 4,
            body == bytes@.subrange(start as int, n as int),
            out@ =~= utf32_chars(body, big).subrange(0, k as int),
        decreases count - k,
    {
        let code: u32 = if big {
            (bytes[at] as u32) * 0x1000000 + (bytes[at + 1] as u32) * 0x10000 + (bytes[at + 2]
                as u32) * 0x100 + (bytes[at + 3] as u32)
        } else {
            (bytes[at + 3] as u32) * 0x1000000 + (bytes[at + 2] as u32) * 0x10000 + (bytes[at + 1]
                as u32) * 0x100 + (bytes[at] as u32)
        };
        assert(code == utf32_code(body, k as int, big));
        let c = match char_from_u32(code) {
            Some(c) => c,
            None => not_a_scalar(code),
        };
        push_char(&mut out, c);
        k = k + 1;
        at = at + 4;
    }
    out
}

/// Strip a leading U+FEFF from text that is already decoded.
pub fn strip_bom(src: &str) -> (rest: &str)
    ensures
        rest@ == without_mark(src@),
{
    let bytes = src.as_bytes();
    proof {
        broadcast use vstd::utf8::group_utf8_lib;

    }
    if bytes.len() >= 3 && bytes[0] == 0xef && bytes[1] == 0xbb && bytes[2] == 0xbf {
        proof {
            lemma_mark_bytes(src@);
        }
        let (_, rest) = src.split_at(3);
        proof {
            broadcast use vstd::utf8::group_utf8_lib;

            lemma_view_from_bytes(rest);
        }
        rest
    } else {
        proof {
            lemma_mark_bytes(src@);
        }
        src
    }
}

/// A string's view is the decoding of its bytes.
pub proof fn lemma_view_from_bytes(s: &str)
    ensures
        s@ == vstd::utf8::decode_utf8(s.spec_bytes()),
        valid_utf8(s.spec_bytes()),
{
    broadcast use vstd::utf8::group_utf8_lib;

}

/// On a well-formed first character one lenient step reads exactly it.
pub proof fn lemma_lenient_step_on_valid(b: Seq<u8>)
    requires
        valid_first_scalar(b),
    ensures
        lenient_char(b) == decode_first_scalar(b) as char,
        lenient_width(b) == length_of_first_scalar(b),
{
    let lead = b[0];
    if is_leading_byte_width_1(lead) {
        assert(codepoint_width_1(lead) == lead as u32) by (bit_vector)
            requires
                lead <= 0x7f,
        ;
    } else if is_leading_byte_width_2(lead) {
        let b1 = b[1];
        assert(codepoint_width_2(lead, b1) <= 0x7ff) by (bit_vector);
    } else if is_leading_byte_width_3(lead) {
        let b1 = b[1];
        let b2 = b[2];
        assert(codepoint_width_3(lead, b1, b2) <= 0xffff) by (bit_vector);
    } else {
    }
}

/// On well-formed UTF-8 the lenient decoder agrees with strict decoding.
pub proof fn lemma_lenient_utf8_on_valid(b: Seq<u8>)
    requires
        valid_utf8(b),
    ensures
        lenient_utf8(b) == vstd::utf8::decode_utf8(b),
    decreases b.len(),
{
    if b.len() > 0 {
        lemma_lenient_width(b);
        lemma_lenient_step_on_valid(b);
        assert(lenient_char(b) == decode_first_scalar(b) as char);
        lemma_lenient_utf8_on_valid(pop_first_scalar(b));
    }
}

/// No byte of well-formed UTF-8 is 0xFE or 0xFF.
pub proof fn lemma_valid_utf8_bytes_below_fe(b: Seq<u8>, i: int)
    requires
        valid_utf8(b),
        0 <= i < b.len(),
    ensures
        b[i] < 0xfe,
    decreases b.len(),
{
    let w = length_of_first_scalar(b);
    if i >= w {
        lemma_valid_utf8_bytes_below_fe(pop_first_scalar(b), i - w);
    }
}

/// Decoding the UTF-8 encoding of a text gives the text back, less one
/// leading U+FEFF: a decoded string only loses its mark.
pub proof fn lemma_decode_bom_of_utf8(s: Seq<char>)
    ensures
        bom_decoded(encode_utf8(s)) == without_mark(s),
{
    broadcast use vstd::utf8::group_utf8_lib;

    let b = encode_utf8(s);
    if b.len() >= 1 {
        lemma_valid_utf8_bytes_below_fe(b, 0);
    }
    if b.len() >= 3 {
        lemma_valid_utf8_bytes_below_fe(b, 2);
    }
    lemma_mark_bytes(s);
    if starts_with_utf8_mark(b) {
        lemma_lenient_utf8_on_valid(encode_utf8(s.drop_first()));
    } else {
        lemma_lenient_utf8_on_valid(b);
    }
}

/// U+FEFF encodes as EF BB BF, and those bytes decode to U+FEFF.
proof fn lemma_mark_scalar()
    ensures
        encode_scalar(0xFEFFu32) =~= seq![0xefu8, 0xbbu8, 0xbfu8],
        codepoint_width_3(0xef, 0xbb, 0xbf) == 0xFEFF,
{
    assert(has_width_3_encoding(0xFEFFu32));
    assert(leading_byte_width_3(0xFEFFu32) == 0xef) by (bit_vector);
    assert(second_last_continuation_byte(0xFEFFu32) == 0xbb) by (bit_vector);
    assert(last_continuation_byte(0xFEFFu32) == 0xbf) by (bit_vector);
    assert(codepoint_width_3(0xef, 0xbb, 0xbf) == 0xFEFF) by (bit_vector);
}

/// Text starts with U+FEFF exactly when its UTF-8 encoding starts with
/// EF BB BF, and then the rest of the text encodes to the rest of the
/// bytes.
pub proof fn lemma_mark_bytes(s: Seq<char>)
    ensures
        starts_with_utf8_mark(encode_utf8(s)) <==> (s.len() > 0 && s[0] == '\u{FEFF}'),
        starts_with_utf8_mark(encode_utf8(s)) ==> encode_utf8(s).subrange(
            3,
            encode_utf8(s).len() as int,
        ) == encode_utf8(s.drop_first()),
        starts_with_utf8_mark(encode_utf8(s)) ==> is_char_boundary(encode_utf8(s), 3),
{
    broadcast use vstd::utf8::group_utf8_lib;

    let b = encode_utf8(s);
    if s.len() > 0 {
        encode_utf8_first_scalar(s);
        lemma_mark_scalar();
        let c = s[0] as u32;
        assert('\u{FEFF}' as u32 == 0xFEFF);
        char_u32_cast('\u{FEFF}', 0xFEFF);
        char_u32_cast(s[0], c);
        assert(b =~= encode_scalar(c) + encode_utf8(s.drop_first()));
        if s[0] == '\u{FEFF}' {
            assert(c == 0xFEFF);
            assert(encode_scalar(c) =~= seq![0xefu8, 0xbbu8, 0xbfu8]);
            assert(b[0] == 0xef && b[1] == 0xbb && b[2] == 0xbf);
        }
        if starts_with_utf8_mark(b) {
            assert(valid_first_scalar(b));
            assert(decode_first_codepoint(b) == codepoint_width_3(0xef, 0xbb, 0xbf));
            assert(c == 0xFEFF);
            assert(b.subrange(3, b.len() as int) =~= encode_utf8(s.drop_first()));
            reveal_with_fuel(is_char_boundary, 2);
        }
    } else {
        assert(b.len() == 0);
    }
}

} // verus!

verus! {

/// The UTF-16 code units of a text: one unit for a character of the
/// basic multilingual plane, a surrogate pair for any other.
pub open spec fn utf16_encode(s: Seq<char>) -> Seq<u16>
    decreases s.len(),
{
    if s.len() == 0 {
        seq![]
    } else {
        let c = s[0] as u32;
        let head: Seq<u16> = if c < 0x10000 {
            seq![c as u16]
        } else {
            seq![(0xD800 + (c - 0x10000) / 0x400) as u16, (0xDC00 + (c - 0x10000) % 0x400) as u16]
        };
        head + utf16_encode(s.drop_first())
    }
}

/// The bytes of 16-bit units, two each in the given byte order.
pub open spec fn unit_bytes(u: Seq<u16>, big: bool) -> Seq<u8> {
    Seq::new(
        u.len() * 2,
        |k: int|
            if (k % 2 == 0) == big {
                (u[k / 2] / 256) as u8
            } else {
                (u[k / 2] % 256) as u8
            },
    )
}

/// Reading units back from their bytes gives the units.
pub proof fn lemma_units_of_bytes(u: Seq<u16>, big: bool)
    ensures
        utf16_units(unit_bytes(u, big), big) == u,
{
    let b = unit_bytes(u, big);
    assert(b.len() / 2 == u.len());
    assert forall|k: int| 0 <= k < u.len() implies #[trigger] utf16_units(b, big)[k] == u[k] by {
        assert((2 * k) / 2 == k);
        assert((2 * k + 1) / 2 == k);
        assert((2 * k) % 2 == 0);
        assert((2 * k + 1) % 2 == 1);
        let x = u[k];
        assert((x / 256) as int * 256 + (x % 256) as int == x as int);
    }
    assert(utf16_units(b, big) =~= u);
}

/// The surrogate pair of a character beyond the basic multilingual plane
/// encodes it.
proof fn lemma_pair_encodes(c: u32)
    requires
        0x10000 <= c <= 0x10FFFF,
    ensures
        is_high_surrogate((0xD800 + (c - 0x10000) / 0x400) as u16),
        is_low_surrogate((0xDC00 + (c - 0x10000) % 0x400) as u16),
        pair_code((0xD800 + (c - 0x10000) / 0x400) as u16, (0xDC00 + (c - 0x10000) % 0x400) as u16)
            == c,
{
    let x: int = c - 0x10000;
    assert(0 <= x / 0x400 <= 0x3ff && 0 <= x % 0x400 < 0x400 && x == (x / 0x400) * 0x400 + x
        % 0x400) by (nonlinear_arith)
        requires
            0 <= x <= 0xfffff,
    ;
}

/// Decoding the UTF-16 units of a text gives the text back.
pub proof fn lemma_utf16_round_trip(s: Seq<char>)
    ensures
        utf16_chars(utf16_encode(s)) == s,
    decreases s.len(),
{
    if s.len() > 0 {
        let c = s[0] as u32;
        vstd::utf8::char_is_scalar(s[0]);
        vstd::utf8::char_u32_cast(s[0], c);
        let rest = utf16_encode(s.drop_first());
        lemma_utf16_round_trip(s.drop_first());
        let u = utf16_encode(s);
        if c < 0x10000 {
            let unit = c as u16;
            assert(unit as u32 == c);
            assert(u == seq![unit] + rest);
            assert(u.subrange(1, u.len() as int) =~= rest);
            assert(!is_high_surrogate(unit) && !is_low_surrogate(unit));
            assert((unit as u32) as char == s[0]);
        } else {
            lemma_pair_encodes(c);
            let high = (0xD800 + (c - 0x10000) / 0x400) as u16;
            let low = (0xDC00 + (c - 0x10000) % 0x400) as u16;
            assert(u == seq![high, low] + rest);
            assert(u.subrange(2, u.len() as int) =~= rest);
            assert((pair_code(high, low) as char) == s[0]);
        }
        assert(utf16_chars(u) =~= s);
    }
}

/// The bytes of a text in UTF-16, big-endian or little-endian, behind the
/// matching byte-order mark.
pub open spec fn utf16_document(s: Seq<char>, big: bool) -> Seq<u8> {
    let mark: Seq<u8> = if big {
        seq![0xfe, 0xff]
    } else {
        seq![0xff, 0xfe]
    };
    mark + unit_bytes(utf16_encode(s), big)
}

/// Decoding a text written as UTF-16 behind its byte-order mark gives the
/// text back. In little-endian order a text that starts with U+0000 is
/// left out: its mark and first unit spell the UTF-32 mark.
pub proof fn lemma_decode_bom_of_utf16(s: Seq<char>, big: bool)
    requires
        big || s.len() == 0 || s[0] != '\0',
    ensures
        bom_decoded(utf16_document(s, big)) == s,
{
    let b = utf16_document(s, big);
    let body = unit_bytes(utf16_encode(s), big);
    assert(b.subrange(2, b.len() as int) =~= body);
    lemma_units_of_bytes(utf16_encode(s), big);
    lemma_utf16_round_trip(s);
    if !big && b.len() >= 4 {
        let u = utf16_encode(s);
        assert(s.len() > 0);
        let c = s[0] as u32;
        assert(c != 0);
        if c < 0x10000 {
            assert(u[0] == c as u16);
        } else {
            assert(u[0] == (0xD800 + (c - 0x10000) / 0x400) as u16);
        }
        assert(b[2] == body[0]);
        assert(b[3] == body[1]);
        assert(body[0] == (u[0] % 256) as u8);
        assert(body[1] == (u[0] / 256) as u8);
    }
}

/// The bytes of a text in UTF-32, big-endian or little-endian, four per
/// character.
pub open spec fn utf32_bytes(s: Seq<char>, big: bool) -> Seq<u8> {
    Seq::new(
        s.len() * 4,
        |k: int|
            {
                let c = s[k / 4] as u32;
                let i = if big {
                    k % 4
                } else {
                    3 - k % 4
                };
                if i == 0 {
                    (c / 0x1000000) as u8
                } else if i == 1 {
                    (c / 0x10000 % 0x100) as u8
                } else if i == 2 {
                    (c / 0x100 % 0x100) as u8
                } else {
                    (c % 0x100) as u8
                }
            },
    )
}

/// The four bytes of one character read back as its code.
proof fn lemma_utf32_unit(s: Seq<char>, big: bool, k: int)
    requires
        0 <= k < s.len(),
    ensures
        utf32_code(utf32_bytes(s, big), k, big) == s[k] as u32,
{
    let body = utf32_bytes(s, big);
    let c = s[k] as u32;
    assert((4 * k) / 4 == k && (4 * k + 1) / 4 == k && (4 * k + 2) / 4 == k && (4 * k + 3) / 4 == k);
    assert((4 * k) % 4 == 0 && (4 * k + 1) % 4 == 1 && (4 * k + 2) % 4 == 2 && (4 * k + 3) % 4 == 3);
    assert(c / 0x1000000 < 0x100 && (c / 0x10000) % 0x100 < 0x100 && (c / 0x100) % 0x100 < 0x100
        && c % 0x100 < 0x100 && (c / 0x1000000) * 0x1000000 + ((c / 0x10000) % 0x100) * 0x10000 + ((
    c / 0x100) % 0x100) * 0x100 + c % 0x100 == c) by (bit_vector);
    let b3 = c / 0x1000000;
    let b2 = c / 0x10000 % 0x100;
    let b1 = c / 0x100 % 0x100;
    let b0 = c % 0x100;
    if big {
        assert(body[4 * k] == b3 as u8 && body[4 * k + 1] == b2 as u8 && body[4 * k + 2] == b1 as u8
            && body[4 * k + 3] == b0 as u8);
    } else {
        assert(body[4 * k] == b0 as u8 && body[4 * k + 1] == b1 as u8 && body[4 * k + 2] == b2 as u8
            && body[4 * k + 3] == b3 as u8);
    }
}

/// Decoding a text written as UTF-32 behind its byte-order mark gives the
/// text back.
pub proof fn lemma_decode_bom_of_utf32(s: Seq<char>, big: bool)
    ensures
        bom_decoded(
            (if big {
                seq![0x00u8, 0x00u8, 0xfeu8, 0xffu8]
            } else {
                seq![0xffu8, 0xfeu8, 0x00u8, 0x00u8]
            }) + utf32_bytes(s, big),
        ) == s,
{
    let mark: Seq<u8> = if big {
        seq![0x00u8, 0x00u8, 0xfeu8, 0xffu8]
    } else {
        seq![0xffu8, 0xfeu8, 0x00u8, 0x00u8]
    };
    let b = mark + utf32_bytes(s, big);
    let body = utf32_bytes(s, big);
    assert(b.subrange(4, b.len() as int) =~= body);
    assert(b[0] == mark[0] && b[1] == mark[1] && b[2] == mark[2] && b[3] == mark[3]);
    if big {
        assert(starts_with_utf32_be_mark(b));
    } else {
        assert(!starts_with_utf32_be_mark(b));
        assert(starts_with_utf32_le_mark(b));
    }
    assert(body.len() / 4 == s.len());
    assert forall|k: int| 0 <= k < s.len() implies #[trigger] utf32_chars(body, big)[k] == s[k] by {
        lemma_utf32_unit(s, big, k);
        vstd::utf8::char_is_scalar(s[k]);
        vstd::utf8::char_u32_cast(s[k], s[k] as u32);
    }
    assert(utf32_chars(body, big) =~= s);
}

} // verus!
