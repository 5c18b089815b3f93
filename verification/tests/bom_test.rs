use tabnas_xml::entity::{is_name_char, is_name_start};
use tabnas_xml::{decode_bom, strip_bom};

#[test]
fn every_encoding_signature_is_honoured() {
    assert_eq!(decode_bom(b"\xef\xbb\xbf<a/>"), "<a/>");
    assert_eq!(decode_bom(b"<\xc3\xa9/>"), "<\u{e9}/>");
    assert_eq!(decode_bom(b"\xfe\xff\x00<\x00a\x00/\x00>"), "<a/>");
    assert_eq!(decode_bom(b"\xff\xfe<\x00a\x00/\x00>\x00"), "<a/>");
    assert_eq!(
        decode_bom(b"\x00\x00\xfe\xff\x00\x00\x00<\x00\x00\x00a\x00\x00\x00/\x00\x00\x00>"),
        "<a/>"
    );
    assert_eq!(
        decode_bom(b"\xff\xfe\x00\x00<\x00\x00\x00a\x00\x00\x00/\x00\x00\x00>\x00\x00\x00"),
        "<a/>"
    );
    assert_eq!(decode_bom(b""), "");
}

#[test]
fn malformed_utf8_keeps_the_raw_byte() {
    assert_eq!(decode_bom(b"a\x01\xffb"), "a\u{1}\u{ff}b");
    assert_eq!(decode_bom(b"\xf0\x9f\x98\x80"), "\u{1F600}");
    assert_eq!(decode_bom(b"\xe2\x82"), "\u{e2}\u{82}");
}

#[test]
fn an_unpaired_surrogate_stays_invalid() {
    // U+D800 spelled as three UTF-8 style bytes decodes to U+FFFF, which
    // is no NameStartChar.
    assert_eq!(decode_bom(b"\xed\xa0\x80"), "\u{FFFF}");
    assert!(!is_name_start('\u{FFFF}'));
    assert!(!is_name_char('\u{FFFF}'));
    // U+FFFD would be one.
    assert!(is_name_start('\u{FFFD}'));

    // The same in UTF-16 (an unpaired high surrogate) and UTF-32.
    assert_eq!(decode_bom(b"\xfe\xff\xd8\x00"), "\u{FFFF}");
    assert_eq!(decode_bom(b"\x00\x00\xfe\xff\x00\x00\xd8\x00"), "\u{FFFF}");

    // A surrogate pair is a scalar value and is unaffected.
    assert_eq!(decode_bom(b"\xfe\xff\xd8\x3d\xde\x00"), "\u{1F600}");
}

#[test]
fn a_decoded_string_only_loses_its_mark() {
    assert_eq!(strip_bom("\u{FEFF}<a/>"), "<a/>");
    assert_eq!(strip_bom("<a>\u{FEFF}</a>"), "<a>\u{FEFF}</a>");
}

#[test]
fn utf8_text_decodes_to_itself_less_its_mark() {
    for text in ["", "<a/>", "\u{FEFF}<b>\u{e9}\u{1F600}</b>", "\u{FEFF}\u{FEFF}x"] {
        assert_eq!(decode_bom(text.as_bytes()), strip_bom(text));
    }
}

#[test]
fn trailing_partial_units_are_dropped() {
    assert_eq!(decode_bom(b"\xfe\xff\x00a\x00"), "a");
    assert_eq!(decode_bom(b"\x00\x00\xfe\xff\x00\x00\x00a\x00\x00"), "a");
    // An unpaired low surrogate, then an ordinary unit.
    assert_eq!(decode_bom(b"\xff\xfe\x00\xdc\x41\x00"), "\u{FFFF}A");
    // A UTF-32 unit above U+10FFFF.
    assert_eq!(decode_bom(b"\xff\xfe\x00\x00\x00\x00\x11\x00"), "\u{FFFF}");
}

#[test]
fn a_lead_byte_without_its_tail_is_kept_as_a_byte() {
    // A four-byte lead announcing a code above U+10FFFF.
    assert_eq!(decode_bom(b"\xf7\xbf\xbf\xbf"), "\u{f7}\u{bf}\u{bf}\u{bf}");
    // A continuation byte on its own.
    assert_eq!(decode_bom(b"\x80a"), "\u{80}a");
}

fn utf16_document(text: &str, big: bool) -> Vec<u8> {
    let mut bytes = if big { vec![0xfe, 0xff] } else { vec![0xff, 0xfe] };
    for unit in text.encode_utf16() {
        let [high, low] = unit.to_be_bytes();
        if big {
            bytes.extend([high, low]);
        } else {
            bytes.extend([low, high]);
        }
    }
    bytes
}

fn utf32_document(text: &str, big: bool) -> Vec<u8> {
    let mut bytes = if big { vec![0, 0, 0xfe, 0xff] } else { vec![0xff, 0xfe, 0, 0] };
    for c in text.chars() {
        let b = (c as u32).to_be_bytes();
        if big {
            bytes.extend(b);
        } else {
            bytes.extend(b.iter().rev());
        }
    }
    bytes
}

#[test]
fn utf16_and_utf32_text_decodes_to_itself() {
    for text in ["", "<a/>", "\u{FEFF}<b>\u{e9}\u{1F600}\u{10FFFF}</b>", "\u{D7FF}\u{E000}"] {
        for big in [true, false] {
            assert_eq!(decode_bom(&utf16_document(text, big)), text);
            assert_eq!(decode_bom(&utf32_document(text, big)), text);
        }
    }
    // A little-endian UTF-16 text that starts with U+0000 reads as UTF-32:
    // its mark and first unit spell the UTF-32 mark.
    assert_eq!(decode_bom(&utf16_document("\u{0}ab", false)), "\u{FFFF}");
}

#[test]
fn a_lead_byte_without_its_continuation_bytes_stands_alone() {
    assert_eq!(decode_bom(b"\xc3A"), "\u{c3}A");
    assert_eq!(decode_bom(b"\xc3<a/>"), "\u{c3}<a/>");
    assert_eq!(decode_bom(b"\xe2\x82A"), "\u{e2}\u{82}A");
    assert_eq!(decode_bom(b"\xf0\x9f\x98A"), "\u{f0}\u{9f}\u{98}A");
    // Overlong forms and codes above U+10FFFF are malformed too.
    assert_eq!(decode_bom(b"\xc0\x80"), "\u{c0}\u{80}");
    assert_eq!(decode_bom(b"\xe0\x80\x80"), "\u{e0}\u{80}\u{80}");
    assert_eq!(decode_bom(b"\xf0\x80\x80\x80"), "\u{f0}\u{80}\u{80}\u{80}");
    assert_eq!(decode_bom(b"\xf4\x90\x80\x80"), "\u{f4}\u{90}\u{80}\u{80}");
    // Well-formed sequences are unaffected.
    assert_eq!(decode_bom(b"\xc3\xa9\xe2\x82\xac\xf0\x9f\x98\x80"), "\u{e9}\u{20ac}\u{1F600}");
}
