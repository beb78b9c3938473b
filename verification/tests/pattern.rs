use dosview::encoding::Encoding;
use dosview::pattern::{Pattern, PatternError};

/// Most tests do not care about encoding: ASCII input is the same bytes
/// in every code page.
fn pat(s: &str) -> Pattern {
    Pattern::parse(s, Encoding::Ascii).unwrap()
}

#[test]
fn plain_text_is_a_literal_pattern() {
    let p = pat("REC");
    assert_eq!(p.len(), 3);
    assert_eq!(p.find_all(b"--REC--REC"), vec![2, 7]);
}

#[test]
fn hex_input_without_wildcards() {
    let p = pat("x:89 50 4E 47");
    assert_eq!(p.find_all(&[0, 0x89, 0x50, 0x4E, 0x47, 0]), vec![1]);
}

#[test]
fn wildcards_match_any_byte() {
    let p = pat("x:89 ?? 4E 47");
    assert_eq!(p.len(), 4);
    assert_eq!(p.find_all(&[0x89, 0xFF, 0x4E, 0x47]), vec![0]);
    assert_eq!(p.find_all(&[0x89, 0x00, 0x4E, 0x47]), vec![0]);
    assert!(p.find_all(&[0x89, 0x00, 0x4E, 0x48]).is_empty());
}

#[test]
fn anchor_is_the_longest_literal_run() {
    // The anchor has to be "4E 47 AA", not the lone 89.
    let p = pat("x:89 ?? 4E 47 AA");
    assert_eq!(p.anchor(), vec![0x4E, 0x47, 0xAA]);
    assert_eq!(p.anchor_off(), 2);
    let hay = [0x00, 0x89, 0x11, 0x4E, 0x47, 0xAA, 0x00];
    assert_eq!(p.find_all(&hay), vec![1]);
}

#[test]
fn wildcard_at_the_start_does_not_underflow() {
    let p = pat("x:?? 41 42");
    // "AB" at the very start would match from offset -1: that has to be
    // dropped, not wrapped around by an underflowing subtraction.
    assert_eq!(p.find_all(b"AB--\x00AB"), vec![4]);
}

#[test]
fn all_wildcards_match_everywhere() {
    let p = pat("x:?? ??");
    assert_eq!(p.find_all(&[1, 2, 3, 4, 5]), vec![0, 2]);
}

#[test]
fn matches_do_not_overlap() {
    let p = pat("AA");
    assert_eq!(p.find_all(b"AAAAAA"), vec![0, 2, 4]);
}

#[test]
fn text_is_encoded_with_the_current_code_page() {
    // The same query hunts for different bytes depending on the view.
    let cp1251 = Pattern::parse("Привет", Encoding::Cp1251).unwrap();
    assert_eq!(cp1251.len(), 6);
    assert_eq!(cp1251.find_all(&[0, 0xCF, 0xF0, 0xE8, 0xE2, 0xE5, 0xF2]), vec![1]);

    let cp866 = Pattern::parse("Привет", Encoding::Cp866).unwrap();
    assert_eq!(cp866.find_all(&[0x8F, 0xE0, 0xA8, 0xA2, 0xA5, 0xE2]), vec![0]);
    // CP1251 bytes must not match a CP866 query.
    assert!(cp866.find_all(&[0xCF, 0xF0, 0xE8, 0xE2, 0xE5, 0xF2]).is_empty());

    let utf8 = Pattern::parse("Привет", Encoding::Utf8).unwrap();
    assert_eq!(utf8.len(), 12);
    assert_eq!(utf8.find_all("--Привет".as_bytes()), vec![2]);
}

#[test]
fn hex_input_ignores_the_encoding() {
    for enc in Encoding::ALL {
        let p = Pattern::parse("x:CF F0", enc).unwrap();
        assert_eq!(p.find_all(&[0xCF, 0xF0]), vec![0]);
    }
}

#[test]
fn broken_input_is_rejected() {
    let e = |s| Pattern::parse(s, Encoding::Ascii).unwrap_err();
    assert_eq!(e(""), PatternError::Empty);
    assert_eq!(e("x:ABC"), PatternError::BadHex);
    assert_eq!(e("x:zz"), PatternError::BadHex);
    assert_eq!(e("x:?5"), PatternError::BadHex);
}

#[test]
fn a_char_missing_from_the_code_page_is_named_in_the_error() {
    assert_eq!(
        Pattern::parse("Привет", Encoding::Cp437).unwrap_err(),
        PatternError::Unrepresentable('П', Encoding::Cp437)
    );
}

#[test]
fn white_space_has_no_part_in_hex() {
    let plain = Pattern::parse("x:4D5A??00", Encoding::Ascii).unwrap();
    for s in ["x: 4D 5A ?? 00", "x:4 D5 A? ?0 0", "X:\t4D5A \u{A0}??00  "] {
        for enc in Encoding::ALL {
            let p = Pattern::parse(s, enc).unwrap();
            assert_eq!(p.len(), plain.len(), "{s:?}");
            for hay in [b"MZ\x01\0".to_vec(), b"MZ\x7F\0".to_vec(), b"MZ\x01\x01".to_vec()] {
                assert_eq!(p.matches_at(&hay, 0), plain.matches_at(&hay, 0), "{s:?} {hay:?}");
            }
        }
    }
}
