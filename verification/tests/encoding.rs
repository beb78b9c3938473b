use dosview::encoding::{decode, encode_char, encode_text, one_cell, Encoding};

fn cells(enc: Encoding, bytes: &[u8]) -> String {
    let mut out = Vec::new();
    decode(enc, bytes, &mut out);
    assert_eq!(out.len(), bytes.len(), "one cell per byte");
    out.into_iter().collect()
}

#[test]
fn every_encoding_yields_one_cell_per_byte() {
    let bytes: Vec<u8> = (0..=255u8).collect();
    for enc in Encoding::ALL {
        let s = cells(enc, &bytes);
        assert_eq!(s.chars().count(), 256, "{}", enc.name());
    }
}

#[test]
fn ascii_hides_control_bytes() {
    assert_eq!(cells(Encoding::Ascii, b"\x00A\x1F~\x7F"), ".A.~.");
}

#[test]
fn cp437_shows_the_dos_glyphs() {
    assert_eq!(cells(Encoding::Cp437, &[0x01, 0x03, 0xB2, b'A']), "☺♥▓A");
}

#[test]
fn dos_cyrillic_decodes() {
    // "Привет" in CP866.
    assert_eq!(cells(Encoding::Cp866, &[0x8F, 0xE0, 0xA8, 0xA2, 0xA5, 0xE2]), "Привет");
}

#[test]
fn windows_cyrillic_decodes() {
    assert_eq!(cells(Encoding::Cp1251, &[0xCF, 0xF0, 0xE8, 0xE2, 0xE5, 0xF2]), "Привет");
}

#[test]
fn koi8r_decodes() {
    assert_eq!(cells(Encoding::Koi8r, &[0xF0, 0xD2, 0xC9, 0xD7, 0xC5, 0xD4]), "Привет");
}

#[test]
fn unassigned_bytes_become_dots() {
    assert_eq!(cells(Encoding::Cp1251, &[0x98]), ".");
}

#[test]
fn utf8_draws_a_char_on_its_lead_byte_and_dots_the_rest() {
    // Each Cyrillic letter is two bytes, so the text is twice as wide as
    // it reads — that is the price of keeping cells aligned with offsets.
    assert_eq!(cells(Encoding::Utf8, "Привет".as_bytes()), "П·р·и·в·е·т·");
    assert_eq!(cells(Encoding::Utf8, b"ok"), "ok");
}

#[test]
fn utf8_resyncs_after_garbage() {
    // Stray continuation byte, then a valid letter.
    assert_eq!(cells(Encoding::Utf8, &[0xB0, 0xD0, 0x9F]), ".П·");
    // Sequence cut off by the end of the slice.
    assert_eq!(cells(Encoding::Utf8, &[0xD0]), ".");
}

#[test]
fn utf8_rejects_overlong_and_out_of_range_leads() {
    assert_eq!(cells(Encoding::Utf8, &[0xC0, 0xAF]), "..");
    assert_eq!(cells(Encoding::Utf8, &[0xF5, 0x80, 0x80, 0x80]), "....");
}

#[test]
fn wide_characters_are_not_drawn_since_they_would_shift_the_grid() {
    // A CJK ideograph is three bytes but two columns wide, so the letter
    // itself is refused; the continuation cells still mark the sequence.
    assert_eq!(cells(Encoding::Utf8, "漢".as_bytes()), ".··");
}

#[test]
fn search_text_round_trips_through_every_code_page() {
    for enc in [Encoding::Cp866, Encoding::Cp1251, Encoding::Koi8r] {
        let bytes = encode_text(enc, "Привет, мир").unwrap();
        assert_eq!(bytes.len(), 11, "{}", enc.name());
        assert_eq!(cells(enc, &bytes), "Привет, мир", "{}", enc.name());
    }
}

#[test]
fn search_text_in_ascii_or_utf8_view_is_utf8_bytes() {
    assert_eq!(encode_text(Encoding::Utf8, "П").unwrap(), vec![0xD0, 0x9F]);
    assert_eq!(encode_text(Encoding::Ascii, "П").unwrap(), vec![0xD0, 0x9F]);
}

#[test]
fn encoding_reports_the_char_it_cannot_represent() {
    assert_eq!(encode_text(Encoding::Cp437, "Привет"), Err('П'));
    assert_eq!(encode_text(Encoding::Cp866, "漢"), Err('漢'));
}

#[test]
fn ascii_encodes_the_same_way_in_every_code_page() {
    for enc in Encoding::ALL {
        assert_eq!(encode_text(enc, "REC.").unwrap(), b"REC.".to_vec(), "{}", enc.name());
    }
}

#[test]
fn cycling_encodings_wraps_both_ways() {
    assert_eq!(Encoding::Ascii.prev().name(), "UTF-8");
    assert_eq!(Encoding::Utf8.next().name(), "ASCII");
    let mut e = Encoding::Ascii;
    for _ in 0..Encoding::ALL.len() {
        e = e.next();
    }
    assert!(e == Encoding::Ascii);
}

#[test]
fn what_takes_no_cell_is_not_drawn() {
    for u in [
        0x00AD, 0x0300, 0x0483, 0x180E, 0x1AB0, 0x1DFF, 0x200B, 0x200C, 0x200D, 0x200E, 0x200F,
        0x202A, 0x202E, 0x2060, 0x2064, 0x20D0, 0xFE00, 0xFE0F, 0xFE20, 0xFEFF, 0xE0100,
    ] {
        let c = char::from_u32(u).unwrap();
        assert!(!one_cell(c), "{u:X}");
    }
    for c in ['A', 'é', 'Я', '∙', '\u{A0}', '\u{200A}', '\u{2010}', '\u{202F}', '\u{2070}'] {
        assert!(one_cell(c), "{c:?}");
    }
    assert_eq!(cells(Encoding::Utf8, "a\u{200D}b".as_bytes()), "a.··b");
}

#[test]
fn bytes_decoded_in_parts_are_the_same() {
    for enc in Encoding::ALL {
        let (a, b) = ("Привет €".as_bytes(), &[b'x', 0xFF, 0xD0, 0x9F, 0xD0][..]);
        let both: Vec<u8> = [a, b].concat();
        assert_eq!(cells(enc, &both), cells(enc, a) + &cells(enc, b), "{}", enc.name());
    }
    // Cut inside a character the parts show less.
    let split = "я".as_bytes();
    assert_eq!(cells(Encoding::Utf8, split), "я·");
    assert_eq!(cells(Encoding::Utf8, &split[..1]) + &cells(Encoding::Utf8, &split[1..]), "..");
}

#[test]
fn a_character_is_held_as_the_byte_that_shows_it() {
    for enc in [Encoding::Cp437, Encoding::Cp866, Encoding::Cp1251, Encoding::Koi8r] {
        for b in 0x80..=0xFFu8 {
            let shown = cells(enc, &[b]).chars().next().unwrap();
            if shown != '.' && shown != ' ' {
                assert_eq!(encode_char(enc, shown), Some(b), "{} {b:X}", enc.name());
            }
        }
        assert_eq!(encode_char(enc, '漢'), None);
        assert_eq!(encode_char(enc, 'A'), Some(b'A'));
    }
    // A soft hyphen has a byte, but no cell.
    assert_eq!(encode_char(Encoding::Cp1251, '\u{AD}'), Some(0xAD));
    assert_eq!(cells(Encoding::Cp1251, &[0xAD]), ".");
    assert_eq!(encode_char(Encoding::Utf8, 'я'), None);
}
