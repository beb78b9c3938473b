use dosview::view::{format_offset, layout, parse_offset, push_byte, push_gap, Mode};
use dosview::encoding;
use dosview::encoding::Encoding;

#[test]
fn hex_layout_fits_the_width() {
    for w in [40u16, 80, 100, 120, 200] {
        let l = layout(Mode::Hex, w, 1024, None);
        let used = l.offset_digits + 2 + l.bpl * 3 + 1 + l.bpl;
        assert!(used <= w as usize, "w={w} bpl={} used={used}", l.bpl);
    }
}

#[test]
fn binary_layout_fits_the_width() {
    for w in [40u16, 80, 120, 200] {
        let l = layout(Mode::Binary, w, 1024, None);
        let used = l.offset_digits + 2 + l.bpl * 9 + 1 + l.bpl;
        assert!(used <= w as usize, "w={w} bpl={} used={used}", l.bpl);
    }
}

#[test]
fn huge_files_get_wider_offset_column() {
    assert_eq!(layout(Mode::Hex, 120, 1024, None).offset_digits, 8);
    assert_eq!(layout(Mode::Hex, 120, 8 * 1024 * 1024 * 1024, None).offset_digits, 12);
}

#[test]
fn a_chosen_line_width_is_honoured_within_the_limits() {
    let wide = layout(Mode::Hex, 200, 1024, None);
    assert_eq!(wide.bpl, wide.fit);

    // Narrower than the terminal: that is the whole point of the keys.
    assert_eq!(layout(Mode::Hex, 200, 1024, Some(8)).bpl, 8);
    // Wider than the terminal can hold, or narrower than the mode allows:
    // clamped, never left to spill or collapse.
    assert_eq!(layout(Mode::Hex, 200, 1024, Some(999)).bpl, wide.fit);
    assert_eq!(layout(Mode::Hex, 200, 1024, Some(1)).bpl, 4);
    assert_eq!(layout(Mode::Binary, 200, 1024, Some(999)).bpl, layout(Mode::Binary, 200, 1024, None).fit);
}

#[test]
fn a_chosen_width_still_fits_the_window() {
    for w in [40u16, 80, 120, 200] {
        for want in [1usize, 4, 16, 64, 999] {
            let l = layout(Mode::Hex, w, 1024, Some(want));
            let used = l.offset_digits + 2 + l.bpl * 3 + 1 + l.bpl;
            assert!(used <= w as usize, "w={w} want={want} bpl={}", l.bpl);
        }
    }
}

/// Build a whole line the same way drawing does.
fn line(mode: Mode, enc: Encoding, bytes: &[u8], bpl: usize) -> String {
    let mut glyphs = Vec::new();
    encoding::decode(enc, bytes, &mut glyphs);
    let mut s = String::new();
    for i in 0..bpl {
        match bytes.get(i) {
            Some(&b) => push_byte(&mut s, mode, b, glyphs.get(i).copied().unwrap_or(' ')),
            None => push_gap(&mut s, mode),
        }
    }
    s
}

#[test]
fn short_tail_is_padded_so_text_column_stays_aligned() {
    let m = line(Mode::Hex, Encoding::Ascii, &[0xDE, 0xAD], 16);
    assert_eq!(m.chars().count(), 48);
    assert!(m.starts_with("DE AD "));
    assert!(m.ends_with("   "));
}

#[test]
fn binary_mode_spells_out_bits() {
    assert_eq!(line(Mode::Binary, Encoding::Ascii, &[0b1010_0001], 1), "10100001 ");
}

#[test]
fn text_mode_follows_the_selected_encoding() {
    let cyrillic = [0xCF, 0xF0, 0xE8, 0xE2, 0xE5, 0xF2];
    assert_eq!(line(Mode::Text, Encoding::Cp1251, &cyrillic, 6), "Привет");
    assert_eq!(line(Mode::Text, Encoding::Ascii, &cyrillic, 6), "......");
    assert_eq!(line(Mode::Text, Encoding::Cp437, &[0x01, 0x03, 0xB2, b'A'], 4), "☺♥▓A");
}

#[test]
fn text_mode_reads_as_text_not_as_letters_with_dots_between() {
    // The complaint this fixes: UTF-8 Cyrillic used to come out as
    // "П·р·и·в·е·т·" because every continuation byte claimed a cell.
    let utf8 = "Привет".as_bytes();
    assert_eq!(line(Mode::Text, Encoding::Utf8, utf8, utf8.len()), "Привет");
}

#[test]
fn the_text_column_of_a_byte_mode_still_marks_continuations() {
    // There it has to: drop a cell and the text stops lining up with the
    // bytes it belongs to. That column is drawn from the glyphs directly.
    let mut glyphs = Vec::new();
    encoding::decode(Encoding::Utf8, "Привет".as_bytes(), &mut glyphs);
    let column: String = glyphs.iter().collect();
    assert_eq!(column, "П·р·и·в·е·т·");
    assert_eq!(column.chars().count(), "Привет".len());
}

#[test]
fn gap_width_matches_byte_width_in_every_mode() {
    for mode in [Mode::Hex, Mode::Binary, Mode::Text] {
        let mut a = String::new();
        push_byte(&mut a, mode, 0x41, 'A');
        let mut b = String::new();
        push_gap(&mut b, mode);
        assert_eq!(a.chars().count(), b.chars().count());
    }
}

#[test]
fn offsets_are_zero_padded() {
    let mut s = String::new();
    format_offset(&mut s, 0xA840, 8);
    assert_eq!(s, "0000A840: ");
    format_offset(&mut s, 0x1_0000_0000, 12);
    assert_eq!(s, "000100000000: ");
}

#[test]
fn a_bare_offset_is_hex_because_every_offset_on_screen_is() {
    assert_eq!(parse_offset("2A0"), Some(0x2A0));
    assert_eq!(parse_offset("2a0"), Some(0x2A0));
    assert_eq!(parse_offset("0x4D5A"), Some(0x4D5A));
    assert_eq!(parse_offset("$FF"), Some(0xFF));
    assert_eq!(parse_offset("ffh"), Some(0xFF));
    assert_eq!(parse_offset(" 1000 "), Some(0x1000));
}

#[test]
fn decimal_needs_saying_so() {
    assert_eq!(parse_offset("d672"), Some(672));
    assert_eq!(parse_offset("D672"), Some(672));
    // 672 on its own is hex, and means something else entirely.
    assert_eq!(parse_offset("672"), Some(0x672));
}

#[test]
fn nonsense_is_rejected() {
    assert_eq!(parse_offset("nonsense"), None);
    assert_eq!(parse_offset(""), None);
    assert_eq!(parse_offset("d"), None);
    assert_eq!(parse_offset("0x"), None);
    assert_eq!(parse_offset("2A0zz"), None);
}

#[test]
fn the_offset_column_grows_past_four_gigabytes() {
    let four: u64 = 4 * 1024 * 1024 * 1024;
    assert_eq!(layout(Mode::Hex, 120, four, None).offset_digits, 8, "the last byte is FFFFFFFF");
    assert_eq!(layout(Mode::Hex, 120, four + 1, None).offset_digits, 12);
}

#[test]
fn an_offset_can_be_typed_in_every_form() {
    for n in [0u64, 9, 10, 0x2A0, 0xFACE, u64::MAX] {
        let t = format!("{n:X}");
        for s in [format!("0x{t}"), format!("0X{t}"), format!("${t}"), t.clone(), t.clone() + "h"] {
            assert_eq!(parse_offset(&s), Some(n), "{s}");
            assert_eq!(parse_offset(&s.to_lowercase()), Some(n), "{s}");
        }
        assert_eq!(parse_offset(&format!("d{n}")), Some(n));
        assert_eq!(parse_offset(&format!(" D {n} ")), Some(n));
    }
    assert_eq!(parse_offset("D5"), Some(5), "D asks for decimal");
    assert_eq!(parse_offset("$D5"), Some(0xD5));
}
