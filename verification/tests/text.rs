use dosview::encoding::{
    decode, encode_char, encode_text, one_cell, one_cell_or_dot, utf8_width, Encoding, CP437,
};
use dosview::pattern::{hex_digit, longest_literal_run, Pattern, PatternError};
use dosview::text;
use dosview::view::{
    byte_width, clamp, format_offset, layout, limits, parse_number, parse_offset, push_byte,
    push_gap, step, Mode,
};

fn cells(enc: Encoding, bytes: &[u8]) -> String {
    let mut out = Vec::new();
    decode(enc, bytes, &mut out);
    out.into_iter().collect()
}

fn pat(s: &str) -> Pattern {
    Pattern::parse(s, Encoding::Ascii).unwrap()
}

// ── Characters ──────────────────────────────────────────────────────────────

#[test]
fn white_space_is_what_unicode_says() {
    for c in '\0'..=char::MAX {
        assert_eq!(text::is_white(c), c.is_whitespace(), "{:x}", c as u32);
    }
}

#[test]
fn controls_never_take_a_cell() {
    for c in '\0'..=char::MAX {
        if c.is_control() {
            assert!(!one_cell(c), "{:x}", c as u32);
            assert_eq!(one_cell_or_dot(c), '.');
        }
    }
    assert!(one_cell('A') && one_cell('Я') && one_cell('·') && one_cell('█'));
    // soft hyphen, zero-width space, combining acute, emoji, fullwidth A
    for c in ['\u{AD}', '\u{200B}', '\u{301}', '😀', 'Ａ', '漢', '한'] {
        assert!(!one_cell(c), "{c}");
    }
}

#[test]
fn text_is_taken_apart_and_put_together() {
    let chars = text::chars_of("aЯ漢");
    assert_eq!(chars, vec!['a', 'Я', '漢']);
    assert_eq!(text::string_of(&chars), "aЯ漢");
    assert_eq!(text::char_count("aЯ漢"), 3);
    assert_eq!(text::trim(&text::chars_of(" \t a b\u{3000}")), vec!['a', ' ', 'b']);
    assert!(text::trim(&text::chars_of(" \n ")).is_empty());
}

#[test]
fn numbers_are_written_in_a_radix() {
    let mut s = String::new();
    text::push_radix(&mut s, 0, 10);
    text::push_radix(&mut s, 1024, 10);
    text::push_radix(&mut s, u64::MAX, 16);
    assert_eq!(s, "01024FFFFFFFFFFFFFFFF");
    assert_eq!(text::digit(0), '0');
    assert_eq!(text::digit(15), 'F');
}

#[test]
fn padding_goes_to_either_side() {
    let mut s = String::new();
    text::push_padded_front(&mut s, "7", '0', 3);
    text::push_padded_back(&mut s, "ab", 4);
    text::push_padded_front(&mut s, "long", ' ', 2);
    assert_eq!(s, "007ab  long");
    text::push_copies(&mut s, '-', 2);
    assert_eq!(s, "007ab  long--");
}

// ── Code pages ──────────────────────────────────────────────────────────────

#[test]
fn names_fit_the_space_kept_for_them() {
    for enc in Encoding::ALL {
        assert!(enc.name().chars().count() <= Encoding::NAME_WIDTH);
        assert!(enc.next().prev() == enc);
        assert!(enc.prev().next() == enc);
    }
    let names: Vec<&str> = Encoding::ALL.iter().map(|e| e.name()).collect();
    assert_eq!(names, vec!["ASCII", "CP437", "CP866", "CP1251", "KOI8-R", "UTF-8"]);
}

#[test]
fn every_byte_of_cp437_has_its_glyph() {
    let bytes: Vec<u8> = (0..=255u8).collect();
    let all: String = CP437.iter().collect();
    assert_eq!(cells(Encoding::Cp437, &bytes), all);
}

#[test]
fn a_character_encodes_to_one_byte_where_it_has_one() {
    assert_eq!(encode_char(Encoding::Cp866, 'П'), Some(0x8F));
    assert_eq!(encode_char(Encoding::Koi8r, 'П'), Some(0xF0));
    assert_eq!(encode_char(Encoding::Cp1251, 'A'), Some(0x41));
    assert_eq!(encode_char(Encoding::Cp437, 'П'), None);
    // The unassigned byte of Windows-1251 belongs to no character.
    assert_eq!(encode_char(Encoding::Cp1251, '\u{98}'), None);
    assert_eq!(encode_text(Encoding::Koi8r, "Ёж"), Ok(vec![0xB3, 0xD6]));
}

#[test]
fn the_width_of_a_character_is_in_its_first_byte() {
    let widths: Vec<usize> = [0xC1u8, 0xC2, 0xDF, 0xE0, 0xEF, 0xF0, 0xF4, 0xF5, 0x80]
        .iter()
        .map(|&b| utf8_width(b))
        .collect();
    assert_eq!(widths, vec![0, 2, 2, 3, 3, 4, 4, 0, 0]);
}

#[test]
fn utf8_of_every_width_is_drawn_on_its_first_byte() {
    assert_eq!(cells(Encoding::Utf8, "aЯ€𐍈z".as_bytes()), "aЯ·€··𐍈···z");
    // A surrogate and an overlong form are no characters.
    assert_eq!(cells(Encoding::Utf8, &[0xED, 0xA0, 0x80]), "...");
    assert_eq!(cells(Encoding::Utf8, &[0xE0, 0x80, 0x80]), "...");
}

#[test]
fn a_line_decoded_with_context_shows_what_the_file_would() {
    let file = "Привет, €вропа".as_bytes();
    let whole: Vec<char> = cells(Encoding::Utf8, file).chars().collect();
    for off in 3..file.len() - 4 {
        let part: Vec<char> = cells(Encoding::Utf8, &file[off - 3..off + 4]).chars().collect();
        assert_eq!(part[3], whole[off], "offset {off}");
    }
}

// ── Patterns ────────────────────────────────────────────────────────────────

#[test]
fn a_wildcard_in_front_does_not_make_matches_overlap() {
    assert_eq!(pat("x:?? 41").find_all(b"xAA"), vec![0]);
    assert_eq!(pat("x:?? 41").find_all(b"xAAA"), vec![0, 2]);
    assert_eq!(pat("x:?? 41 ??").find_all(b"AAAAAAA"), vec![0, 3]);
}

#[test]
fn a_pattern_longer_than_the_data_is_nowhere() {
    assert!(pat("ABC").find_all(b"AB").is_empty());
    assert!(pat("x:?? ??").find_all(b"A").is_empty());
    assert!(!pat("AB").matches_at(b"AB", 1));
    assert!(pat("AB").matches_at(b"-AB", 1));
    assert!(!pat("AB").matches_at(b"-AB", usize::MAX));
}

#[test]
fn hex_may_be_spaced_as_one_likes() {
    assert_eq!(pat("X:4d5a").find_all(b"MZ"), vec![0]);
    assert_eq!(pat("x: 4 D 5 A ").find_all(b"-MZ"), vec![1]);
    assert_eq!(pat("x:4d5a").src(), "x:4d5a");
    assert_eq!(Pattern::parse("x:", Encoding::Ascii).unwrap_err(), PatternError::BadHex);
    assert_eq!(Pattern::parse("x: ", Encoding::Ascii).unwrap_err(), PatternError::BadHex);
    assert_eq!(Pattern::parse("x:5?", Encoding::Ascii).unwrap_err(), PatternError::BadHex);
    // Without the colon it is text.
    assert_eq!(pat("x4D").find_all(b"x4D"), vec![0]);
}

#[test]
fn what_is_wrong_with_a_pattern_is_said() {
    assert_eq!(PatternError::Empty.message(), "Pattern is empty");
    assert_eq!(
        PatternError::BadHex.message(),
        "Bad hex: expected pairs like x:4D 5A or x:4D ??"
    );
    assert_eq!(
        PatternError::Unrepresentable('П', Encoding::Cp437).message(),
        "'П' is not in CP437"
    );
}

#[test]
fn the_first_of_the_longest_runs_is_the_anchor() {
    let items = [Some(1), None, Some(2), Some(3), None, Some(4), Some(5)];
    assert_eq!(longest_literal_run(&items), (2, vec![2, 3]));
    assert_eq!(longest_literal_run(&[None, None]), (0, vec![]));
    assert_eq!(pat("x:?? ??").anchor(), b"");
    let digits: Vec<Option<u8>> = "09afAFgG".chars().map(hex_digit).collect();
    assert_eq!(
        digits,
        vec![Some(0), Some(9), Some(10), Some(15), Some(10), Some(15), None, None]
    );
}

// ── Lines and offsets ───────────────────────────────────────────────────────

#[test]
fn modes_have_their_limits_and_steps() {
    assert_eq!(limits(Mode::Hex), (4, 64));
    assert_eq!(limits(Mode::Binary), (1, 16));
    assert_eq!(limits(Mode::Text), (1, 512));
    assert_eq!((step(Mode::Hex), step(Mode::Binary), step(Mode::Text)), (4, 1, 8));
    assert_eq!((byte_width(Mode::Hex), byte_width(Mode::Binary), byte_width(Mode::Text)), (3, 9, 1));
    assert_eq!((Mode::Hex.name(), Mode::Binary.name(), Mode::Text.name()), ("HEX", "BIN", "TEXT"));
    assert!(Mode::Hex.has_text_column() && Mode::Binary.has_text_column());
    assert!(!Mode::Text.has_text_column());
    assert_eq!((clamp(1, 2, 5), clamp(3, 2, 5), clamp(9, 2, 5)), (2, 3, 5));
}

#[test]
fn a_window_of_eighty_columns_holds_sixteen_bytes() {
    let l = layout(Mode::Hex, 80, 1024, None);
    assert_eq!((l.bpl, l.fit, l.offset_digits), (16, 16, 8));
    assert_eq!(layout(Mode::Binary, 80, 1024, None).bpl, 6);
    assert_eq!(layout(Mode::Text, 80, 1024, None).bpl, 70);
    // Too narrow for anything: the narrowest line there is.
    assert_eq!(layout(Mode::Hex, 0, 1024, None).bpl, 4);
    assert_eq!(layout(Mode::Text, 5, 1024, None).bpl, 1);
    // Lines wider than the eye can follow are not offered.
    assert_eq!(layout(Mode::Hex, 2000, 1024, None).bpl, 64);
}

#[test]
fn an_offset_on_screen_is_understood_at_the_prompt() {
    for off in [0u64, 0x2A0, 0x4D5A, 0xCFFF_FFFF, 0xFFFF_FFFF] {
        let mut s = String::new();
        format_offset(&mut s, off, 8);
        assert_eq!(parse_offset(s.trim_end_matches(": ")), Some(off));
    }
    // The digit D in front asks for decimal.
    assert_eq!(parse_offset("D0000000"), Some(0));
    assert_eq!(parse_offset("0xD0000000"), Some(0xD000_0000));
}

#[test]
fn numbers_have_to_fit() {
    let read = |s: &str, radix| parse_number(&text::chars_of(s), radix);
    assert_eq!(read("FFFFFFFFFFFFFFFF", 16), Some(u64::MAX));
    assert_eq!(read("10000000000000000", 16), None);
    assert_eq!(read("18446744073709551615", 10), Some(u64::MAX));
    assert_eq!(read("18446744073709551616", 10), None);
    assert_eq!(read("+7", 10), Some(7));
    assert_eq!(read("+", 10), None);
    assert_eq!(read("-7", 10), None);
    assert_eq!(read("A", 10), None);
    assert_eq!(parse_offset("d 672 "), Some(672));
    assert_eq!(parse_offset("0X2A0H"), Some(0x2A0));
}

#[test]
fn bytes_are_spelled_out_in_every_mode() {
    let mut s = String::new();
    push_byte(&mut s, Mode::Hex, 0x0A, '.');
    push_byte(&mut s, Mode::Binary, 0x0A, '.');
    push_byte(&mut s, Mode::Text, 0x0A, '.');
    push_byte(&mut s, Mode::Text, 0x9F, '·');
    push_gap(&mut s, Mode::Hex);
    assert_eq!(s, "0A 00001010 .   ");
}
