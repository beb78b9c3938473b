//! Laws of what stands on a cell, over code points.

use crate::encoding;
use crate::encoding::{Encoding, CP1251_HIGH, CP437, CP866_HIGH, KOI8R_HIGH};
use crate::laws::encoding as page_laws;
use vstd::prelude::*;
use vstd::utf8::*;

verus! {

// ── UTF-8 ───────────────────────────────────────────────────────────────────

/// The code points that take one column.
pub open spec fn one_column(u: int) -> bool {
    ||| 0x0020 <= u <= 0x007E
    ||| 0x00A0 <= u <= 0x00AC
    ||| 0x00AE <= u <= 0x02FF
    ||| 0x0370 <= u <= 0x0482
    ||| 0x048A <= u <= 0x10FF
    ||| 0x1160 <= u <= 0x180A
    ||| 0x1810 <= u <= 0x1AAF
    ||| 0x1B00 <= u <= 0x1DBF
    ||| 0x1E00 <= u <= 0x200A
    ||| 0x2010 <= u <= 0x2027
    ||| 0x202F <= u <= 0x205F
    ||| 0x2070 <= u <= 0x20CF
    ||| 0x2100 <= u <= 0x2E7F
    ||| 0x303F <= u <= 0x3040
    ||| 0x4DC0 <= u <= 0x4DFF
    ||| 0xA4D0 <= u <= 0xABFF
    ||| 0xD7A4 <= u <= 0xD7FF
    ||| 0xE000 <= u <= 0xF8FF
    ||| 0xFB00 <= u <= 0xFDFF
    ||| 0xFE1A <= u <= 0xFE1F
    ||| 0xFE70 <= u <= 0xFEFE
    ||| 0xFF61 <= u <= 0xFFDF
    ||| 0xFFE7 <= u <= 0x1F2FF
    ||| 0x1FB00 <= u <= 0x1FFFF
    ||| 0x3FFFE <= u <= 0xDFFFF
    ||| 0xE01F0 <= u <= 0x10FFFF
}

/// The code points that take none or two, or steer the terminal.
pub open spec fn other_width(u: int) -> bool {
    // controls
    ||| 0x0000 <= u <= 0x001F
    ||| 0x007F <= u <= 0x009F
    // soft hyphen
    ||| 0x00AD <= u <= 0x00AD
    // combining marks
    ||| 0x0300 <= u <= 0x036F
    ||| 0x0483 <= u <= 0x0489
    ||| 0x1AB0 <= u <= 0x1AFF
    ||| 0x1DC0 <= u <= 0x1DFF
    ||| 0x20D0 <= u <= 0x20FF
    ||| 0xFE20 <= u <= 0xFE2F
    // variation selectors and tags
    ||| 0x180B <= u <= 0x180F
    ||| 0xFE00 <= u <= 0xFE0F
    ||| 0xE0000 <= u <= 0xE01EF
    // zero-width and direction characters
    ||| 0x200B <= u <= 0x200F
    ||| 0x2028 <= u <= 0x202E
    ||| 0x2060 <= u <= 0x206F
    ||| 0xFEFF <= u <= 0xFEFF
    // double-width blocks
    ||| 0x1100 <= u <= 0x115F
    ||| 0x2E80 <= u <= 0x303E
    ||| 0x3041 <= u <= 0x4DBF
    ||| 0x4E00 <= u <= 0xA4CF
    ||| 0xAC00 <= u <= 0xD7A3
    ||| 0xF900 <= u <= 0xFAFF
    ||| 0xFE10 <= u <= 0xFE19
    ||| 0xFE30 <= u <= 0xFE6F
    ||| 0xFF00 <= u <= 0xFF60
    ||| 0xFFE0 <= u <= 0xFFE6
    ||| 0x1F300 <= u <= 0x1FAFF
    ||| 0x20000 <= u <= 0x3FFFD
}

/// A character that takes one column is drawn as itself, on the cell of the
/// first byte of its UTF-8 form; any other shows as a dot there. The cells of
/// the other bytes show the continuation mark.
pub proof fn law_utf8_draws_what_takes_one_column(c: char, i: int)
    ensures
        ({
            let bytes = encode_utf8(seq![c]);
            let shown = encoding::cells(Encoding::Utf8, bytes);
            &&& bytes.len() >= 1 && shown.len() == bytes.len()
            &&& one_column(c as int) ==> shown[0] == c
            &&& other_width(c as int) ==> shown[0] == '.'
            &&& 1 <= i < shown.len() ==> shown[i] == '·'
        }),
        one_column(c as int) != other_width(c as int),
{
    let bytes = encode_utf8(seq![c]);
    assert(bytes.take(bytes.len() as int) =~= bytes);
    page_laws::law_utf8_takes_a_character_at_a_time(bytes, c);
    encoding::lemma_utf8_cells_len(bytes);
}

/// The letters of the scripts that take one column are drawn as themselves:
/// Latin, Greek, Cyrillic, Armenian, Hebrew, Arabic, Georgian, and the signs
/// and box drawing around them.
pub proof fn law_letters_are_drawn_as_themselves(c: char)
    requires
        ({
            let u = c as int;
            ||| 0x0021 <= u <= 0x007E
            ||| 0x00A1 <= u <= 0x00AC
            ||| 0x00AE <= u <= 0x02AF
            ||| 0x0370 <= u <= 0x0482
            ||| 0x048A <= u <= 0x06FF
            ||| 0x10A0 <= u <= 0x10FF
            ||| 0x1E00 <= u <= 0x1FFF
            ||| 0x20A0 <= u <= 0x20CF
            ||| 0x2100 <= u <= 0x27BF
        }),
    ensures
        encoding::cells(Encoding::Utf8, encode_utf8(seq![c]))[0] == c,
{
    law_utf8_draws_what_takes_one_column(c, 0);
}

// ── Single-byte code pages ──────────────────────────────────────────────────

/// Strict ASCII: printable as it is, everything else a dot. The code pages
/// agree with it below 0x80, but for CP437, which has a glyph for every byte.
pub proof fn law_ascii_shows_what_is_printable(e: Encoding, b: u8)
    requires
        e == Encoding::Ascii || b < 0x80,
        e != Encoding::Cp437,
    ensures
        encoding::cells(e, seq![b]).len() == 1,
        0x20 <= b <= 0x7E ==> encoding::cells(e, seq![b])[0] as int == b as int,
        b < 0x20 || b >= 0x7F ==> encoding::cells(e, seq![b])[0] == '.',
{
    encoding::lemma_utf8_cells_len(seq![b]);
    if e == Encoding::Utf8 {
        assert(seq![b].skip(1) =~= Seq::<u8>::empty());
        assert(encoding::utf8_cells(Seq::<u8>::empty()) =~= Seq::<char>::empty());
    }
}

/// The code points of CP437 where they are not ASCII: its pictures for the
/// control bytes, and its upper half.
pub open spec fn cp437_low() -> Seq<int> {
    seq![
        0x0020int, 0x263A, 0x263B, 0x2665, 0x2666, 0x2663, 0x2660, 0x2022, 0x25D8, 0x25CB, 0x25D9, 0x2642,
        0x2640, 0x266A, 0x266B, 0x263C, 0x25BA, 0x25C4, 0x2195, 0x203C, 0x00B6, 0x00A7, 0x25AC, 0x21A8,
        0x2191, 0x2193, 0x2192, 0x2190, 0x221F, 0x2194, 0x25B2, 0x25BC,
    ]
}

pub open spec fn cp437_high() -> Seq<int> {
    seq![
        0x00C7int, 0x00FC, 0x00E9, 0x00E2, 0x00E4, 0x00E0, 0x00E5, 0x00E7, 0x00EA, 0x00EB, 0x00E8, 0x00EF,
        0x00EE, 0x00EC, 0x00C4, 0x00C5, 0x00C9, 0x00E6, 0x00C6, 0x00F4, 0x00F6, 0x00F2, 0x00FB, 0x00F9,
        0x00FF, 0x00D6, 0x00DC, 0x00A2, 0x00A3, 0x00A5, 0x20A7, 0x0192, 0x00E1, 0x00ED, 0x00F3, 0x00FA,
        0x00F1, 0x00D1, 0x00AA, 0x00BA, 0x00BF, 0x2310, 0x00AC, 0x00BD, 0x00BC, 0x00A1, 0x00AB, 0x00BB,
        0x2591, 0x2592, 0x2593, 0x2502, 0x2524, 0x2561, 0x2562, 0x2556, 0x2555, 0x2563, 0x2551, 0x2557,
        0x255D, 0x255C, 0x255B, 0x2510, 0x2514, 0x2534, 0x252C, 0x251C, 0x2500, 0x253C, 0x255E, 0x255F,
        0x255A, 0x2554, 0x2569, 0x2566, 0x2560, 0x2550, 0x256C, 0x2567, 0x2568, 0x2564, 0x2565, 0x2559,
        0x2558, 0x2552, 0x2553, 0x256B, 0x256A, 0x2518, 0x250C, 0x2588, 0x2584, 0x258C, 0x2590, 0x2580,
        0x03B1, 0x00DF, 0x0393, 0x03C0, 0x03A3, 0x03C3, 0x00B5, 0x03C4, 0x03A6, 0x0398, 0x03A9, 0x03B4,
        0x221E, 0x03C6, 0x03B5, 0x2229, 0x2261, 0x00B1, 0x2265, 0x2264, 0x2320, 0x2321, 0x00F7, 0x2248,
        0x00B0, 0x2219, 0x00B7, 0x221A, 0x207F, 0x00B2, 0x25A0, 0x0020,
    ]
}

/// CP437 shows every byte: pictures for the control bytes, ASCII, a house at
/// 0x7F, and its upper half.
pub proof fn law_cp437_shows_all_256_bytes(b: u8)
    ensures
        encoding::cells(Encoding::Cp437, seq![b]).len() == 1,
        encoding::cells(Encoding::Cp437, seq![b])[0] as int == if b < 0x20 {
            cp437_low()[b as int]
        } else if b < 0x7F {
            b as int
        } else if b == 0x7F {
            0x2302
        } else {
            cp437_high()[b - 0x80]
        },
{
    assert(CP437@.len() == 256);
    assert(forall|k: int| 0 <= k < 0x20 ==> (#[trigger] CP437@[k]) as int == cp437_low()[k]);
    assert(forall|k: int| 0x20 <= k < 0x7F ==> (#[trigger] CP437@[k]) as int == k);
    assert(forall|k: int|
        0x80 <= k < 0x100 ==> (#[trigger] CP437@[k]) as int == cp437_high()[k - 0x80]);
}

/// CP866: the alphabet in two runs, with the box drawing of CP437 left in
/// between.
pub proof fn law_cp866_keeps_the_box_drawing(b: u8)
    requires
        b >= 0x80,
    ensures
        ({
            let shown = encoding::cells(Encoding::Cp866, seq![b]);
            let signs: Seq<int> = seq![
                0x0401int, 0x0451, 0x0404, 0x0454, 0x0407, 0x0457, 0x040E, 0x045E, 0x00B0, 0x2219, 0x00B7, 0x221A,
                0x2116, 0x00A4, 0x25A0, 0x00A0,
            ];
            &&& shown.len() == 1
            &&& shown[0] as int == if b < 0xB0 {
                // А to Я, а to п
                0x0410 + (b - 0x80)
            } else if b < 0xE0 {
                cp437_high()[b - 0x80]
            } else if b < 0xF0 {
                // р to я
                0x0440 + (b - 0xE0)
            } else {
                signs[b - 0xF0]
            }
        }),
{
    assert(CP866_HIGH@.len() == 128);
    let signs: Seq<int> = seq![
        0x0401int, 0x0451, 0x0404, 0x0454, 0x0407, 0x0457, 0x040E, 0x045E, 0x00B0, 0x2219, 0x00B7, 0x221A,
        0x2116, 0x00A4, 0x25A0, 0x00A0,
    ];
    assert(forall|k: int| 0 <= k < 0x30 ==> (#[trigger] CP866_HIGH@[k]) as int == 0x0410 + k);
    assert(forall|k: int|
        0x30 <= k < 0x60 ==> (#[trigger] CP866_HIGH@[k]) as int == cp437_high()[k]);
    assert(forall|k: int|
        0x60 <= k < 0x70 ==> (#[trigger] CP866_HIGH@[k]) as int == 0x0440 + (k - 0x60));
    assert(forall|k: int|
        0x70 <= k < 0x80 ==> (#[trigger] CP866_HIGH@[k]) as int == signs[k - 0x70]);
}

/// CP1251: the alphabet in one run from 0xC0 on, other letters and signs below.
/// A byte that stands for nothing and the soft hyphen show as dots.
pub proof fn law_cp1251_has_the_alphabet_in_one_run(b: u8)
    requires
        b >= 0x80,
    ensures
        ({
            let shown = encoding::cells(Encoding::Cp1251, seq![b]);
            let signs: Seq<int> = seq![
                0x0402int, 0x0403, 0x201A, 0x0453, 0x201E, 0x2026, 0x2020, 0x2021, 0x20AC, 0x2030, 0x0409, 0x2039,
                0x040A, 0x040C, 0x040B, 0x040F, 0x0452, 0x2018, 0x2019, 0x201C, 0x201D, 0x2022, 0x2013, 0x2014,
                0x002E, 0x2122, 0x0459, 0x203A, 0x045A, 0x045C, 0x045B, 0x045F, 0x00A0, 0x040E, 0x045E, 0x0408,
                0x00A4, 0x0490, 0x00A6, 0x00A7, 0x0401, 0x00A9, 0x0404, 0x00AB, 0x00AC, 0x002E, 0x00AE, 0x0407,
                0x00B0, 0x00B1, 0x0406, 0x0456, 0x0491, 0x00B5, 0x00B6, 0x00B7, 0x0451, 0x2116, 0x0454, 0x00BB,
                0x0458, 0x0405, 0x0455, 0x0457,
            ];
            &&& shown.len() == 1
            &&& shown[0] as int == if b >= 0xC0 {
                0x0410 + (b - 0xC0)
            } else {
                signs[b - 0x80]
            }
        }),
{
    assert(CP1251_HIGH@.len() == 128);
    let signs: Seq<int> = seq![
        0x0402int, 0x0403, 0x201A, 0x0453, 0x201E, 0x2026, 0x2020, 0x2021, 0x20AC, 0x2030, 0x0409, 0x2039,
        0x040A, 0x040C, 0x040B, 0x040F, 0x0452, 0x2018, 0x2019, 0x201C, 0x201D, 0x2022, 0x2013, 0x2014,
        0x0000, 0x2122, 0x0459, 0x203A, 0x045A, 0x045C, 0x045B, 0x045F, 0x00A0, 0x040E, 0x045E, 0x0408,
        0x00A4, 0x0490, 0x00A6, 0x00A7, 0x0401, 0x00A9, 0x0404, 0x00AB, 0x00AC, 0x00AD, 0x00AE, 0x0407,
        0x00B0, 0x00B1, 0x0406, 0x0456, 0x0491, 0x00B5, 0x00B6, 0x00B7, 0x0451, 0x2116, 0x0454, 0x00BB,
        0x0458, 0x0405, 0x0455, 0x0457,
    ];
    assert(forall|k: int| 0 <= k < 0x40 ==> (#[trigger] CP1251_HIGH@[k]) as int == signs[k]);
    assert(forall|k: int|
        0x40 <= k < 0x80 ==> (#[trigger] CP1251_HIGH@[k]) as int == 0x0410 + (k - 0x40));
}

/// KOI8-R: the letters stand where dropping the high bit leaves their Latin
/// counterparts, capitals 0x20 above the small ones.
pub proof fn law_koi8r_follows_the_latin_letters(b: u8)
    requires
        b >= 0x80,
    ensures
        ({
            let shown = encoding::cells(Encoding::Koi8r, seq![b]);
            let signs: Seq<int> = seq![
                0x2500int, 0x2502, 0x250C, 0x2510, 0x2514, 0x2518, 0x251C, 0x2524, 0x252C, 0x2534, 0x253C, 0x2580,
                0x2584, 0x2588, 0x258C, 0x2590, 0x2591, 0x2592, 0x2593, 0x2320, 0x25A0, 0x2219, 0x221A, 0x2248,
                0x2264, 0x2265, 0x00A0, 0x2321, 0x00B0, 0x00B2, 0x00B7, 0x00F7, 0x2550, 0x2551, 0x2552, 0x0451,
                0x2553, 0x2554, 0x2555, 0x2556, 0x2557, 0x2558, 0x2559, 0x255A, 0x255B, 0x255C, 0x255D, 0x255E,
                0x255F, 0x2560, 0x2561, 0x0401, 0x2562, 0x2563, 0x2564, 0x2565, 0x2566, 0x2567, 0x2568, 0x2569,
                0x256A, 0x256B, 0x256C, 0x00A9,
            ];
            let letters: Seq<int> = seq![
                0x044Eint, 0x0430, 0x0431, 0x0446, 0x0434, 0x0435, 0x0444, 0x0433, 0x0445, 0x0438, 0x0439, 0x043A,
                0x043B, 0x043C, 0x043D, 0x043E, 0x043F, 0x044F, 0x0440, 0x0441, 0x0442, 0x0443, 0x0436, 0x0432,
                0x044C, 0x044B, 0x0437, 0x0448, 0x044D, 0x0449, 0x0447, 0x044A,
            ];
            &&& shown.len() == 1
            &&& shown[0] as int == if b < 0xC0 {
                signs[b - 0x80]
            } else if b < 0xE0 {
                letters[b - 0xC0]
            } else {
                letters[b - 0xE0] - 0x20
            }
        }),
{
    assert(KOI8R_HIGH@.len() == 128);
    let signs: Seq<int> = seq![
        0x2500int, 0x2502, 0x250C, 0x2510, 0x2514, 0x2518, 0x251C, 0x2524, 0x252C, 0x2534, 0x253C, 0x2580,
        0x2584, 0x2588, 0x258C, 0x2590, 0x2591, 0x2592, 0x2593, 0x2320, 0x25A0, 0x2219, 0x221A, 0x2248,
        0x2264, 0x2265, 0x00A0, 0x2321, 0x00B0, 0x00B2, 0x00B7, 0x00F7, 0x2550, 0x2551, 0x2552, 0x0451,
        0x2553, 0x2554, 0x2555, 0x2556, 0x2557, 0x2558, 0x2559, 0x255A, 0x255B, 0x255C, 0x255D, 0x255E,
        0x255F, 0x2560, 0x2561, 0x0401, 0x2562, 0x2563, 0x2564, 0x2565, 0x2566, 0x2567, 0x2568, 0x2569,
        0x256A, 0x256B, 0x256C, 0x00A9,
    ];
    let letters: Seq<int> = seq![
        0x044Eint, 0x0430, 0x0431, 0x0446, 0x0434, 0x0435, 0x0444, 0x0433, 0x0445, 0x0438, 0x0439, 0x043A,
        0x043B, 0x043C, 0x043D, 0x043E, 0x043F, 0x044F, 0x0440, 0x0441, 0x0442, 0x0443, 0x0436, 0x0432,
        0x044C, 0x044B, 0x0437, 0x0448, 0x044D, 0x0449, 0x0447, 0x044A,
    ];
    assert(forall|k: int| 0 <= k < 0x40 ==> (#[trigger] KOI8R_HIGH@[k]) as int == signs[k]);
    assert(forall|k: int|
        0x40 <= k < 0x60 ==> (#[trigger] KOI8R_HIGH@[k]) as int == letters[k - 0x40]);
    assert(forall|k: int|
        0x60 <= k < 0x80 ==> (#[trigger] KOI8R_HIGH@[k]) as int == letters[k - 0x60] - 0x20);
}

/// A single-byte code page shows each byte by itself: a cell depends on its own
/// byte and no other.
pub proof fn law_each_byte_shows_by_itself(e: Encoding, bytes: Seq<u8>, i: int)
    requires
        e != Encoding::Utf8,
        0 <= i < bytes.len(),
    ensures
        encoding::cells(e, bytes).len() == bytes.len(),
        encoding::cells(e, bytes)[i] == encoding::cells(e, seq![bytes[i]])[0],
{
}

/// The code pages in their order: ASCII, CP437, CP866, CP1251, KOI8-R, UTF-8,
/// and round again.
pub proof fn law_code_pages_come_in_their_order()
    ensures
        Encoding::Ascii.after() == Encoding::Cp437,
        Encoding::Cp437.after() == Encoding::Cp866,
        Encoding::Cp866.after() == Encoding::Cp1251,
        Encoding::Cp1251.after() == Encoding::Koi8r,
        Encoding::Koi8r.after() == Encoding::Utf8,
        Encoding::Utf8.after() == Encoding::Ascii,
        forall|e: Encoding| #[trigger] e.after().before() == e,
{
}

/// What of a text cannot be held in a code page is named by its first
/// character that has no byte there.
pub proof fn law_the_first_missing_character_is_named(e: Encoding, s: Seq<char>)
    requires
        !encoding::as_utf8(e),
        !encoding::representable(e, s),
    ensures
        exists|i: int|
            0 <= i < s.len() && encoding::missing_char(e, s) == Some(#[trigger] s[i])
                && encoding::char_byte(e, s[i]) is None && forall|j: int|
                0 <= j < i ==> encoding::char_byte(e, #[trigger] s[j]) is Some,
    decreases s.len(),
{
    if s.len() > 0 && encoding::char_byte(e, s[0]) is Some {
        let t = s.drop_first();
        assert(!encoding::representable(e, t)) by {
            if encoding::representable(e, t) {
                assert forall|i: int| 0 <= i < s.len() implies encoding::char_byte(
                    e,
                    #[trigger] s[i],
                ) is Some by {
                    if i > 0 {
                        assert(t[i - 1] == s[i]);
                    }
                }
            }
        }
        law_the_first_missing_character_is_named(e, t);
        let i = choose|i: int|
            0 <= i < t.len() && encoding::missing_char(e, t) == Some(#[trigger] t[i])
                && encoding::char_byte(e, t[i]) is None && forall|j: int|
                0 <= j < i ==> encoding::char_byte(e, #[trigger] t[j]) is Some;
        assert(s[i + 1] == t[i]);
        assert forall|j: int| 0 <= j < i + 1 implies encoding::char_byte(
            e,
            #[trigger] s[j],
        ) is Some by {
            if j > 0 {
                assert(t[j - 1] == s[j]);
            }
        }
    } else if s.len() > 0 {
        assert(encoding::missing_char(e, s) == Some(s[0]));
    }
}

} // verus!
