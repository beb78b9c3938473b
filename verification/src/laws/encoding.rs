//! Laws of the code pages.

use crate::encoding;
use crate::encoding::{Encoding, CONTINUATION, CP437, LOOKAHEAD};
use crate::text;
use vstd::prelude::*;
use vstd::utf8::*;

verus! {

/// Stepping to the next code page and back, or back and forth, changes
/// nothing, and six steps go all the way round.
pub proof fn law_cycling_wraps_both_ways(e: Encoding)
    ensures
        e.after().before() == e,
        e.before().after() == e,
        e.after().after().after().after().after().after() == e,
        Encoding::Ascii.before() == Encoding::Utf8,
        Encoding::Utf8.after() == Encoding::Ascii,
{
}

/// No name is wider than the space the title bar keeps for it.
pub proof fn law_names_fit(e: Encoding)
    ensures
        e.name_text().len() <= Encoding::NAME_WIDTH,
{
    reveal_strlit("ASCII");
    reveal_strlit("CP437");
    reveal_strlit("CP866");
    reveal_strlit("CP1251");
    reveal_strlit("KOI8-R");
    reveal_strlit("UTF-8");
}

/// One byte, one cell, in every code page.
pub proof fn law_one_cell_per_byte(e: Encoding, bytes: Seq<u8>)
    ensures
        encoding::cells(e, bytes).len() == bytes.len(),
{
    encoding::lemma_utf8_cells_len(bytes);
}

proof fn lemma_char_below(c: char)
    ensures
        (c as u32) < 0x80 ==> '\0' <= c <= '\u{7f}' && (c as u8) as char == c && (c as u8) as int
            == c as int,
{
}

/// Text that a single-byte code page can hold reads back character by
/// character after it went through the file's bytes; a control character shows
/// as its byte does, and any other that does not fit one cell as a dot.
pub proof fn law_text_reads_back(e: Encoding, s: Seq<char>)
    requires
        !encoding::as_utf8(e),
        encoding::representable(e, s),
    ensures
        encoding::cells(e, encoding::text_bytes(e, s)) == Seq::new(
            s.len(),
            |i: int|
                if (s[i] as u32) < 0x20 || s[i] as u32 == 0x7F {
                    encoding::byte_glyph(e, s[i] as u8)
                } else {
                    encoding::glyph_or_dot(s[i])
                },
        ),
{
    let bytes = encoding::text_bytes(e, s);
    let shown = encoding::cells(e, bytes);
    assert forall|i: int| 0 <= i < s.len() implies #[trigger] shown[i] == if (s[i] as u32) < 0x20
        || s[i] as u32 == 0x7F {
        encoding::byte_glyph(e, s[i] as u8)
    } else {
        encoding::glyph_or_dot(s[i])
    } by {
        let c = s[i];
        assert(encoding::char_byte(e, s[i]) is Some);
        if (c as u32) < 0x80 {
            lemma_char_below(c);
            assert(forall|k: int| 0x20 <= k < 0x7F ==> CP437@[k] == k as char);
            assert(bytes[i] == c as u8);
        } else {
            law_a_character_is_held_as_its_byte(e, c);
            assert(encoding::cells(e, seq![bytes[i]])[0] == encoding::byte_glyph(e, bytes[i]));
        }
    }
}

/// Text that a single-byte code page can hold, made of characters that fit one
/// cell, reads the same after it went through the file's bytes.
pub proof fn law_text_round_trips(e: Encoding, s: Seq<char>)
    requires
        !encoding::as_utf8(e),
        encoding::representable(e, s),
        forall|i: int| 0 <= i < s.len() ==> encoding::one_cell_char(#[trigger] s[i]),
    ensures
        encoding::cells(e, encoding::text_bytes(e, s)) == s,
{
    law_text_reads_back(e, s);
    assert(encoding::cells(e, encoding::text_bytes(e, s)) =~= s);
}

/// Text below 0x80 is the same bytes in every code page.
pub proof fn law_ascii_is_the_same_everywhere(e: Encoding, s: Seq<char>)
    requires
        forall|i: int| 0 <= i < s.len() ==> (#[trigger] s[i] as u32) < 0x80,
    ensures
        encoding::representable(e, s),
        encoding::text_bytes(e, s) == Seq::new(s.len(), |i: int| s[i] as u8),
{
    assert forall|i: int| 0 <= i < s.len() implies '\0' <= #[trigger] s[i] <= '\u{7f}' by {
        lemma_char_below(s[i]);
        assert((s[i] as u32) < 0x80);
    }
    is_ascii_chars_encode_utf8(s);
    assert(encoding::text_bytes(e, s) =~= Seq::new(s.len(), |i: int| s[i] as u8));
}

/// The cells of one character in UTF-8: the character itself (or a dot), then
/// a continuation mark for each byte after the first.
pub open spec fn char_cells(c: char) -> Seq<char> {
    seq![encoding::glyph_or_dot(c)] + text::copies(CONTINUATION, encode_scalar(c as u32).len() - 1)
}

/// The cells of text, character by character.
pub open spec fn text_cells(s: Seq<char>) -> Seq<char>
    decreases s.len(),
{
    if s.len() == 0 {
        seq![]
    } else {
        char_cells(s[0]) + text_cells(s.drop_first())
    }
}

proof fn lemma_leads(b1: u8, b2: u8, b3: u8, b4: u8)
    ensures
        is_leading_byte_width_2(b1) && codepoint_width_2(b1, b2) >= 0x80 ==> b1 >= 0xC2,
        is_leading_byte_width_4(b1) && codepoint_width_4(b1, b2, b3, b4) <= 0x10FFFF ==> b1 <= 0xF4,
{
    assert(0xC0 <= b1 <= 0xDF && ((((b1 & 0x1F) as u32) << 6) | ((b2 & 0x3F) as u32)) >= 0x80 ==> b1
        >= 0xC2) by (bit_vector);
    assert(0xF0 <= b1 <= 0xF7 && ((((b1 & 0x07) as u32) << 18) | (((b2 & 0x3F) as u32) << 12) | (((
    b3 & 0x3F) as u32) << 6) | ((b4 & 0x3F) as u32)) <= 0x10FFFF ==> b1 <= 0xF4) by (bit_vector);
}

/// Where a character starts, whole and valid, the cells say so.
proof fn lemma_first_char(bytes: Seq<u8>)
    requires
        bytes.len() > 0,
        valid_first_scalar(bytes),
    ensures
        ({
            let c = decode_first_scalar(bytes) as char;
            let w = length_of_first_scalar(bytes);
            &&& 1 <= w <= 4 && w <= bytes.len()
            &&& bytes[0] >= 0x80 ==> encoding::multi_byte_first(bytes) && w == encoding::lead_width(bytes[0])
            &&& bytes[0] < 0x80 ==> w == 1
            &&& encoding::utf8_cells(bytes) == seq![encoding::glyph_or_dot(c)] + text::copies(CONTINUATION, w - 1)
                + encoding::utf8_cells(bytes.skip(w))
        }),
{
    let c = decode_first_scalar(bytes) as char;
    let w = length_of_first_scalar(bytes);
    let b1 = bytes[0];
    if b1 < 0x80 {
        assert((b1 & 0x7F) == b1) by (bit_vector)
            requires
                b1 < 0x80,
        ;
        assert(seq![encoding::glyph_or_dot(c)] + text::copies(CONTINUATION, 0) =~= seq![encoding::ascii_glyph(b1)]);
    } else {
        if bytes.len() >= 4 {
            lemma_leads(b1, bytes[1], bytes[2], bytes[3]);
        } else if bytes.len() >= 2 {
            lemma_leads(b1, bytes[1], 0, 0);
        }
        let part = bytes.take(w);
        assert(valid_first_scalar(part));
        assert(pop_first_scalar(part) =~= Seq::<u8>::empty());
        assert(valid_utf8(Seq::<u8>::empty()));
        assert(valid_utf8(part));
        assert(decode_utf8(part)[0] == c);
    }
}

/// Reading the UTF-8 bytes of a text draws every character on the cell of its
/// leading byte and marks the cells of its other bytes.
pub proof fn law_utf8_draws_on_the_lead_byte(s: Seq<char>)
    ensures
        encoding::utf8_cells(encode_utf8(s)) == text_cells(s),
    decreases s.len(),
{
    if s.len() > 0 {
        let bytes = encode_utf8(s);
        encode_utf8_first_scalar(s);
        char_u32_cast(s[0], decode_first_scalar(bytes));
        lemma_first_char(bytes);
        let w = encode_scalar(s[0] as u32).len() as int;
        assert(bytes.skip(w) =~= encode_utf8(s.drop_first()));
        law_utf8_draws_on_the_lead_byte(s.drop_first());
    }
}

/// Cutting bytes off the end leaves all the cells alone but the last three.
proof fn lemma_cut(bytes: Seq<u8>, m: int)
    requires
        0 <= m <= bytes.len(),
    ensures
        forall|i: int|
            0 <= i < m - 3 ==> #[trigger] encoding::utf8_cells(bytes.take(m))[i] == encoding::utf8_cells(bytes)[i],
    decreases bytes.len(),
{
    let cut = bytes.take(m);
    encoding::lemma_utf8_cells_len(bytes);
    encoding::lemma_utf8_cells_len(cut);
    if m > 3 {
        let w: int = if bytes[0] >= 0x80 && encoding::multi_byte_first(bytes) {
            encoding::lead_width(bytes[0])
        } else {
            1
        };
        if bytes[0] >= 0x80 && encoding::lead_width(bytes[0]) > 0 {
            assert(cut.take(encoding::lead_width(bytes[0])) =~= bytes.take(encoding::lead_width(bytes[0])));
        }
        assert(cut.skip(w) =~= bytes.skip(w).take(m - w));
        lemma_cut(bytes.skip(w), m - w);
        encoding::lemma_utf8_cells_len(bytes.skip(w));
        encoding::lemma_utf8_cells_len(cut.skip(w));
        assert forall|i: int| 0 <= i < m - 3 implies #[trigger] encoding::utf8_cells(cut)[i] == encoding::utf8_cells(
            bytes,
        )[i] by {
            if i >= w {
                assert(encoding::utf8_cells(cut)[i] == encoding::utf8_cells(cut.skip(w))[i - w]);
                assert(encoding::utf8_cells(bytes)[i] == encoding::utf8_cells(bytes.skip(w))[i - w]);
            }
        }
    }
}

/// Wherever decoding starts, it is back in step within three bytes.
proof fn lemma_resync(bytes: Seq<u8>, a: int)
    requires
        0 <= a <= bytes.len(),
    ensures
        forall|i: int|
            a + 3 <= i < bytes.len() ==> #[trigger] encoding::utf8_cells(bytes)[i] == encoding::utf8_cells(
                bytes.skip(a),
            )[i - a],
    decreases bytes.len(),
{
    encoding::lemma_utf8_cells_len(bytes);
    encoding::lemma_utf8_cells_len(bytes.skip(a));
    if a == 0 {
        assert(bytes.skip(0) =~= bytes);
    } else if bytes.len() > 0 {
        let w: int = if bytes[0] >= 0x80 && encoding::multi_byte_first(bytes) {
            encoding::lead_width(bytes[0])
        } else {
            1
        };
        let rest = bytes.skip(w);
        encoding::lemma_utf8_cells_len(rest);
        if a >= w {
            lemma_resync(rest, a - w);
            assert(rest.skip(a - w) =~= bytes.skip(a));
            assert forall|i: int| a + 3 <= i < bytes.len() implies #[trigger] encoding::utf8_cells(bytes)[i]
                == encoding::utf8_cells(bytes.skip(a))[i - a] by {
                assert(encoding::utf8_cells(bytes)[i] == encoding::utf8_cells(rest)[i - w]);
            }
        } else {
            // Inside the first character: only continuation bytes are left of
            // it, and each of them is one dot.
            let part = bytes.take(w);
            assert(valid_first_scalar(part));
            assert forall|i: int| 0 <= i < w - a implies is_continuation_byte(
                #[trigger] bytes.skip(a)[i],
            ) by {
                assert(bytes.skip(a)[i] == part[a + i]);
            }
            lemma_strays(bytes.skip(a), w - a);
            assert(bytes.skip(a).skip(w - a) =~= rest);
            assert forall|i: int| a + 3 <= i < bytes.len() implies #[trigger] encoding::utf8_cells(bytes)[i]
                == encoding::utf8_cells(bytes.skip(a))[i - a] by {
                assert(encoding::utf8_cells(bytes)[i] == encoding::utf8_cells(rest)[i - w]);
            }
        }
    }
}

/// Stray continuation bytes take one cell each.
proof fn lemma_strays(bytes: Seq<u8>, n: int)
    requires
        0 <= n <= bytes.len(),
        forall|i: int| 0 <= i < n ==> is_continuation_byte(#[trigger] bytes[i]),
    ensures
        forall|i: int|
            n <= i < bytes.len() ==> #[trigger] encoding::utf8_cells(bytes)[i] == encoding::utf8_cells(bytes.skip(n))[i
                - n],
    decreases n,
{
    encoding::lemma_utf8_cells_len(bytes);
    if n == 0 {
        assert(bytes.skip(0) =~= bytes);
    } else {
        assert(is_continuation_byte(bytes[0]));
        let rest = bytes.skip(1);
        encoding::lemma_utf8_cells_len(rest);
        assert forall|i: int| 0 <= i < n - 1 implies is_continuation_byte(#[trigger] rest[i]) by {
            assert(is_continuation_byte(bytes[i + 1]));
        }
        lemma_strays(rest, n - 1);
        assert(rest.skip(n - 1) =~= bytes.skip(n));
        assert forall|i: int| n <= i < bytes.len() implies #[trigger] encoding::utf8_cells(bytes)[i]
            == encoding::utf8_cells(bytes.skip(n))[i - n] by {
            assert(encoding::utf8_cells(bytes)[i] == encoding::utf8_cells(rest)[i - 1]);
        }
    }
}

/// A line read as UTF-8 with at least three bytes of context on either side
/// shows exactly the cells that decoding the whole file would put there,
/// whatever the file holds.
pub proof fn law_context_is_enough(hay: Seq<u8>, off: int, len: int, back: int, ahead: int)
    requires
        0 <= back <= off,
        back >= LOOKAHEAD || back == off,
        ahead >= LOOKAHEAD,
        0 <= len,
        off + len <= hay.len(),
    ensures
        ({
            let end = if off + len + ahead <= hay.len() {
                off + len + ahead
            } else {
                hay.len() as int
            };
            encoding::utf8_cells(hay.subrange(off - back, end)).subrange(back, back + len) == encoding::utf8_cells(
                hay,
            ).subrange(off, off + len)
        }),
{
    let end = if off + len + ahead <= hay.len() {
        off + len + ahead
    } else {
        hay.len() as int
    };
    let a = off - back;
    let tail = hay.skip(a);
    let part = hay.subrange(a, end);
    encoding::lemma_utf8_cells_len(hay);
    encoding::lemma_utf8_cells_len(tail);
    encoding::lemma_utf8_cells_len(part);
    lemma_resync(hay, a);
    if a == 0 {
        assert(tail =~= hay);
    }
    if end == hay.len() {
        assert(part =~= tail);
    } else {
        assert(part =~= tail.take(end - a));
        lemma_cut(tail, end - a);
    }
    assert forall|j: int| 0 <= j < len implies #[trigger] encoding::utf8_cells(part)[back + j] == encoding::utf8_cells(
        hay,
    )[off + j] by {
        assert(encoding::utf8_cells(hay)[off + j] == encoding::utf8_cells(tail)[back + j]);
    }
    assert(encoding::utf8_cells(part).subrange(back, back + len) =~= encoding::utf8_cells(hay).subrange(off, off + len));
}

/// Is this what a file in UTF-8 starts with if its first character is `c`?
pub open spec fn starts_with_char(bytes: Seq<u8>, c: char) -> bool {
    let form = encode_utf8(seq![c]);
    form.len() <= bytes.len() && bytes.take(form.len() as int) == form
}

/// Where the UTF-8 form of a character starts, whatever follows it, that
/// character is drawn on the first cell, its other bytes show the continuation
/// mark, and decoding goes on behind it.
pub proof fn law_utf8_takes_a_character_at_a_time(bytes: Seq<u8>, c: char)
    requires
        starts_with_char(bytes, c),
    ensures
        ({
            let w = encode_utf8(seq![c]).len() as int;
            &&& 1 <= w <= 4
            &&& encoding::cells(Encoding::Utf8, bytes) == seq![encoding::glyph_or_dot(c)]
                + text::copies(CONTINUATION, w - 1) + encoding::cells(
                Encoding::Utf8,
                bytes.skip(w),
            )
        }),
{
    let form = encode_utf8(seq![c]);
    encode_utf8_first_scalar(seq![c]);
    char_u32_cast(c, decode_first_scalar(form));
    assert(seq![c].drop_first() =~= Seq::<char>::empty());
    assert(encode_utf8(Seq::<char>::empty()) =~= Seq::<u8>::empty());
    assert(form =~= encode_scalar(c as u32));
    assert forall|i: int| 0 <= i < form.len() implies bytes[i] == #[trigger] form[i] by {
        assert(bytes.take(form.len() as int)[i] == bytes[i]);
    }
    lemma_first_char(form);
    lemma_first_char(bytes);
}

/// Where no character's UTF-8 form starts, the byte shows as a dot, and
/// decoding picks up on the byte after it rather than guessing.
pub proof fn law_utf8_picks_up_after_garbage(bytes: Seq<u8>)
    requires
        bytes.len() > 0,
        forall|c: char| !#[trigger] starts_with_char(bytes, c),
    ensures
        encoding::cells(Encoding::Utf8, bytes) == seq!['.'] + encoding::cells(
            Encoding::Utf8,
            bytes.skip(1),
        ),
{
    let w: int = if bytes[0] < 0x80 {
        1
    } else {
        encoding::lead_width(bytes[0])
    };
    let part = bytes.take(w);
    if bytes[0] < 0x80 || encoding::multi_byte_first(bytes) {
        let b = bytes[0];
        assert(b < 0x80 ==> (b & 0x7F) == b) by (bit_vector);
        assert(pop_first_scalar(part) =~= Seq::<u8>::empty());
        assert(valid_utf8(Seq::<u8>::empty()));
        assert(valid_utf8(part));
        let s = decode_utf8(part);
        assert(decode_utf8(Seq::<u8>::empty()) =~= Seq::<char>::empty());
        assert(s =~= seq![s[0]]);
        decode_utf8_encode_utf8(part);
        assert(encode_utf8(seq![s[0]]) == part);
        assert(starts_with_char(bytes, s[0]));
    }
}

/// The first character of bytes says nothing about what follows it.
proof fn lemma_same_first(bytes: Seq<u8>, more: Seq<u8>)
    requires
        bytes.len() > 0,
        valid_first_scalar(bytes),
    ensures
        valid_first_scalar(bytes + more),
        decode_first_scalar(bytes + more) == decode_first_scalar(bytes),
        length_of_first_scalar(bytes + more) == length_of_first_scalar(bytes),
{
    assert forall|i: int| 0 <= i < bytes.len() implies #[trigger] (bytes + more)[i]
        == bytes[i] by {}
}

/// Bytes decoded in one go show what their parts show, one after the other:
/// always in a single-byte code page, and in UTF-8 where the first part ends
/// with a whole character.
pub proof fn law_decoding_in_parts(e: Encoding, a: Seq<u8>, b: Seq<u8>)
    requires
        e != Encoding::Utf8 || valid_utf8(a),
    ensures
        encoding::cells(e, a + b) == encoding::cells(e, a) + encoding::cells(e, b),
    decreases a.len(),
{
    if e == Encoding::Utf8 {
        if a.len() == 0 {
            assert(a + b =~= b);
            assert(Seq::<char>::empty() + encoding::utf8_cells(b) =~= encoding::utf8_cells(b));
        } else {
            let w = length_of_first_scalar(a);
            lemma_first_char(a);
            lemma_same_first(a, b);
            lemma_first_char(a + b);
            assert(a.skip(w) =~= pop_first_scalar(a));
            assert((a + b).skip(w) =~= a.skip(w) + b);
            law_decoding_in_parts(e, a.skip(w), b);
            let head = seq![encoding::glyph_or_dot(decode_first_scalar(a) as char)] + text::copies(
                CONTINUATION,
                w - 1,
            );
            assert(head + (encoding::utf8_cells(a.skip(w)) + encoding::utf8_cells(b)) =~= head
                + encoding::utf8_cells(a.skip(w)) + encoding::utf8_cells(b));
        }
    } else {
        assert(encoding::cells(e, a + b) =~= encoding::cells(e, a) + encoding::cells(e, b));
    }
}

/// Does a byte above 0x7F stand for this character in a code page?
pub open spec fn stands_for(e: Encoding, b: u8, c: char) -> bool {
    &&& b >= 0x80
    &&& encoding::high_glyphs(e) matches Some(high) && high[b - 0x80] == c
}

/// A character above 0x7F is held as a byte above 0x7F that stands for it and
/// shows it (or a dot, where it does not fit one cell); one that no byte stands
/// for cannot be held.
pub proof fn law_a_character_is_held_as_its_byte(e: Encoding, c: char)
    requires
        !encoding::as_utf8(e),
        c as u32 >= 0x80,
    ensures
        encoding::char_byte(e, c) matches Some(b) ==> b >= 0x80 && stands_for(e, b, c)
            && encoding::cells(e, seq![b]) == seq![encoding::glyph_or_dot(c)],
        encoding::char_byte(e, c) is None <==> forall|b: u8| !#[trigger] stands_for(e, b, c),
{
    let high = encoding::high_glyphs(e)->0;
    assert(high.len() == 128);
    high.index_of_first_ensures(c);
    if let Some(b) = encoding::char_byte(e, c) {
        let k = high.index_of_first(c)->0;
        assert(b == (k + 0x80) as u8);
        assert(b - 0x80 == k);
        assert(stands_for(e, b, c));
        if e == Encoding::Cp437 {
            assert(CP437@[b as int] == c);
            lemma_cp437_fits(b as int);
        }
        assert(encoding::cells(e, seq![b]) =~= seq![encoding::glyph_or_dot(c)]);
    } else {
        assert forall|b: u8| !#[trigger] stands_for(e, b, c) by {
            if b >= 0x80 && high[b - 0x80] == c {
                assert(high.contains(c));
            }
        }
    }
}

/// Every glyph in the upper half of code page 437 fits one cell.
proof fn lemma_cp437_fits(k: int)
    requires
        0x80 <= k < 0x100,
    ensures
        encoding::one_cell_char(CP437@[k]),
{
    assert(forall|i: int| 0x80 <= i < 0x100 ==> encoding::one_cell_char(#[trigger] CP437@[i]));
}

/// No two characters are held as the same byte.
pub proof fn law_a_byte_holds_one_character(e: Encoding, c: char, d: char)
    requires
        encoding::char_byte(e, c) is Some,
        encoding::char_byte(e, c) == encoding::char_byte(e, d),
    ensures
        c == d,
{
    lemma_char_below(c);
    lemma_char_below(d);
    if let Some(high) = encoding::high_glyphs(e) {
        assert(high.len() == 128);
        high.index_of_first_ensures(c);
        high.index_of_first_ensures(d);
    }
}

/// No cell is wider than one column: a character that would be is refused.
pub proof fn law_utf8_shows_nothing_wide(bytes: Seq<u8>, i: int)
    requires
        0 <= i < bytes.len(),
    ensures
        encoding::one_cell_char(encoding::cells(Encoding::Utf8, bytes)[i]),
    decreases bytes.len(),
{
    encoding::lemma_utf8_cells_len(bytes);
    assert(encoding::one_cell_char('.'));
    assert(encoding::one_cell_char(CONTINUATION));
    let w: int = if bytes[0] >= 0x80 && encoding::multi_byte_first(bytes) {
        encoding::lead_width(bytes[0])
    } else {
        1
    };
    let rest = encoding::utf8_cells(bytes.skip(w));
    if i >= w {
        law_utf8_shows_nothing_wide(bytes.skip(w), i - w);
        assert(encoding::utf8_cells(bytes)[i] == rest[i - w]);
    } else if w > 1 {
        let first = encoding::glyph_or_dot(decode_utf8(bytes.take(w))[0]);
        let head = seq![first] + text::copies(CONTINUATION, w - 1);
        assert(encoding::utf8_cells(bytes) == head + rest);
        assert(encoding::utf8_cells(bytes)[i] == head[i]);
    } else if bytes[0] < 0x80 {
        assert(encoding::utf8_cells(bytes)[0] == encoding::ascii_glyph(bytes[0]));
    }
}

} // verus!
