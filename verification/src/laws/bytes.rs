//! Laws of what a byte looks like in each mode.

use crate::encoding;
use crate::laws::text as text_laws;
use crate::view;
use crate::view::Mode;
use vstd::prelude::*;

verus! {

/// In binary mode cell `i` of a byte is its bit `7 - i`: `1` exactly where that
/// bit is set. A blank follows the eight.
pub proof fn law_binary_mode_shows_the_bits(b: u8, glyph: char, i: int)
    requires
        0 <= i < 8,
    ensures
        ({
            let s = view::byte_text(Mode::Binary, b, glyph);
            &&& s.len() == 9
            &&& s[i] == '1' <==> (b >> ((7 - i) as u8)) & 1u8 == 1u8
            &&& s[i] == '0' <==> (b >> ((7 - i) as u8)) & 1u8 == 0u8
            &&& s[8] == ' '
        }),
{
    lemma_bits(b as int, 8, i);
    let k = (7 - i) as u8;
    let bit = (b >> k) & 1u8;
    assert(bit == 0 || bit == 1) by (bit_vector)
        requires
            bit == (b >> k) & 1u8,
    ;
    assert(bit as int == ((b as int) / text_laws::place(2, k as int)) % 2) by {
        reveal_with_fuel(text_laws::place, 9);
        assert((b >> 0u8) & 1u8 == (b / 1) % 2) by (bit_vector);
        assert((b >> 1u8) & 1u8 == (b / 2) % 2) by (bit_vector);
        assert((b >> 2u8) & 1u8 == (b / 4) % 2) by (bit_vector);
        assert((b >> 3u8) & 1u8 == (b / 8) % 2) by (bit_vector);
        assert((b >> 4u8) & 1u8 == (b / 16) % 2) by (bit_vector);
        assert((b >> 5u8) & 1u8 == (b / 32) % 2) by (bit_vector);
        assert((b >> 6u8) & 1u8 == (b / 64) % 2) by (bit_vector);
        assert((b >> 7u8) & 1u8 == (b / 128) % 2) by (bit_vector);
    }
}

/// The digit at a place of a number written in bits.
proof fn lemma_bits(n: int, bits: int, i: int)
    requires
        0 <= n,
        0 <= i < bits,
    ensures
        view::bit_text(n, bits).len() == bits,
        view::bit_text(n, bits)[i] == if (n / text_laws::place(2, bits - 1 - i)) % 2 == 1 {
            '1'
        } else {
            '0'
        },
    decreases bits,
{
    let s = view::bit_text(n, bits);
    let t = view::bit_text(n / 2, bits - 1);
    if bits == 1 {
        assert(t.len() == 0);
        assert(text_laws::place(2, 0) == 1);
    } else if i == bits - 1 {
        lemma_bits(n / 2, bits - 1, 0);
        assert(text_laws::place(2, 0) == 1);
    } else {
        lemma_bits(n / 2, bits - 1, i);
        let p = text_laws::place(2, bits - 2 - i);
        lemma_place(bits - 2 - i);
        assert(text_laws::place(2, bits - 1 - i) == 2 * p);
        assert(s[i] == t[i]);
        vstd::arithmetic::div_mod::lemma_div_denominator(n, 2, p);
        assert((n / 2) / p == n / (2 * p));
    }
}

proof fn lemma_place(k: int)
    ensures
        text_laws::place(2, k) >= 1,
    decreases k,
{
    if k > 0 {
        lemma_place(k - 1);
    }
}

/// The eight cells of a byte, read in base two, give it back; so do the two of
/// hex mode, read in base sixteen. Both modes show nothing of how the byte
/// decodes.
pub proof fn law_a_byte_can_be_read_back(b: u8, glyph: char)
    ensures
        text_laws::weight(view::byte_text(Mode::Binary, b, glyph).take(8), 2, 0) == b,
        text_laws::weight(view::byte_text(Mode::Hex, b, glyph).take(2), 16, 0) == b,
        view::byte_text(Mode::Hex, b, glyph).len() == 3,
        view::byte_text(Mode::Hex, b, glyph)[2] == ' ',
{
    let s = view::byte_text(Mode::Binary, b, glyph);
    view::lemma_byte_text_len(Mode::Binary, b, glyph);
    view::lemma_byte_text_len(Mode::Hex, b, glyph);
    let t = s.take(8);
    assert(t =~= view::bit_text(b as int, 8));
    lemma_bits_weight(b as int, 8);
    reveal_with_fuel(text_laws::place, 9);
    let h = view::fixed_hex(b as int, 2);
    text_laws::law_fixed_hex_is_worth_the_offset(b as int, 2);
    assert(view::byte_text(Mode::Hex, b, glyph).take(2) =~= h);
}

proof fn lemma_bits_weight(n: int, bits: int)
    requires
        0 <= n,
        0 <= bits,
    ensures
        n < text_laws::place(2, bits) ==> text_laws::weight(view::bit_text(n, bits), 2, 0) == n,
    decreases bits,
{
    let s = view::bit_text(n, bits);
    if bits > 0 {
        let t = view::bit_text(n / 2, bits - 1);
        let c = if n % 2 == 1 {
            '1'
        } else {
            '0'
        };
        lemma_bits_weight(n / 2, bits - 1);
        assert(s == t.push(c));
        text_laws::lemma_weight_push(t, c, 2, 0);
        assert(text_laws::weight(s, 2, s.len() as int) == 0);
        assert(text_laws::place(2, 0) == 1);
        assert(text_laws::weight(s, 2, t.len() as int) == (n % 2) * 1 + 0);
        assert(text_laws::place(2, bits) == 2 * text_laws::place(2, bits - 1));
    } else {
        assert(text_laws::weight(s, 2, 0) == 0);
    }
}

/// In text mode a byte shows as its cell and nothing else; the bytes that a
/// character goes on over show nothing.
pub proof fn law_text_mode_shows_the_cell(b: u8, glyph: char)
    ensures
        glyph as int != 0xB7 ==> view::byte_text(Mode::Text, b, glyph) == seq![glyph],
        glyph as int == 0xB7 ==> view::byte_text(Mode::Text, b, glyph) == Seq::<char>::empty(),
        encoding::CONTINUATION as int == 0xB7,
{
}

} // verus!
