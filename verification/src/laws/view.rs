//! Laws of the line layout and of offsets.

use crate::encoding;
use crate::pattern;
use crate::text;
use crate::view;
use crate::view::Mode;
use vstd::prelude::*;

verus! {

/// How many cells a line of so many bytes takes: the offset column, the byte
/// column, and in the byte modes a separator and the text column.
pub open spec fn line_cells(mode: Mode, bpl: int, digits: int) -> int {
    digits + 2 + bpl * view::cell_width(mode) + if mode == Mode::Text {
        0
    } else {
        1 + bpl
    }
}

/// A line fits the window, however wide a line the user asked for, if the
/// narrowest one does.
pub proof fn law_lines_fit_the_window(mode: Mode, width: int, file_len: int, fixed: Option<int>)
    requires
        line_cells(mode, view::narrowest(mode), view::digits_for(file_len)) <= width,
    ensures
        line_cells(
            mode,
            view::bpl_for(mode, width, file_len, fixed),
            view::digits_for(file_len),
        ) <= width,
{
    let room = view::room_for(width, file_len);
    let fit = view::fit_for(mode, width, file_len);
    let bpl = view::bpl_for(mode, width, file_len, fixed);
    match mode {
        Mode::Hex => {
            assert(bpl * 3 + bpl == bpl * 4);
        },
        Mode::Binary => {
            assert(bpl * 9 + bpl == bpl * 10);
        },
        Mode::Text => {
            assert(bpl * 1 == bpl);
        },
    }
}

/// A line stays within the limits of its mode, and a line width within them
/// that the window can hold is honoured.
pub proof fn law_a_chosen_line_width_is_honoured(
    mode: Mode,
    width: int,
    file_len: int,
    fixed: Option<int>,
)
    ensures
        ({
            let bpl = view::bpl_for(mode, width, file_len, fixed);
            let fit = view::fit_for(mode, width, file_len);
            &&& 1 <= view::narrowest(mode) <= bpl <= fit <= view::widest(mode)
            &&& fixed is None ==> bpl == fit
            &&& fixed matches Some(n) ==> (view::narrowest(mode) <= n <= fit ==> bpl == n)
        }),
{
}

/// A hex line as wide as the window is a whole number of fours.
pub proof fn law_hex_lines_come_in_fours(width: int, file_len: int)
    ensures
        view::fit_for(Mode::Hex, width, file_len) % 4 == 0,
{
}

/// The limits of the line width and its steps: hex goes in fours from 4 to 64,
/// binary in ones from 1 to 16, and text in eights from 1 to 512. In the byte
/// modes whole steps lead from the one limit to the other.
pub proof fn law_the_limits_of_the_line_width(mode: Mode)
    ensures
        (view::narrowest(mode), view::widest(mode), view::width_step(mode)) == match mode {
            Mode::Hex => (4int, 64int, 4int),
            Mode::Binary => (1int, 16int, 1int),
            Mode::Text => (1int, 512int, 8int),
        },
        mode != Mode::Text ==> (view::widest(mode) - view::narrowest(mode)) % view::width_step(mode)
            == 0,
{
}

/// A byte takes as many cells as the gap left for one, so the columns line up.
/// Only text mode shows nothing for the bytes a character goes on over.
pub proof fn law_gaps_are_as_wide_as_bytes(mode: Mode, b: u8, glyph: char)
    ensures
        mode != Mode::Text || glyph != encoding::CONTINUATION ==> view::byte_text(
            mode,
            b,
            glyph,
        ).len() == view::cell_width(mode),
        mode == Mode::Text && glyph == encoding::CONTINUATION ==> view::byte_text(
            mode,
            b,
            glyph,
        ).len() == 0,
{
    view::lemma_byte_text_len(mode, b, glyph);
}

// ── Offsets ─────────────────────────────────────────────────────────────────

/// How many numbers so many hex digits can write.
pub open spec fn hex_range(digits: int) -> int
    decreases digits,
{
    if digits <= 0 {
        1
    } else {
        16 * hex_range(digits - 1)
    }
}

/// The offset column is wide enough for every byte of a file of up to 256 TiB.
pub proof fn law_the_offset_column_is_wide_enough(file_len: int, off: int)
    requires
        0 <= off < file_len <= 0x1_0000_0000_0000,
    ensures
        off < hex_range(view::digits_for(file_len)),
{
    reveal_with_fuel(hex_range, 13);
    assert(hex_range(8) == 0x1_0000_0000);
    assert(hex_range(12) == 0x1_0000_0000_0000);
}

/// The offset column has eight digits as long as they are enough for the whole
/// file, and twelve once they are not.
pub proof fn law_eight_digits_while_they_are_enough(file_len: int)
    requires
        0 <= file_len,
    ensures
        file_len <= 0x1_0000_0000 ==> view::digits_for(file_len) == 8,
        file_len > 0x1_0000_0000 ==> view::digits_for(file_len) == 12,
{
}

/// What a hex digit is and is not.
proof fn lemma_digit(v: int)
    requires
        0 <= v < 16,
    ensures
        ({
            let c = text::digit_char(v);
            &&& !text::white(c)
            &&& pattern::hex_value(c) == Some(v)
            &&& c != 'x' && c != 'X' && c != 'h' && c != 'H' && c != '+' && c != '$' && c != 'd'
        }),
{
}

/// Are these hex digits, in upper case?
spec fn digits_only(s: Seq<char>) -> bool {
    forall|i: int| 0 <= i < s.len() ==> upper_digit(#[trigger] s[i])
}

spec fn upper_digit(c: char) -> bool {
    &&& !text::white(c)
    &&& view::is_digit(c, 16)
    &&& c != 'x' && c != 'X' && c != 'h' && c != 'H' && c != '+' && c != '$' && c != 'd'
}

proof fn lemma_fixed_hex(n: int, digits: int)
    requires
        0 <= n,
        digits >= 0,
    ensures
        view::fixed_hex(n, digits).len() == digits,
        digits_only(view::fixed_hex(n, digits)),
        n < hex_range(digits) ==> view::digits_value(view::fixed_hex(n, digits), 16) == n,
    decreases digits,
{
    if digits > 0 {
        lemma_fixed_hex(n / 16, digits - 1);
        lemma_digit(n % 16);
        let s = view::fixed_hex(n, digits);
        let t = view::fixed_hex(n / 16, digits - 1);
        assert(s.drop_last() =~= t);
        assert forall|i: int| 0 <= i < s.len() implies upper_digit(#[trigger] s[i]) by {
            if i < t.len() {
                assert(s[i] == t[i]);
            }
        }
    }
}

/// Nothing is trimmed off digits.
proof fn lemma_nothing_to_trim(s: Seq<char>)
    requires
        s.len() > 0 ==> !text::white(s.first()) && !text::white(s.last()),
    ensures
        text::trimmed(s) == s,
{
}

/// Digits typed as they are mean the number they write.
proof fn lemma_digits_mean(s: Seq<char>)
    requires
        s.len() > 0,
        digits_only(s),
        view::digits_value(s, 16) <= u64::MAX,
    ensures
        view::number(s, 16) == Some(view::digits_value(s, 16)),
{
    assert(upper_digit(s[0]));
    assert(view::without_plus(s) == s);
    assert forall|i: int| 0 <= i < s.len() implies view::is_digit(#[trigger] s[i], 16) by {
        assert(upper_digit(s[i]));
    }
}

/// Every offset on screen can be typed back as it stands: what the offset
/// column shows leads to the byte it was shown for. The one exception is an
/// offset that starts with the digit D, which asks for decimal.
pub proof fn law_an_offset_on_screen_can_be_typed_back(off: int, digits: int)
    requires
        0 <= off <= u64::MAX,
        digits >= 1,
        off < hex_range(digits),
        view::fixed_hex(off, digits)[0] != 'D',
    ensures
        view::offset_value(view::fixed_hex(off, digits)) == Some(off),
{
    let s = view::fixed_hex(off, digits);
    lemma_fixed_hex(off, digits);
    assert(upper_digit(s[0]));
    assert(upper_digit(s[s.len() - 1]));
    lemma_nothing_to_trim(s);
    if s.len() >= 2 {
        assert(upper_digit(s[1]));
    }
    assert(view::without_prefix(s) == s);
    assert(view::without_suffix(s) == s);
    lemma_digits_mean(s);
}

proof fn lemma_radix_hex(n: int)
    requires
        0 <= n,
    ensures
        text::upper_hex(n).len() >= 1,
        digits_only(text::upper_hex(n)),
        view::digits_value(text::upper_hex(n), 16) == n,
    decreases n,
{
    let s = text::upper_hex(n);
    if n < 16 {
        lemma_digit(n);
        assert(s =~= seq![text::digit_char(n)]);
        assert(s.drop_last() =~= Seq::<char>::empty());
        assert(view::digits_value(s.drop_last(), 16) == 0);
    } else {
        lemma_radix_hex(n / 16);
        lemma_digit(n % 16);
        let t = text::upper_hex(n / 16);
        assert(s == t.push(text::digit_char(n % 16)));
        assert(s.drop_last() =~= t);
        assert forall|i: int| 0 <= i < s.len() implies upper_digit(#[trigger] s[i]) by {
            if i < t.len() {
                assert(s[i] == t[i]);
            }
        }
    }
}

/// Zeros in front change nothing.
proof fn lemma_leading_zeros(s: Seq<char>, n: int)
    requires
        n >= 0,
    ensures
        view::digits_value(text::copies('0', n) + s, 16) == view::digits_value(s, 16),
    decreases s.len(), n,
{
    let t = text::copies('0', n) + s;
    if s.len() > 0 {
        assert(t.drop_last() =~= text::copies('0', n) + s.drop_last());
        lemma_leading_zeros(s.drop_last(), n);
    } else if n > 0 {
        assert(t.drop_last() =~= text::copies('0', n - 1) + s);
        lemma_leading_zeros(s, n - 1);
        assert(t.last() == '0');
    } else {
        assert(t =~= s);
    }
}

/// The offset that the title bar reads out can be typed back as it stands.
pub proof fn law_the_offset_read_out_can_be_typed_back(off: int, digits: int)
    requires
        0 <= off <= u64::MAX,
        digits >= 0,
    ensures
        view::offset_value("0x"@ + text::pad_front(text::upper_hex(off), '0', digits)) == Some(off),
{
    reveal_strlit("0x");
    let hex = text::upper_hex(off);
    lemma_radix_hex(off);
    let zeros = if digits > hex.len() {
        digits - hex.len()
    } else {
        0
    };
    let padded = text::pad_front(hex, '0', digits);
    assert(padded =~= text::copies('0', zeros) + hex);
    lemma_leading_zeros(hex, zeros);
    lemma_digit(0);
    assert forall|i: int| 0 <= i < padded.len() implies upper_digit(#[trigger] padded[i]) by {
        if i >= zeros {
            assert(padded[i] == hex[i - zeros]);
        }
    }
    let s = "0x"@ + padded;
    assert(s.last() == padded.last());
    assert(upper_digit(padded[padded.len() - 1]));
    lemma_nothing_to_trim(s);
    assert(s[0] == '0' && s[1] == 'x');
    assert(view::without_prefix(s) =~= padded);
    assert(view::without_suffix(padded) == padded);
    lemma_digits_mean(padded);
}

/// Hex digits, in either case, mean the number they write: behind `0x` or `$`,
/// before an `h`, or as they stand. Only what starts with the digit D, without
/// a mark in front, asks for decimal instead.
pub proof fn law_ways_to_type_an_offset(t: Seq<char>)
    requires
        t.len() > 0,
        view::all_digits(t, 16),
        view::digits_value(t, 16) <= u64::MAX,
    ensures
        ({
            let n = Some(view::digits_value(t, 16));
            &&& view::offset_value("0x"@ + t) == n
            &&& view::offset_value("0X"@ + t) == n
            &&& view::offset_value("$"@ + t) == n
            &&& t[0] != 'd' && t[0] != 'D' ==> view::offset_value(t) == n
            &&& t[0] != 'd' && t[0] != 'D' ==> view::offset_value(t + "h"@) == n
            &&& t[0] != 'd' && t[0] != 'D' ==> view::offset_value(t + "H"@) == n
        }),
{
    reveal_strlit("0x");
    reveal_strlit("0X");
    reveal_strlit("$");
    reveal_strlit("h");
    reveal_strlit("H");
    let first = t[0];
    let last = t[t.len() - 1];
    assert(view::is_digit(first, 16));
    assert(view::is_digit(last, 16));
    assert(view::without_plus(t) == t);
    assert(view::without_suffix(t) == t);
    lemma_nothing_to_trim(t);
    let a = "0x"@ + t;
    assert(a.last() == last);
    lemma_nothing_to_trim(a);
    assert(view::without_prefix(a) =~= t);
    let b = "0X"@ + t;
    assert(b.last() == last);
    lemma_nothing_to_trim(b);
    assert(view::without_prefix(b) =~= t);
    let c = "$"@ + t;
    assert(c.last() == last);
    lemma_nothing_to_trim(c);
    assert(view::without_prefix(c) =~= t);
    if t.len() >= 2 {
        assert(view::is_digit(t[1], 16));
    }
    assert(view::without_prefix(t) == t);
    let d = t + "h"@;
    lemma_nothing_to_trim(d);
    assert(d.len() >= 2 ==> d[1] != 'x' && d[1] != 'X') by {
        if t.len() >= 2 {
            assert(d[1] == t[1]);
        }
    }
    assert(view::without_prefix(d) == d);
    assert(d.drop_last() =~= t);
    let e = t + "H"@;
    lemma_nothing_to_trim(e);
    assert(e.len() >= 2 ==> e[1] != 'x' && e[1] != 'X') by {
        if t.len() >= 2 {
            assert(e[1] == t[1]);
        }
    }
    assert(view::without_prefix(e) == e);
    assert(e.drop_last() =~= t);
}

proof fn lemma_radix_decimal(n: int)
    requires
        0 <= n,
    ensures
        text::decimal(n).len() >= 1,
        view::all_digits(text::decimal(n), 10),
        view::digits_value(text::decimal(n), 10) == n,
    decreases n,
{
    let s = text::decimal(n);
    if n < 10 {
        lemma_digit(n);
        assert(s =~= seq![text::digit_char(n)]);
        assert(s.drop_last() =~= Seq::<char>::empty());
        assert(view::digits_value(s.drop_last(), 10) == 0);
    } else {
        lemma_radix_decimal(n / 10);
        lemma_digit(n % 10);
        let t = text::decimal(n / 10);
        assert(s == t.push(text::digit_char(n % 10)));
        assert(s.drop_last() =~= t);
        assert forall|i: int| 0 <= i < s.len() implies view::is_digit(#[trigger] s[i], 10) by {
            if i < t.len() {
                assert(s[i] == t[i]);
            }
        }
    }
}

/// Every offset can be typed in hex or, behind a `d`, in decimal.
pub proof fn law_every_offset_can_be_typed(n: int)
    requires
        0 <= n <= u64::MAX,
    ensures
        ({
            let t = text::upper_hex(n);
            &&& view::offset_value("0x"@ + t) == Some(n)
            &&& view::offset_value("$"@ + t) == Some(n)
            &&& t[0] != 'D' ==> view::offset_value(t) == Some(n)
            &&& t[0] != 'D' ==> view::offset_value(t + "h"@) == Some(n)
        }),
        view::offset_value("d"@ + text::decimal(n)) == Some(n),
        view::offset_value("D"@ + text::decimal(n)) == Some(n),
{
    let t = text::upper_hex(n);
    lemma_radix_hex(n);
    assert forall|i: int| 0 <= i < t.len() implies view::is_digit(#[trigger] t[i], 16) by {
        assert(upper_digit(t[i]));
    }
    assert(upper_digit(t[0]));
    law_ways_to_type_an_offset(t);
    reveal_strlit("d");
    reveal_strlit("D");
    let s = text::decimal(n);
    lemma_radix_decimal(n);
    let first = s[0];
    let last = s[s.len() - 1];
    assert(view::is_digit(first, 10));
    assert(view::is_digit(last, 10));
    let small = "d"@ + s;
    assert(small.last() == last);
    lemma_nothing_to_trim(small);
    assert(small.skip(1) =~= s);
    let big = "D"@ + s;
    assert(big.last() == last);
    lemma_nothing_to_trim(big);
    assert(big.skip(1) =~= s);
    lemma_nothing_to_trim(s);
    assert(view::without_plus(s) == s);
}

/// A plus sign in front of the digits changes nothing, behind a mark or not.
pub proof fn law_a_plus_sign_changes_nothing(t: Seq<char>)
    requires
        t.len() > 0,
        view::all_digits(t, 16),
        view::digits_value(t, 16) <= u64::MAX,
    ensures
        view::offset_value("+"@ + t) == Some(view::digits_value(t, 16)),
        view::offset_value("0x+"@ + t) == Some(view::digits_value(t, 16)),
        view::offset_value("0X+"@ + t) == Some(view::digits_value(t, 16)),
        view::offset_value("$+"@ + t) == Some(view::digits_value(t, 16)),
        view::offset_value("+"@ + t + "h"@) == Some(view::digits_value(t, 16)),
{
    reveal_strlit("+");
    reveal_strlit("0x+");
    reveal_strlit("0X+");
    reveal_strlit("$+");
    reveal_strlit("h");
    let last = t[t.len() - 1];
    assert(view::is_digit(last, 16));
    let p = "+"@ + t;
    assert(p.last() == last);
    assert(view::without_plus(p) =~= t);
    assert(view::without_suffix(p) == p);
    lemma_nothing_to_trim(p);
    assert(view::without_prefix(p) == p);
    let a = "0x+"@ + t;
    assert(a.last() == last);
    lemma_nothing_to_trim(a);
    assert(view::without_prefix(a) =~= p);
    let b = "0X+"@ + t;
    assert(b.last() == last);
    lemma_nothing_to_trim(b);
    assert(view::without_prefix(b) =~= p);
    let c = "$+"@ + t;
    assert(c.last() == last);
    lemma_nothing_to_trim(c);
    assert(view::without_prefix(c) =~= p);
    let d = p + "h"@;
    lemma_nothing_to_trim(d);
    assert(view::without_prefix(d) == d);
    assert(view::without_suffix(d) =~= p);
}

/// Behind a `d` in either case there may be white space and a plus sign before
/// the decimal digits, and white space may stand around all of it.
pub proof fn law_ways_to_type_a_decimal_offset(w: Seq<char>, t: Seq<char>)
    requires
        forall|i: int| 0 <= i < w.len() ==> text::white(#[trigger] w[i]),
        t.len() > 0,
        view::all_digits(t, 10),
        view::digits_value(t, 10) <= u64::MAX,
    ensures
        view::offset_value(seq!['d'] + w + t) == Some(view::digits_value(t, 10)),
        view::offset_value(seq!['D'] + w + t) == Some(view::digits_value(t, 10)),
        view::offset_value(seq!['d'] + w + seq!['+'] + t) == Some(view::digits_value(t, 10)),
{
    let none = Seq::<char>::empty();
    assert(view::is_digit(t[0], 10));
    assert(view::is_digit(t[t.len() - 1], 10));
    let p = seq!['+'] + t;
    lemma_nothing_to_trim(t);
    lemma_nothing_to_trim(p);
    assert(view::without_plus(t) == t);
    assert(view::without_plus(p) =~= t);
    crate::laws::text::law_white_space_around_a_text_is_trimmed_off(w, t, none);
    crate::laws::text::law_white_space_around_a_text_is_trimmed_off(w, p, none);
    assert(w + t + none =~= w + t);
    assert(w + p + none =~= w + p);
    let a = seq!['d'] + w + t;
    lemma_nothing_to_trim(a);
    assert(a.skip(1) =~= w + t);
    let b = seq!['D'] + w + t;
    lemma_nothing_to_trim(b);
    assert(b.skip(1) =~= w + t);
    let c = seq!['d'] + w + seq!['+'] + t;
    lemma_nothing_to_trim(c);
    assert(c.skip(1) =~= w + p);
}

/// White space around an offset changes nothing.
pub proof fn law_white_space_around_an_offset(w: Seq<char>, s: Seq<char>, v: Seq<char>)
    requires
        forall|i: int| 0 <= i < w.len() ==> text::white(#[trigger] w[i]),
        forall|i: int| 0 <= i < v.len() ==> text::white(#[trigger] v[i]),
    ensures
        view::offset_value(w + s + v) == view::offset_value(s),
{
    crate::laws::text::law_white_space_around_a_text_is_trimmed_off(w, s, v);
}

/// Is this a text of hex digits, in either case, or of decimal ones?
pub open spec fn digits_of(s: Seq<char>, radix: int) -> bool {
    &&& s.len() > 0
    &&& forall|i: int|
        0 <= i < s.len() ==> '0' <= #[trigger] s[i] <= '9' || radix == 16 && ('a' <= s[i] <= 'f'
            || 'A' <= s[i] <= 'F')
}

/// Nothing but digits is an offset, with at most a mark in front that says it is
/// hex, a plus sign, and a mark behind; or with a `d` in front, in decimal.
pub proof fn law_nothing_else_is_an_offset(s: Seq<char>)
    requires
        view::offset_value(s) is Some,
    ensures
        ({
            let t = text::trimmed(s);
            &&& t.len() > 0
            &&& t[0] == 'd' || t[0] == 'D' ==> {
                let u = text::trimmed(t.skip(1));
                let ds = if u[0] == '+' {
                    u.skip(1)
                } else {
                    u
                };
                digits_of(ds, 10) && view::offset_value(s) == Some(view::digits_value(ds, 10))
            }
            &&& t[0] != 'd' && t[0] != 'D' ==> exists|a: int, b: int|
                0 <= a < b <= t.len() && digits_of(#[trigger] t.subrange(a, b), 16)
                    && view::offset_value(s) == Some(view::digits_value(t.subrange(a, b), 16)) && (b
                    == t.len() || b == t.len() - 1 && (t[b] == 'h' || t[b] == 'H')) && hex_mark(
                    t.take(a),
                )
        }),
{
    let t = text::trimmed(s);
    reveal_strlit("");
    reveal_strlit("+");
    reveal_strlit("0x");
    reveal_strlit("0X");
    reveal_strlit("$");
    reveal_strlit("0x+");
    reveal_strlit("0X+");
    reveal_strlit("$+");
    if t.len() > 0 && (t[0] == 'd' || t[0] == 'D') {
        let u = text::trimmed(t.skip(1));
        let ds = view::without_plus(u);
        assert forall|i: int| 0 <= i < ds.len() implies '0' <= #[trigger] ds[i] <= '9' by {
            assert(view::is_digit(ds[i], 10));
        }
    } else {
        let p = view::without_prefix(t);
        let q = view::without_suffix(p);
        let ds = view::without_plus(q);
        assert forall|i: int| 0 <= i < ds.len() implies '0' <= #[trigger] ds[i] <= '9' || 'a'
            <= ds[i] <= 'f' || 'A' <= ds[i] <= 'F' by {
            assert(view::is_digit(ds[i], 16));
        }
        let x = t.len() - p.len();
        let a = x + (q.len() - ds.len());
        let b = x + q.len();
        assert(ds =~= t.subrange(a, b));
        assert(0 <= a < b <= t.len());
        let mark = t.take(a);
        if x == 0 {
            if a == 0 {
                assert(mark =~= ""@);
            } else {
                assert(mark =~= "+"@);
            }
        } else if x == 1 {
            if a == 1 {
                assert(mark =~= "$"@);
            } else {
                assert(mark =~= "$+"@);
            }
        } else if t[1] == 'x' {
            if a == 2 {
                assert(mark =~= "0x"@);
            } else {
                assert(mark =~= "0x+"@);
            }
        } else {
            if a == 2 {
                assert(mark =~= "0X"@);
            } else {
                assert(mark =~= "0X+"@);
            }
        }
    }
}

/// What may stand in front of hex digits.
pub open spec fn hex_mark(s: Seq<char>) -> bool {
    ||| s == ""@
    ||| s == "+"@
    ||| s == "0x"@
    ||| s == "0X"@
    ||| s == "$"@
    ||| s == "0x+"@
    ||| s == "0X+"@
    ||| s == "$+"@
}

// ── The width of a line ─────────────────────────────────────────────────────

/// A line is as wide as the window can hold: four bytes more in hex, or one in
/// the other modes, would run off the edge, unless the mode allows no more. It
/// fits, unless the mode allows no less. In hex it is 4 to 64 bytes, in fours;
/// in binary 1 to 16, in text 1 to 512.
pub proof fn law_lines_are_as_wide_as_they_can_be(mode: Mode, width: int, file_len: int)
    requires
        0 <= width,
    ensures
        ({
            let fit = view::fit_for(mode, width, file_len);
            let digits: int = if file_len <= 0x1_0000_0000 {
                8
            } else {
                12
            };
            let (low, high, step): (int, int, int) = match mode {
                Mode::Hex => (4int, 64int, 4int),
                Mode::Binary => (1int, 16int, 1int),
                Mode::Text => (1int, 512int, 1int),
            };
            &&& view::digits_for(file_len) == digits
            &&& low <= fit <= high
            &&& mode == Mode::Hex ==> fit % 4 == 0
            &&& fit < high ==> cells_of_line(mode, fit + step, digits) > width
            &&& fit > low ==> cells_of_line(mode, fit, digits) <= width
        }),
{
}

/// The cells of a line of so many bytes: the offset and two more, three cells to
/// a byte in hex and nine in binary with a separator and the text column, and
/// one cell to a byte in text mode.
pub open spec fn cells_of_line(mode: Mode, bytes: int, digits: int) -> int {
    match mode {
        Mode::Hex => digits + 2 + 3 * bytes + 1 + bytes,
        Mode::Binary => digits + 2 + 9 * bytes + 1 + bytes,
        Mode::Text => digits + 2 + bytes,
    }
}

/// A width that was asked for is taken as far as the mode and the window allow;
/// without one the line is as wide as it can be.
pub proof fn law_the_width_asked_for(mode: Mode, width: int, file_len: int, n: int)
    ensures
        ({
            let fit = view::fit_for(mode, width, file_len);
            let low: int = if mode == Mode::Hex {
                4
            } else {
                1
            };
            let got = view::bpl_for(mode, width, file_len, Some(n));
            &&& view::bpl_for(mode, width, file_len, None) == fit
            &&& low <= n <= fit ==> got == n
            &&& n < low ==> got == low
            &&& n > fit ==> got == fit
        }),
{
}

} // verus!
