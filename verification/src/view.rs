//! Display modes and layout arithmetic.
//!
//! All three modes are the same bytes formatted differently. The only thing
//! that changes is how many cells one byte takes, and from that follows how
//! many bytes fit on a line.

use crate::encoding;
use crate::pattern;
use crate::text;
use vstd::prelude::*;

verus! {

#[derive(Debug, Copy, Clone, PartialEq, Eq, Structural)]
pub enum Mode {
    /// Binary: every byte as eight bits.
    Binary,
    /// Classic hex dump with a text column on the right.
    Hex,
    /// Text only, decoded with the current encoding.
    Text,
}

impl Mode {
    /// The name shown for a mode.
    pub open spec fn name_text(self) -> Seq<char> {
        match self {
            Mode::Binary => "BIN"@,
            Mode::Hex => "HEX"@,
            Mode::Text => "TEXT"@,
        }
    }

    pub fn name(self) -> (res: &'static str)
        ensures
            res@ == self.name_text(),
    {
        match self {
            Mode::Binary => "BIN",
            Mode::Hex => "HEX",
            Mode::Text => "TEXT",
        }
    }

    /// Whether there is a text column on the right.
    pub fn has_text_column(self) -> (res: bool)
        ensures
            res == (self != Mode::Text),
    {
        matches!(self, Mode::Binary | Mode::Hex)
    }
}

/// Layout computed for the current terminal width.
#[derive(Debug)]
pub struct Layout {
    /// Bytes per line.
    pub bpl: usize,
    /// How many hex digits the offset column holds.
    pub offset_digits: usize,
    /// The widest line this terminal can hold in this mode — the ceiling the
    /// line-width keys stop at.
    pub fit: usize,
}

/// The narrowest line a mode allows.
pub open spec fn narrowest(mode: Mode) -> int {
    match mode {
        Mode::Hex => 4,
        Mode::Binary => 1,
        Mode::Text => 1,
    }
}

/// The widest line a mode allows.
pub open spec fn widest(mode: Mode) -> int {
    match mode {
        Mode::Hex => 64,
        Mode::Binary => 16,
        Mode::Text => 512,
    }
}

/// Smallest and largest line a mode allows, before the terminal width has its
/// say. Four bytes is the narrowest hex dump worth reading; past 64 the eye
/// cannot follow a row across anyway.
pub fn limits(mode: Mode) -> (res: (usize, usize))
    ensures
        res.0 == narrowest(mode),
        res.1 == widest(mode),
{
    match mode {
        Mode::Hex => (4, 64),
        Mode::Binary => (1, 16),
        Mode::Text => (1, 512),
    }
}

/// How many bytes a line-width key adds or takes away.
pub open spec fn width_step(mode: Mode) -> int {
    match mode {
        Mode::Hex => 4,
        Mode::Binary => 1,
        Mode::Text => 8,
    }
}

/// How much one press of the line-width keys moves it. Hex steps in fours so
/// the dump keeps the four-byte grouping that makes it readable.
pub fn step(mode: Mode) -> (res: usize)
    ensures
        res == width_step(mode),
{
    match mode {
        Mode::Hex => 4,
        Mode::Binary => 1,
        Mode::Text => 8,
    }
}

/// A number kept between two bounds.
pub open spec fn between(x: int, lo: int, hi: int) -> int {
    if x < lo {
        lo
    } else if x > hi {
        hi
    } else {
        x
    }
}

/// Keep a number between two bounds.
pub fn clamp(x: usize, lo: usize, hi: usize) -> (res: usize)
    ensures
        res == between(x as int, lo as int, hi as int),
{
    if x < lo {
        lo
    } else if x > hi {
        hi
    } else {
        x
    }
}

/// Hex digits in the offset column: twelve on files larger than 4 GiB, where
/// eight stop being enough.
pub open spec fn digits_for(file_len: int) -> int {
    if file_len > 0x1_0000_0000 {
        12
    } else {
        8
    }
}

/// Cells left of the data columns, taken off the width.
pub open spec fn room_for(width: int, file_len: int) -> int {
    let used = digits_for(file_len) + 2;
    if width >= used {
        width - used
    } else {
        0
    }
}

/// As many bytes as fit on a line: in hex three cells for the byte and one for
/// its text, in fours; in binary nine and one; in text one. The byte modes
/// leave a cell for the separator.
pub open spec fn fit_for(mode: Mode, width: int, file_len: int) -> int {
    let room = room_for(width, file_len);
    let data = if room >= 1 {
        room - 1
    } else {
        0
    };
    let raw = match mode {
        Mode::Hex => (data / 16) * 4,
        Mode::Binary => data / 10,
        Mode::Text => room,
    };
    between(raw, narrowest(mode), widest(mode))
}

/// Bytes per line, given the width the user asked for.
pub open spec fn bpl_for(mode: Mode, width: int, file_len: int, fixed: Option<int>) -> int {
    match fixed {
        None => fit_for(mode, width, file_len),
        Some(n) => between(n, narrowest(mode), fit_for(mode, width, file_len)),
    }
}

/// A line holds at least a byte, and stays within what its mode allows.
pub proof fn lemma_bpl(mode: Mode, width: int, file_len: int, fixed: Option<int>)
    ensures
        1 <= narrowest(mode) <= bpl_for(mode, width, file_len, fixed) <= fit_for(
            mode,
            width,
            file_len,
        ) <= widest(mode),
{
}

/// A choice of the user's as a mathematical integer.
pub open spec fn choice(fixed: Option<usize>) -> Option<int> {
    match fixed {
        Some(n) => Some(n as int),
        None => None,
    }
}

/// Fit a layout to the terminal width.
///
/// `fixed` is a line width the user asked for; without one the line is as wide
/// as the terminal can hold. Either way the mode's own limits and the terminal
/// width get the last word.
///
/// The offset column grows to 12 digits on files larger than 4 GiB — eight
/// digits stop being enough there and offsets start looking truncated.
pub fn layout(mode: Mode, width: u16, file_len: u64, fixed: Option<usize>) -> (res: Layout)
    ensures
        res.offset_digits == digits_for(file_len as int),
        res.fit == fit_for(mode, width as int, file_len as int),
        res.bpl == bpl_for(mode, width as int, file_len as int, choice(fixed)),
{
    let offset_digits: usize = if file_len > 0x1_0000_0000 {
        12
    } else {
        8
    };
    let width: usize = width as usize;
    let avail: usize = if width >= offset_digits + 2 {
        width - (offset_digits + 2)
    } else {
        0
    };
    let data: usize = if avail >= 1 {
        avail - 1
    } else {
        0
    };
    let (min, max) = limits(mode);
    let fit: usize = match mode {
        // "XX " per byte + separator + one text cell, rounded down to a
        // multiple of 4 — that is what makes a dump readable by eye
        Mode::Hex => clamp(((data / 4) / 4) * 4, min, max),
        // "bbbbbbbb " per byte + separator + one text cell
        Mode::Binary => clamp(data / 10, min, max),
        // one cell per byte
        Mode::Text => clamp(avail, min, max),
    };
    let bpl: usize = match fixed {
        Some(n) => clamp(n, min, fit),
        None => fit,
    };
    Layout { bpl, offset_digits, fit }
}

/// A number as exactly so many hex digits; what does not fit is cut off in
/// front.
pub open spec fn fixed_hex(n: int, digits: int) -> Seq<char>
    decreases digits,
{
    if digits <= 0 {
        seq![]
    } else {
        fixed_hex(n / 16, digits - 1).push(text::digit_char(n % 16))
    }
}

fn push_fixed_hex(out: &mut String, n: u64, digits: usize)
    ensures
        final(out)@ == old(out)@ + fixed_hex(n as int, digits as int),
    decreases digits,
{
    let ghost before = out@;
    if digits > 0 {
        push_fixed_hex(out, n / 16, digits - 1);
        out.push(text::digit((n % 16) as u8));
    }
    assert(out@ =~= before + fixed_hex(n as int, digits as int));
}

/// Build the offset column, e.g. "0000A840: ".
pub fn format_offset(out: &mut String, offset: u64, digits: usize)
    requires
        digits <= 16,
    ensures
        final(out)@ == fixed_hex(offset as int, digits as int) + seq![':', ' '],
{
    out.clear();
    push_fixed_hex(out, offset, digits);
    out.push(':');
    out.push(' ');
    assert(out@ =~= fixed_hex(offset as int, digits as int) + seq![':', ' ']);
}

/// A number as exactly so many bits.
pub open spec fn bit_text(n: int, bits: int) -> Seq<char>
    decreases bits,
{
    if bits <= 0 {
        seq![]
    } else {
        bit_text(n / 2, bits - 1).push(
            if n % 2 == 1 {
                '1'
            } else {
                '0'
            },
        )
    }
}

fn push_bits(out: &mut String, b: u8, bits: u8)
    ensures
        final(out)@ == old(out)@ + bit_text(b as int, bits as int),
    decreases bits,
{
    let ghost before = out@;
    if bits > 0 {
        push_bits(out, b / 2, bits - 1);
        out.push(
            if b % 2 == 1 {
                '1'
            } else {
                '0'
            },
        );
    }
    assert(out@ =~= before + bit_text(b as int, bits as int));
}

/// What a byte looks like in the main column of a mode.
pub open spec fn byte_text(mode: Mode, b: u8, glyph: char) -> Seq<char> {
    match mode {
        Mode::Hex => fixed_hex(b as int, 2).push(' '),
        Mode::Binary => bit_text(b as int, 8).push(' '),
        Mode::Text => if glyph == encoding::CONTINUATION {
            seq![]
        } else {
            seq![glyph]
        },
    }
}

/// Append one byte's representation to the main column.
///
/// `glyph` is the byte's decoded text cell, already produced by the encoding
/// layer; only the text mode uses it.
///
/// Text mode draws a character once and skips its continuation bytes, so
/// Cyrillic in UTF-8 reads as "привет" and not as "п·р·и·в·е·т·". It can do
/// that because there is no byte column beside it to line up with — the text
/// column of the byte modes keeps the continuation marks, where dropping them
/// would put the two columns out of step. The line ends up shorter than its
/// byte count, which is the honest picture: those bytes are one letter.
///
/// Formatting happens byte by byte rather than a whole line at a time because
/// highlighting colours individual bytes, so a line is emitted in runs of
/// different colours.
pub fn push_byte(out: &mut String, mode: Mode, b: u8, glyph: char)
    ensures
        final(out)@ == old(out)@ + byte_text(mode, b, glyph),
        mode != Mode::Text || glyph != encoding::CONTINUATION ==> final(out)@.len() == old(
            out,
        )@.len() + cell_width(mode),
{
    let ghost before = out@;
    proof {
        lemma_byte_text_len(mode, b, glyph);
    }
    match mode {
        Mode::Hex => {
            push_fixed_hex(out, b as u64, 2);
            out.push(' ');
        },
        Mode::Binary => {
            push_bits(out, b, 8);
            out.push(' ');
        },
        Mode::Text => {
            if glyph != encoding::CONTINUATION {
                out.push(glyph);
            }
        },
    }
    assert(out@ =~= before + byte_text(mode, b, glyph));
}

/// Append blank space in place of a byte: the last line of a file is shorter
/// than the rest, but the text column must not shift.
pub fn push_gap(out: &mut String, mode: Mode)
    ensures
        final(out)@ == old(out)@ + text::copies(' ', cell_width(mode)),
        final(out)@.len() == old(out)@.len() + cell_width(mode),
{
    text::push_copies(out, ' ', byte_width(mode));
}

/// So many digits are written.
pub proof fn lemma_fixed_hex_len(n: int, digits: int)
    requires
        digits >= 0,
    ensures
        fixed_hex(n, digits).len() == digits,
    decreases digits,
{
    if digits > 0 {
        lemma_fixed_hex_len(n / 16, digits - 1);
    }
}

/// So many bits are written.
proof fn lemma_bit_text_len(n: int, bits: int)
    requires
        bits >= 0,
    ensures
        bit_text(n, bits).len() == bits,
    decreases bits,
{
    if bits > 0 {
        lemma_bit_text_len(n / 2, bits - 1);
    }
}

/// A byte takes up its cells, but for text mode where a character goes on.
pub proof fn lemma_byte_text_len(mode: Mode, b: u8, glyph: char)
    ensures
        byte_text(mode, b, glyph).len() == if mode == Mode::Text && glyph
            == encoding::CONTINUATION {
            0
        } else {
            cell_width(mode)
        },
{
    lemma_fixed_hex_len(b as int, 2);
    lemma_bit_text_len(b as int, 8);
}

/// How many cells one byte takes in a mode.
pub open spec fn cell_width(mode: Mode) -> int {
    match mode {
        Mode::Hex => 3,
        Mode::Binary => 9,
        Mode::Text => 1,
    }
}

/// How many cells one byte takes in this mode.
pub fn byte_width(mode: Mode) -> (res: usize)
    ensures
        res == cell_width(mode),
{
    match mode {
        Mode::Hex => 3,
        Mode::Binary => 9,
        Mode::Text => 1,
    }
}

/// Is this a digit in the radix?
pub open spec fn is_digit(c: char, radix: int) -> bool {
    pattern::hex_value(c) matches Some(v) && v < radix
}

/// The value of digits in a radix.
pub open spec fn digits_value(s: Seq<char>, radix: int) -> int
    decreases s.len(),
{
    if s.len() == 0 {
        0
    } else {
        digits_value(s.drop_last(), radix) * radix + pattern::hex_value(s.last())->0
    }
}

/// The digits of a number typed with a `+` in front or not.
pub open spec fn without_plus(s: Seq<char>) -> Seq<char> {
    if s.len() > 0 && s[0] == '+' {
        s.skip(1)
    } else {
        s
    }
}

/// Are these all digits in the radix?
pub open spec fn all_digits(s: Seq<char>, radix: int) -> bool {
    forall|i: int| 0 <= i < s.len() ==> is_digit(#[trigger] s[i], radix)
}

/// A number typed in a radix: one digit or more, with a `+` in front or not,
/// that fit 64 bits.
pub open spec fn number(s: Seq<char>, radix: int) -> Option<int> {
    let d = without_plus(s);
    if d.len() > 0 && all_digits(d, radix) && digits_value(d, radix) <= u64::MAX {
        Some(digits_value(d, radix))
    } else {
        None
    }
}

/// More digits make no smaller number.
proof fn lemma_digits_grow(s: Seq<char>, k: int, radix: int)
    requires
        0 <= k <= s.len(),
        radix >= 1,
        all_digits(s, radix),
    ensures
        0 <= digits_value(s.take(k), radix) <= digits_value(s, radix),
    decreases s.len(),
{
    if k == s.len() {
        assert(s.take(k) =~= s);
        if s.len() > 0 {
            lemma_digits_grow(s.drop_last(), s.len() - 1, radix);
            assert(s.drop_last().take(s.len() - 1) =~= s.drop_last());
            let v = digits_value(s.drop_last(), radix);
            assert(is_digit(s.last(), radix));
            assert(v * radix >= 0) by (nonlinear_arith)
                requires
                    v >= 0,
                    radix >= 1,
            ;
        }
    } else {
        lemma_digits_grow(s.drop_last(), k, radix);
        assert(s.drop_last().take(k) =~= s.take(k));
        let v = digits_value(s.drop_last(), radix);
        assert(is_digit(s.last(), radix));
        assert(v * radix >= v) by (nonlinear_arith)
            requires
                v >= 0,
                radix >= 1,
        ;
    }
}

/// Read a number in a radix.
pub fn parse_number(s: &[char], radix: u64) -> (res: Option<u64>)
    requires
        2 <= radix <= 16,
    ensures
        match number(s@, radix as int) {
            Some(v) => res matches Some(n) && n == v,
            None => res is None,
        },
{
    let from: usize = if s.len() > 0 && s[0] == '+' {
        1
    } else {
        0
    };
    let ghost d = without_plus(s@);
    assert(d =~= s@.skip(from as int));
    let n: usize = s.len();
    if from == n {
        return None;
    }
    let mut v: u64 = 0;
    let mut i: usize = from;
    while i < n
        invariant
            2 <= radix <= 16,
            from <= i <= n == s@.len(),
            d == s@.skip(from as int),
            d == without_plus(s@),
            forall|j: int| 0 <= j < i - from ==> is_digit(#[trigger] d[j], radix as int),
            v == digits_value(d.take(i - from), radix as int),
        decreases n - i,
    {
        let c: char = s[i];
        assert(d[i - from] == c);
        assert(d.take(i - from + 1).drop_last() =~= d.take(i - from));
        match pattern::hex_digit(c) {
            Some(h) => {
                if h as u64 >= radix {
                    assert(!is_digit(d[i - from], radix as int));
                    return None;
                }
                assert(is_digit(d[i - from], radix as int));
                assert(v * radix <= u64::MAX * 16) by (nonlinear_arith)
                    requires
                        0 <= v <= u64::MAX,
                        0 <= radix <= 16,
                ;
                let w: u128 = v as u128 * radix as u128 + h as u128;
                assert(w == digits_value(d.take(i - from + 1), radix as int));
                if w > u64::MAX as u128 {
                    proof {
                        if all_digits(d, radix as int) {
                            lemma_digits_grow(d, i - from + 1, radix as int);
                        }
                    }
                    return None;
                }
                v = w as u64;
            },
            None => {
                assert(!is_digit(d[i - from], radix as int));
                return None;
            },
        }
        i += 1;
    }
    assert(d.take(n - from) =~= d);
    Some(v)
}

/// An offset without the mark in front that says it is hex.
pub open spec fn without_prefix(s: Seq<char>) -> Seq<char> {
    if s.len() >= 2 && s[0] == '0' && (s[1] == 'x' || s[1] == 'X') {
        s.skip(2)
    } else if s.len() >= 1 && s[0] == '$' {
        s.skip(1)
    } else {
        s
    }
}

/// An offset without the mark behind that says it is hex.
pub open spec fn without_suffix(s: Seq<char>) -> Seq<char> {
    if s.len() > 0 && (s.last() == 'h' || s.last() == 'H') {
        s.drop_last()
    } else {
        s
    }
}

/// The offset that the user's input means.
pub open spec fn offset_value(s: Seq<char>) -> Option<int> {
    let t = text::trimmed(s);
    if t.len() > 0 && (t[0] == 'd' || t[0] == 'D') {
        number(text::trimmed(t.skip(1)), 10)
    } else {
        number(without_suffix(without_prefix(t)), 16)
    }
}

/// Parse an offset typed by the user.
///
/// Hexadecimal by default: every offset this viewer shows is hex, so `2A0` is
/// the one thing "go to 2A0" can reasonably mean. `0x2A0`, `$2A0` and `2A0h`
/// say the same thing for anyone whose fingers insist. A leading `d` — `d672` —
/// is the way out to decimal.
pub fn parse_offset(s: &str) -> (res: Option<u64>)
    ensures
        match offset_value(s@) {
            Some(v) => res matches Some(n) && n == v,
            None => res is None,
        },
{
    let chars = text::chars_of(s);
    let t = text::trim(&chars);
    let n: usize = t.len();
    if n > 0 && (t[0] == 'd' || t[0] == 'D') {
        let rest = vstd::slice::slice_subrange(t.as_slice(), 1, n);
        assert(rest@ =~= t@.skip(1));
        return parse_number(&text::trim(rest), 10);
    }
    let from: usize = if n >= 2 && t[0] == '0' && (t[1] == 'x' || t[1] == 'X') {
        2
    } else if n >= 1 && t[0] == '$' {
        1
    } else {
        0
    };
    let to: usize = if n > from && (t[n - 1] == 'h' || t[n - 1] == 'H') {
        n - 1
    } else {
        n
    };
    let hex = vstd::slice::slice_subrange(t.as_slice(), from, to);
    assert(without_prefix(t@) =~= t@.skip(from as int));
    assert(hex@ =~= without_suffix(without_prefix(t@)));
    parse_number(hex, 16)
}

} // verus!
