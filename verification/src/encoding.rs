//! Byte-to-glyph decoding: N bytes always become exactly N screen cells.
//!
//! One byte = one cell is the invariant the whole layout rests on. The text
//! column has to line up with the byte column, and every cell has to map back
//! to a file offset. Single-byte code pages satisfy that for free; UTF-8 does
//! not, so a multi-byte character is drawn on the cell of its leading byte and
//! its continuation bytes get `·`. The text stays readable and the columns
//! stay aligned.
//!
//! The tables are written out here: it is 128 chars per code page, and in
//! exchange there is full control over what shows up in place of NUL, NBSP and
//! undefined bytes.

use vstd::prelude::*;
use vstd::slice::*;
use vstd::string::*;
use vstd::utf8::*;

verus! {

/// Which code page the text cells are decoded with.
///
/// Applies both to the text column of the byte modes and to the full-screen
/// text mode, so a hex dump of a Windows-1251 file reads as Cyrillic instead
/// of dots.
#[derive(Debug, Copy, Clone, PartialEq, Eq, Structural)]
pub enum Encoding {
    /// Strict ASCII: printable as-is, everything else a dot.
    Ascii,
    /// Code page 437, the IBM PC palette: bytes 0x01..0x1F show up as
    /// ☺☻♥♦♣♠ and the upper half as box drawing.
    Cp437,
    /// Code page 866 — DOS Cyrillic, what Far shows by default on Russian text.
    Cp866,
    /// Windows-1251 — Cyrillic on Windows.
    Cp1251,
    /// KOI8-R — Cyrillic in older Unix files and mail.
    Koi8r,
    /// UTF-8, decoded per character; continuation bytes get `·`.
    Utf8,
}

impl Encoding {
    /// Cycling order for the encoding key.
    pub const ALL: [Encoding; 6] = [
        Encoding::Ascii,
        Encoding::Cp437,
        Encoding::Cp866,
        Encoding::Cp1251,
        Encoding::Koi8r,
        Encoding::Utf8,
    ];

    /// As many cells as the longest name takes.
    pub const NAME_WIDTH: usize = 6;

    /// Where an encoding stands in the cycling order.
    pub open spec fn place(self) -> int {
        match self {
            Encoding::Ascii => 0,
            Encoding::Cp437 => 1,
            Encoding::Cp866 => 2,
            Encoding::Cp1251 => 3,
            Encoding::Koi8r => 4,
            Encoding::Utf8 => 5,
        }
    }

    /// The encoding after this one; the last is followed by the first.
    pub open spec fn after(self) -> Encoding {
        Self::ALL@[(self.place() + 1) % 6]
    }

    /// The encoding before this one; the first is preceded by the last.
    pub open spec fn before(self) -> Encoding {
        Self::ALL@[(self.place() + 5) % 6]
    }

    /// The name shown for an encoding.
    pub open spec fn name_text(self) -> Seq<char> {
        match self {
            Encoding::Ascii => "ASCII"@,
            Encoding::Cp437 => "CP437"@,
            Encoding::Cp866 => "CP866"@,
            Encoding::Cp1251 => "CP1251"@,
            Encoding::Koi8r => "KOI8-R"@,
            Encoding::Utf8 => "UTF-8"@,
        }
    }

    pub fn name(self) -> (res: &'static str)
        ensures
            res@ == self.name_text(),
    {
        match self {
            Encoding::Ascii => "ASCII",
            Encoding::Cp437 => "CP437",
            Encoding::Cp866 => "CP866",
            Encoding::Cp1251 => "CP1251",
            Encoding::Koi8r => "KOI8-R",
            Encoding::Utf8 => "UTF-8",
        }
    }

    fn index(self) -> (res: usize)
        ensures
            res == self.place(),
            Self::ALL@[res as int] == self,
    {
        let mut i: usize = 0;
        while i < 6
            invariant
                i <= self.place(),
            decreases 6 - i,
        {
            if Self::ALL[i] == self {
                return i;
            }
            i += 1;
        }
        0
    }

    /// The encoding after this one; the last is followed by the first.
    pub fn next(self) -> (res: Encoding)
        ensures
            res == self.after(),
            res.before() == self,
    {
        Self::ALL[(self.index() + 1) % Self::ALL.len()]
    }

    /// The encoding before this one; the first is preceded by the last.
    pub fn prev(self) -> (res: Encoding)
        ensures
            res == self.before(),
            res.after() == self,
    {
        Self::ALL[(self.index() + Self::ALL.len() - 1) % Self::ALL.len()]
    }
}

/// Glyph drawn on the cells of a UTF-8 continuation byte.
pub const CONTINUATION: char = '·';

/// How many extra bytes past the end of a line are worth reading so that a
/// character straddling the line break can still be decoded.
pub const LOOKAHEAD: usize = 3;

/// What strict ASCII shows for a byte.
pub open spec fn ascii_glyph(b: u8) -> char {
    if 0x20 <= b < 0x7F {
        b as char
    } else {
        '.'
    }
}

/// The characters that take up exactly one terminal cell.
///
/// Left out is what breaks the column grid: controls, the blocks of combining
/// marks, zero-width characters and the East Asian double-width blocks.
pub open spec fn one_cell_char(c: char) -> bool {
    let u = c as u32;
    // controls
    &&& !(u <= 0x1F || 0x7F <= u <= 0x9F)
    // soft hyphen, BOM
    &&& u != 0x00AD && u != 0xFEFF
    // zero-width spaces and joiners, direction marks
    &&& !(0x200B <= u <= 0x200F)
    // line separators, direction embeddings
    &&& !(0x2028 <= u <= 0x202E)
    // word joiner, invisible operators, direction isolates
    &&& !(0x2060 <= u <= 0x206F)
    // Mongolian and other variation selectors, tags
    &&& !(0x180B <= u <= 0x180F)
    &&& !(0xFE00 <= u <= 0xFE0F)
    &&& !(0xE0000 <= u <= 0xE01EF)
    // combining marks
    &&& !(0x0300 <= u <= 0x036F)
    &&& !(0x0483 <= u <= 0x0489)
    &&& !(0x1AB0 <= u <= 0x1AFF)
    &&& !(0x1DC0 <= u <= 0x1DFF)
    &&& !(0x20D0 <= u <= 0x20FF)
    &&& !(0xFE20 <= u <= 0xFE2F)
    // Hangul Jamo
    &&& !(0x1100 <= u <= 0x115F)
    // CJK radicals, Kangxi, CJK punctuation
    &&& !(0x2E80 <= u <= 0x303E)
    // kana, CJK compatibility
    &&& !(0x3041 <= u <= 0x33FF)
    &&& !(0x3400 <= u <= 0x4DBF)
    // CJK unified ideographs
    &&& !(0x4E00 <= u <= 0x9FFF)
    // Yi
    &&& !(0xA000 <= u <= 0xA4CF)
    // Hangul syllables
    &&& !(0xAC00 <= u <= 0xD7A3)
    // CJK compatibility ideographs
    &&& !(0xF900 <= u <= 0xFAFF)
    &&& !(0xFE10 <= u <= 0xFE19)
    &&& !(0xFE30 <= u <= 0xFE6F)
    // fullwidth forms
    &&& !(0xFF00 <= u <= 0xFF60)
    &&& !(0xFFE0 <= u <= 0xFFE6)
    // emoji
    &&& !(0x1F300 <= u <= 0x1FAFF)
    // CJK extensions
    &&& !(0x20000 <= u <= 0x3FFFD)
}

/// A character that fits one cell is drawn as itself, any other as a dot.
pub open spec fn glyph_or_dot(c: char) -> char {
    if one_cell_char(c) {
        c
    } else {
        '.'
    }
}

/// The 0x80..0xFF half of a single-byte code page, or nothing for the
/// encodings that do not have one.
pub open spec fn high_glyphs(enc: Encoding) -> Option<Seq<char>> {
    match enc {
        Encoding::Cp437 => Some(CP437@.skip(0x80)),
        Encoding::Cp866 => Some(CP866_HIGH@),
        Encoding::Cp1251 => Some(CP1251_HIGH@),
        Encoding::Koi8r => Some(KOI8R_HIGH@),
        Encoding::Ascii | Encoding::Utf8 => None,
    }
}

/// What one byte shows as in an encoding other than UTF-8.
pub open spec fn byte_glyph(enc: Encoding, b: u8) -> char {
    match enc {
        Encoding::Cp437 => CP437@[b as int],
        _ => if b < 0x80 {
            ascii_glyph(b)
        } else {
            match high_glyphs(enc) {
                Some(high) => glyph_or_dot(high[b - 0x80]),
                None => '.',
            }
        },
    }
}

/// Length of the UTF-8 sequence a byte starts, or 0 if it starts none.
pub open spec fn lead_width(lead: u8) -> int {
    if 0xC2 <= lead <= 0xDF {
        2
    } else if 0xE0 <= lead <= 0xEF {
        3
    } else if 0xF0 <= lead <= 0xF4 {
        4
    } else {
        0
    }
}

/// Does a multi-byte UTF-8 character start here, whole and valid?
pub open spec fn multi_byte_first(bytes: Seq<u8>) -> bool {
    let w = lead_width(bytes[0]);
    &&& bytes.len() > 0
    &&& 0 < w <= bytes.len()
    &&& valid_utf8(bytes.take(w))
}

/// The cells of bytes read as UTF-8.
///
/// A character is drawn on the cell of its leading byte, its other bytes show
/// the continuation mark. A byte that starts no character shows as a dot and
/// decoding picks up again on the byte after it.
pub open spec fn utf8_cells(bytes: Seq<u8>) -> Seq<char>
    decreases bytes.len(),
{
    if bytes.len() == 0 {
        seq![]
    } else if bytes[0] < 0x80 {
        seq![ascii_glyph(bytes[0])] + utf8_cells(bytes.skip(1))
    } else if multi_byte_first(bytes) {
        let w = lead_width(bytes[0]);
        seq![glyph_or_dot(decode_utf8(bytes.take(w))[0])] + crate::text::copies(CONTINUATION, w - 1)
            + utf8_cells(bytes.skip(w))
    } else {
        seq!['.'] + utf8_cells(bytes.skip(1))
    }
}

/// The cells that bytes show as, one for each byte.
pub open spec fn cells(enc: Encoding, bytes: Seq<u8>) -> Seq<char> {
    if enc == Encoding::Utf8 {
        utf8_cells(bytes)
    } else {
        Seq::new(bytes.len(), |i: int| byte_glyph(enc, bytes[i]))
    }
}

/// One byte, one cell.
pub proof fn lemma_utf8_cells_len(bytes: Seq<u8>)
    ensures
        utf8_cells(bytes).len() == bytes.len(),
    decreases bytes.len(),
{
    if bytes.len() == 0 {
    } else if bytes[0] < 0x80 {
        lemma_utf8_cells_len(bytes.skip(1));
    } else if multi_byte_first(bytes) {
        lemma_utf8_cells_len(bytes.skip(lead_width(bytes[0])));
    } else {
        lemma_utf8_cells_len(bytes.skip(1));
    }
}

/// Decode `bytes` into `out`, one glyph per byte.
///
/// `out` is cleared first and always ends up the same length as `bytes`, which
/// is what lets the caller index cells by byte offset.
pub fn decode(enc: Encoding, bytes: &[u8], out: &mut Vec<char>)
    ensures
        final(out)@ == cells(enc, bytes@),
        final(out)@.len() == bytes@.len(),
{
    out.clear();
    match enc {
        Encoding::Utf8 => {
            decode_utf8_cells(bytes, out);
            proof {
                lemma_utf8_cells_len(bytes@);
            }
        },
        // CP437 is the one table that covers all 256 bytes on purpose: showing
        // a glyph for every control byte is the whole point of the DOS view.
        Encoding::Cp437 => {
            for i in 0..bytes.len()
                invariant
                    enc == Encoding::Cp437,
                    out@ =~= cells(enc, bytes@).take(i as int),
            {
                out.push(CP437[bytes[i] as usize]);
            }
        },
        _ => {
            let high = high_table(enc);
            for i in 0..bytes.len()
                invariant
                    enc != Encoding::Utf8,
                    enc != Encoding::Cp437,
                    high is Some <==> high_glyphs(enc) is Some,
                    high matches Some(t) ==> high_glyphs(enc) == Some(t@) && t@.len() == 128,
                    out@ =~= cells(enc, bytes@).take(i as int),
            {
                let b: u8 = bytes[i];
                if b < 0x80 {
                    out.push(ascii_cell(b));
                } else {
                    match high {
                        Some(t) => out.push(one_cell_or_dot(t[(b - 0x80) as usize])),
                        None => out.push('.'),
                    }
                }
            }
        },
    }
}

/// `std::str::from_utf8` gives the text that bytes hold when they are valid
/// UTF-8, and nothing otherwise.
#[verifier::external_body]
fn text_of(bytes: &[u8]) -> (res: Option<&str>)
    ensures
        res is Some <==> valid_utf8(bytes@),
        res matches Some(s) ==> s@ == decode_utf8(bytes@),
{
    std::str::from_utf8(bytes).ok()
}

fn decode_utf8_cells(bytes: &[u8], out: &mut Vec<char>)
    ensures
        final(out)@ == old(out)@ + utf8_cells(bytes@),
{
    let ghost before = out@;
    let n: usize = bytes.len();
    let mut i: usize = 0;
    assert(bytes@.skip(0) =~= bytes@);
    while i < n
        invariant
            i <= n == bytes@.len(),
            before + utf8_cells(bytes@) == out@ + utf8_cells(bytes@.skip(i as int)),
        decreases n - i,
    {
        let ghost rest = bytes@.skip(i as int);
        let ghost shown = out@;
        let b: u8 = bytes[i];
        if b < 0x80 {
            out.push(ascii_cell(b));
            i += 1;
            assert(rest.skip(1) =~= bytes@.skip(i as int));
            assert(shown + (seq![ascii_glyph(b)] + utf8_cells(rest.skip(1))) =~= out@ + utf8_cells(rest.skip(1)));
            continue;
        }
        let width: usize = utf8_width(b);
        // An invalid lead byte, a stray continuation byte, or a sequence cut
        // off by the end of the slice: show the byte as a dot and resync on
        // the next one rather than guessing.
        if width == 0 || width > n - i {
            out.push('.');
            i += 1;
            assert(rest.skip(1) =~= bytes@.skip(i as int));
            assert(shown + (seq!['.'] + utf8_cells(rest.skip(1))) =~= out@ + utf8_cells(rest.skip(1)));
            continue;
        }
        let part = slice_subrange(bytes, i, i + width);
        assert(part@ =~= rest.take(width as int));
        match text_of(part) {
            Some(s) => {
                proof {
                    decode_utf8_first_scalar(part@);
                }
                let c: char = s.get_char(0);
                out.push(one_cell_or_dot(c));
                let mut k: usize = 1;
                while k < width
                    invariant
                        1 <= k <= width,
                        out@ =~= shown.push(glyph_or_dot(c)) + crate::text::copies(CONTINUATION, k - 1),
                    decreases width - k,
                {
                    out.push(CONTINUATION);
                    k += 1;
                }
                i += width;
                assert(rest.skip(width as int) =~= bytes@.skip(i as int));
                assert(shown + (seq![glyph_or_dot(c)] + crate::text::copies(CONTINUATION, width - 1)
                    + utf8_cells(rest.skip(width as int))) =~= out@ + utf8_cells(rest.skip(width as int)));
            },
            None => {
                out.push('.');
                i += 1;
                assert(rest.skip(1) =~= bytes@.skip(i as int));
                assert(shown + (seq!['.'] + utf8_cells(rest.skip(1))) =~= out@ + utf8_cells(rest.skip(1)));
            },
        }
    }
    assert(bytes@.skip(n as int) =~= Seq::<u8>::empty());
    assert(out@ + Seq::<char>::empty() =~= out@);
}

/// Length of the UTF-8 sequence this byte starts, or 0 if it starts none.
pub fn utf8_width(lead: u8) -> (res: usize)
    ensures
        res == lead_width(lead),
{
    if 0xC2 <= lead && lead <= 0xDF {
        2
    } else if 0xE0 <= lead && lead <= 0xEF {
        3
    } else if 0xF0 <= lead && lead <= 0xF4 {
        4
    } else {
        // 0xC0/0xC1 only ever appear in overlong forms, 0x80..0xBF are
        // continuation bytes, 0xF5.. is past the last code point.
        0
    }
}

pub fn ascii_cell(b: u8) -> (res: char)
    ensures
        res == ascii_glyph(b),
{
    if 0x20 <= b && b < 0x7F {
        b as char
    } else {
        '.'
    }
}

pub fn one_cell_or_dot(c: char) -> (res: char)
    ensures
        res == glyph_or_dot(c),
{
    if one_cell(c) {
        c
    } else {
        '.'
    }
}

/// Can this character be drawn in exactly one terminal cell?
///
/// Whatever is rejected falls back to a dot, which is honest: the byte is
/// there, we just do not pretend to draw it.
pub fn one_cell(c: char) -> (res: bool)
    ensures
        res == one_cell_char(c),
{
    let u: u32 = c as u32;
    if u <= 0x1F || (0x7F <= u && u <= 0x9F) {
        return false;
    }
    if u == 0x00AD || u == 0xFEFF {
        return false;
    }
    if (0x200B <= u && u <= 0x200F) || (0x2028 <= u && u <= 0x202E) || (0x2060 <= u && u <= 0x206F)
        || (0x180B <= u && u <= 0x180F) || (0xFE00 <= u && u <= 0xFE0F) || (0xE0000 <= u && u
        <= 0xE01EF) {
        return false;
    }
    if (0x0300 <= u && u <= 0x036F) || (0x0483 <= u && u <= 0x0489) || (0x1AB0 <= u && u <= 0x1AFF)
        || (0x1DC0 <= u && u <= 0x1DFF) || (0x20D0 <= u && u <= 0x20FF) || (0xFE20 <= u && u
        <= 0xFE2F) {
        return false;
    }
    !((0x1100 <= u && u <= 0x115F) || (0x2E80 <= u && u <= 0x303E)
        || (0x3041 <= u && u <= 0x33FF) || (0x3400 <= u && u <= 0x4DBF) || (0x4E00 <= u && u
        <= 0x9FFF) || (0xA000 <= u && u <= 0xA4CF) || (0xAC00 <= u && u <= 0xD7A3) || (0xF900 <= u
        && u <= 0xFAFF) || (0xFE10 <= u && u <= 0xFE19) || (0xFE30 <= u && u <= 0xFE6F) || (0xFF00
        <= u && u <= 0xFF60) || (0xFFE0 <= u && u <= 0xFFE6) || (0x1F300 <= u && u <= 0x1FAFF) || (
    0x20000 <= u && u <= 0x3FFFD))
}

/// The 0x80..0xFF half of a single-byte code page, or `None` for the
/// encodings that do not have one.
fn high_table(enc: Encoding) -> (res: Option<&'static [char]>)
    ensures
        res is Some <==> high_glyphs(enc) is Some,
        res matches Some(t) ==> high_glyphs(enc) == Some(t@) && t@.len() == 128,
{
    match enc {
        Encoding::Cp437 => {
            let all: &'static [char] = &CP437;
            let high = slice_subrange(all, 0x80, 0x100);
            assert(high@ =~= CP437@.skip(0x80));
            Some(high)
        },
        Encoding::Cp866 => Some(&CP866_HIGH),
        Encoding::Cp1251 => Some(&CP1251_HIGH),
        Encoding::Koi8r => Some(&KOI8R_HIGH),
        Encoding::Ascii | Encoding::Utf8 => None,
    }
}

/// The byte a character is held as in a file, or nothing if the encoding
/// cannot represent it in one byte.
pub open spec fn char_byte(enc: Encoding, c: char) -> Option<u8> {
    if (c as u32) < 0x80 {
        Some(c as u8)
    } else {
        match high_glyphs(enc) {
            Some(high) => match high.index_of_first(c) {
                Some(i) => Some((i + 0x80) as u8),
                None => None,
            },
            None => None,
        }
    }
}

/// Encode one character the way the file would hold it, or `None` if this
/// encoding cannot represent it.
pub fn encode_char(enc: Encoding, c: char) -> (res: Option<u8>)
    ensures
        res == char_byte(enc, c),
{
    // Every encoding here agrees with ASCII below 0x80, so the low half needs
    // no table lookup — and looking it up would be wrong for CP437, whose
    // table maps control bytes to glyphs.
    if (c as u32) < 0x80 {
        return Some(c as u8);
    }
    let high = high_table(enc)?;
    proof {
        high@.index_of_first_ensures(c);
    }
    let mut i: usize = 0;
    while i < high.len()
        invariant
            i <= high@.len() == 128,
            forall|j: int| 0 <= j < i ==> high@[j] != c,
            high_glyphs(enc) == Some(high@),
            (c as u32) >= 0x80,
        decreases high.len() - i,
    {
        if high[i] == c {
            proof {
                high@.index_of_first_ensures(c);
            }
            return Some((i + 0x80) as u8);
        }
        i += 1;
    }
    None
}

/// Does the encoding hold text as UTF-8?
///
/// UTF-8 is also the fallback for the ASCII view: ASCII cannot express
/// anything above 0x7F, and text typed while looking at an ASCII dump is
/// almost always UTF-8 in the file.
pub open spec fn as_utf8(enc: Encoding) -> bool {
    enc == Encoding::Ascii || enc == Encoding::Utf8
}

/// Can every character of the text be held in the encoding?
pub open spec fn representable(enc: Encoding, s: Seq<char>) -> bool {
    as_utf8(enc) || forall|i: int| 0 <= i < s.len() ==> char_byte(enc, #[trigger] s[i]) is Some
}

/// The file bytes of a text that the encoding can hold.
pub open spec fn text_bytes(enc: Encoding, s: Seq<char>) -> Seq<u8> {
    if as_utf8(enc) {
        encode_utf8(s)
    } else {
        Seq::new(s.len(), |i: int| char_byte(enc, s[i])->0)
    }
}

/// Text is at least as many bytes as it is characters.
pub proof fn lemma_text_bytes_len(enc: Encoding, s: Seq<char>)
    ensures
        text_bytes(enc, s).len() >= s.len(),
    decreases s.len(),
{
    if as_utf8(enc) && s.len() > 0 {
        lemma_text_bytes_len(enc, s.drop_first());
    }
}

/// The first character of the text that has no byte of its own in the
/// encoding.
pub open spec fn missing_char(enc: Encoding, s: Seq<char>) -> Option<char>
    decreases s.len(),
{
    if s.len() == 0 {
        None
    } else if char_byte(enc, s[0]) is None {
        Some(s[0])
    } else {
        missing_char(enc, s.drop_first())
    }
}

/// Encode a search string into file bytes. On failure returns the character
/// that does not fit the current encoding, so the caller can name it.
pub fn encode_text(enc: Encoding, s: &str) -> (res: Result<Vec<u8>, char>)
    ensures
        res is Ok <==> representable(enc, s@),
        res matches Ok(bytes) ==> bytes@ == text_bytes(enc, s@),
        res matches Err(c) ==> missing_char(enc, s@) == Some(c),
{
    if matches!(enc, Encoding::Ascii | Encoding::Utf8) {
        return Ok(slice_to_vec(s.as_bytes()));
    }
    let chars = crate::text::chars_of(s);
    let mut out: Vec<u8> = Vec::new();
    assert(s@.skip(0) =~= s@);
    for i in 0..chars.len()
        invariant
            chars@ == s@,
            !as_utf8(enc),
            missing_char(enc, s@) == missing_char(enc, s@.skip(i as int)),
            out@.len() == i,
            forall|j: int|
                0 <= j < i ==> char_byte(enc, #[trigger] s@[j]) is Some && out@[j] == char_byte(
                    enc,
                    s@[j],
                )->0,
    {
        let c: char = chars[i];
        assert(c == s@[i as int]);
        assert(s@.skip(i as int).drop_first() =~= s@.skip(i + 1));
        match encode_char(enc, c) {
            Some(b) => out.push(b),
            None => return Err(c),
        }
    }
    assert(out@ =~= text_bytes(enc, s@));
    Ok(out)
}

/// Code page 437, all 256 bytes. NUL and NBSP show as a space, like in Far.
pub const CP437: [char; 256] = [
    // 0x00..0x0F
    ' ', '☺', '☻', '♥', '♦', '♣', '♠', '•', '◘', '○', '◙', '♂', '♀', '♪', '♫', '☼',
    // 0x10..0x1F
    '►', '◄', '↕', '‼', '¶', '§', '▬', '↨', '↑', '↓', '→', '←', '∟', '↔', '▲', '▼',
    // 0x20..0x2F
    ' ', '!', '"', '#', '$', '%', '&', '\'', '(', ')', '*', '+', ',', '-', '.', '/',
    // 0x30..0x3F
    '0', '1', '2', '3', '4', '5', '6', '7', '8', '9', ':', ';', '<', '=', '>', '?',
    // 0x40..0x4F
    '@', 'A', 'B', 'C', 'D', 'E', 'F', 'G', 'H', 'I', 'J', 'K', 'L', 'M', 'N', 'O',
    // 0x50..0x5F
    'P', 'Q', 'R', 'S', 'T', 'U', 'V', 'W', 'X', 'Y', 'Z', '[', '\\', ']', '^', '_',
    // 0x60..0x6F
    '`', 'a', 'b', 'c', 'd', 'e', 'f', 'g', 'h', 'i', 'j', 'k', 'l', 'm', 'n', 'o',
    // 0x70..0x7F
    'p', 'q', 'r', 's', 't', 'u', 'v', 'w', 'x', 'y', 'z', '{', '|', '}', '~', '⌂',
    // 0x80..0x8F
    'Ç', 'ü', 'é', 'â', 'ä', 'à', 'å', 'ç', 'ê', 'ë', 'è', 'ï', 'î', 'ì', 'Ä', 'Å',
    // 0x90..0x9F
    'É', 'æ', 'Æ', 'ô', 'ö', 'ò', 'û', 'ù', 'ÿ', 'Ö', 'Ü', '¢', '£', '¥', '₧', 'ƒ',
    // 0xA0..0xAF
    'á', 'í', 'ó', 'ú', 'ñ', 'Ñ', 'ª', 'º', '¿', '⌐', '¬', '½', '¼', '¡', '«', '»',
    // 0xB0..0xBF
    '░', '▒', '▓', '│', '┤', '╡', '╢', '╖', '╕', '╣', '║', '╗', '╝', '╜', '╛', '┐',
    // 0xC0..0xCF
    '└', '┴', '┬', '├', '─', '┼', '╞', '╟', '╚', '╔', '╩', '╦', '╠', '═', '╬', '╧',
    // 0xD0..0xDF
    '╨', '╤', '╥', '╙', '╘', '╒', '╓', '╫', '╪', '┘', '┌', '█', '▄', '▌', '▐', '▀',
    // 0xE0..0xEF
    'α', 'ß', 'Γ', 'π', 'Σ', 'σ', 'µ', 'τ', 'Φ', 'Θ', 'Ω', 'δ', '∞', 'φ', 'ε', '∩',
    // 0xF0..0xFF
    '≡', '±', '≥', '≤', '⌠', '⌡', '÷', '≈', '°', '∙', '·', '√', 'ⁿ', '²', '■', ' ',
];

/// Code page 866, upper half. DOS Cyrillic: the alphabet sits in two runs with
/// the CP437 box drawing left untouched in between, which is why DOS programs
/// kept their frames when they switched to Russian.
pub const CP866_HIGH: [char; 128] = [
    // 0x80..0x8F
    'А', 'Б', 'В', 'Г', 'Д', 'Е', 'Ж', 'З', 'И', 'Й', 'К', 'Л', 'М', 'Н', 'О', 'П',
    // 0x90..0x9F
    'Р', 'С', 'Т', 'У', 'Ф', 'Х', 'Ц', 'Ч', 'Ш', 'Щ', 'Ъ', 'Ы', 'Ь', 'Э', 'Ю', 'Я',
    // 0xA0..0xAF
    'а', 'б', 'в', 'г', 'д', 'е', 'ж', 'з', 'и', 'й', 'к', 'л', 'м', 'н', 'о', 'п',
    // 0xB0..0xBF
    '░', '▒', '▓', '│', '┤', '╡', '╢', '╖', '╕', '╣', '║', '╗', '╝', '╜', '╛', '┐',
    // 0xC0..0xCF
    '└', '┴', '┬', '├', '─', '┼', '╞', '╟', '╚', '╔', '╩', '╦', '╠', '═', '╬', '╧',
    // 0xD0..0xDF
    '╨', '╤', '╥', '╙', '╘', '╒', '╓', '╫', '╪', '┘', '┌', '█', '▄', '▌', '▐', '▀',
    // 0xE0..0xEF
    'р', 'с', 'т', 'у', 'ф', 'х', 'ц', 'ч', 'ш', 'щ', 'ъ', 'ы', 'ь', 'э', 'ю', 'я',
    // 0xF0..0xFF
    'Ё', 'ё', 'Є', 'є', 'Ї', 'ї', 'Ў', 'ў', '°', '∙', '·', '√', '№', '¤', '■', '\u{A0}',
];

/// Windows-1251, upper half. Unlike CP866 the alphabet is one contiguous run
/// from 0xC0, so Cyrillic text in it looks like a solid block of high bytes.
pub const CP1251_HIGH: [char; 128] = [
    // 0x80..0x8F
    'Ђ', 'Ѓ', '‚', 'ѓ', '„', '…', '†', '‡', '€', '‰', 'Љ', '‹', 'Њ', 'Ќ', 'Ћ', 'Џ',
    // 0x90..0x9F — 0x98 is unassigned; '\0' marks it and renders as a dot.
    'ђ', '‘', '’', '“', '”', '•', '–', '—', '\0', '™', 'љ', '›', 'њ', 'ќ', 'ћ', 'џ',
    // 0xA0..0xAF
    '\u{A0}', 'Ў', 'ў', 'Ј', '¤', 'Ґ', '¦', '§', 'Ё', '©', 'Є', '«', '¬', '\u{AD}', '®', 'Ї',
    // 0xB0..0xBF
    '°', '±', 'І', 'і', 'ґ', 'µ', '¶', '·', 'ё', '№', 'є', '»', 'ј', 'Ѕ', 'ѕ', 'ї',
    // 0xC0..0xCF
    'А', 'Б', 'В', 'Г', 'Д', 'Е', 'Ж', 'З', 'И', 'Й', 'К', 'Л', 'М', 'Н', 'О', 'П',
    // 0xD0..0xDF
    'Р', 'С', 'Т', 'У', 'Ф', 'Х', 'Ц', 'Ч', 'Ш', 'Щ', 'Ъ', 'Ы', 'Ь', 'Э', 'Ю', 'Я',
    // 0xE0..0xEF
    'а', 'б', 'в', 'г', 'д', 'е', 'ж', 'з', 'и', 'й', 'к', 'л', 'м', 'н', 'о', 'п',
    // 0xF0..0xFF
    'р', 'с', 'т', 'у', 'ф', 'х', 'ц', 'ч', 'ш', 'щ', 'ъ', 'ы', 'ь', 'э', 'ю', 'я',
];

/// KOI8-R, upper half. The alphabet is ordered so that dropping the high bit
/// leaves readable Latin transliteration — that is why the letters look
/// scrambled in table order.
pub const KOI8R_HIGH: [char; 128] = [
    // 0x80..0x8F
    '─', '│', '┌', '┐', '└', '┘', '├', '┤', '┬', '┴', '┼', '▀', '▄', '█', '▌', '▐',
    // 0x90..0x9F
    '░', '▒', '▓', '⌠', '■', '∙', '√', '≈', '≤', '≥', '\u{A0}', '⌡', '°', '²', '·', '÷',
    // 0xA0..0xAF
    '═', '║', '╒', 'ё', '╓', '╔', '╕', '╖', '╗', '╘', '╙', '╚', '╛', '╜', '╝', '╞',
    // 0xB0..0xBF
    '╟', '╠', '╡', 'Ё', '╢', '╣', '╤', '╥', '╦', '╧', '╨', '╩', '╪', '╫', '╬', '©',
    // 0xC0..0xCF
    'ю', 'а', 'б', 'ц', 'д', 'е', 'ф', 'г', 'х', 'и', 'й', 'к', 'л', 'м', 'н', 'о',
    // 0xD0..0xDF
    'п', 'я', 'р', 'с', 'т', 'у', 'ж', 'в', 'ь', 'ы', 'з', 'ш', 'э', 'щ', 'ч', 'ъ',
    // 0xE0..0xEF
    'Ю', 'А', 'Б', 'Ц', 'Д', 'Е', 'Ф', 'Г', 'Х', 'И', 'Й', 'К', 'Л', 'М', 'Н', 'О',
    // 0xF0..0xFF
    'П', 'Я', 'Р', 'С', 'Т', 'У', 'Ж', 'В', 'Ь', 'Ы', 'З', 'Ш', 'Э', 'Щ', 'Ч', 'Ъ',
];

} // verus!
