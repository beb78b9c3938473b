//! Drawing: a frame as pieces of text, each in its paint. What colours the
//! paints are, and how they reach the terminal, is decided elsewhere.

use crate::rows;
use crate::text;
use vstd::prelude::*;
use vstd::string::*;

verus! {

/// How a byte's cell is painted. The cursor wins over a match, which wins over
/// plain text.
#[derive(Copy, Clone, PartialEq, Eq, Structural, Debug)]
pub enum Style {
    Plain,
    Match,
    Cursor,
}

/// The paints of the screen.
#[derive(Copy, Clone, PartialEq, Eq, Structural, Debug)]
pub enum Paint {
    /// The offset column.
    Offset,
    /// The marks of a record that is only shown in part.
    Trunc,
    /// The byte column, and the plain background.
    Data,
    /// The text column.
    Text,
    Match,
    Cursor,
    /// The title and the bottom bar.
    Bar,
}

/// A piece of text in one paint.
#[derive(Debug)]
pub struct Seg {
    pub paint: Paint,
    pub text: String,
}

/// A piece of text, as a mathematical value.
#[verifier::ext_equal]
pub struct SegModel {
    pub paint: Paint,
    pub text: Seq<char>,
}

impl Seg {
    pub open spec fn model(self) -> SegModel {
        SegModel { paint: self.paint, text: self.text@ }
    }
}

/// Pieces of text, as mathematical values.
pub open spec fn segs(v: Seq<Seg>) -> Seq<SegModel> {
    v.map_values(|s: Seg| s.model())
}

/// How many cells the pieces take.
pub open spec fn width(s: Seq<SegModel>) -> int
    decreases s.len(),
{
    if s.len() == 0 {
        0
    } else {
        width(s.drop_last()) + s.last().text.len()
    }
}

/// One piece.
pub open spec fn piece(paint: Paint, s: Seq<char>) -> Seq<SegModel> {
    seq![SegModel { paint, text: s }]
}

/// `n` blank cells; none at all when there is nothing to fill.
pub open spec fn filled(paint: Paint, n: int) -> Seq<SegModel> {
    if n <= 0 {
        seq![]
    } else {
        piece(paint, text::copies(' ', n))
    }
}

/// Pieces padded with blanks to the edge of the screen.
pub open spec fn padded(s: Seq<SegModel>, paint: Paint, w: int) -> Seq<SegModel> {
    s + filled(paint, w - width(s))
}

/// The paint of a cell, given that of plain ones.
pub open spec fn style_paint(style: Style, plain: Paint) -> Paint {
    match style {
        Style::Plain => plain,
        Style::Match => Paint::Match,
        Style::Cursor => Paint::Cursor,
    }
}

/// Cells merged into runs of equal style.
pub open spec fn merged(cells: Seq<Seq<char>>, styles: Seq<Style>, plain: Paint) -> Seq<SegModel>
    decreases cells.len(),
{
    if cells.len() == 0 {
        seq![]
    } else {
        let n = cells.len() - 1;
        let before = merged(cells.drop_last(), styles, plain);
        if n > 0 && styles[n] == styles[n - 1] {
            before.drop_last().push(
                SegModel { paint: before.last().paint, text: before.last().text + cells[n] },
            )
        } else {
            before.push(SegModel { paint: style_paint(styles[n], plain), text: cells[n] })
        }
    }
}

/// The texts of cells.
pub open spec fn texts(v: Seq<String>) -> Seq<Seq<char>> {
    v.map_values(|s: String| s@)
}

// ── Small output helpers ────────────────────────────────────────────────────

/// Add a piece.
pub fn seg(out: &mut Vec<Seg>, paint: Paint, s: &str)
    ensures
        segs(final(out)@) == segs(old(out)@) + piece(paint, s@),
{
    let ghost before = out@;
    out.push(Seg { paint, text: s.to_string() });
    assert(segs(out@) =~= segs(before) + piece(paint, s@));
}

/// Add blank cells.
pub fn seg_fill(out: &mut Vec<Seg>, paint: Paint, n: usize)
    ensures
        segs(final(out)@) == segs(old(out)@) + filled(paint, n as int),
{
    let ghost before = out@;
    if n == 0 {
        assert(segs(out@) =~= segs(before) + Seq::<SegModel>::empty());
        return;
    }
    let mut pad = String::new();
    text::push_copies(&mut pad, ' ', n);
    assert(pad@ =~= text::copies(' ', n as int));
    out.push(Seg { paint, text: pad });
    assert(segs(out@) =~= segs(before) + piece(paint, text::copies(' ', n as int)));
}

/// Pad the line out to the edge — this leaves no leftovers from the previous
/// frame and makes the background solid without relying on how a particular
/// terminal implements clearing.
pub fn pad(out: &mut Vec<Seg>, paint: Paint, w: usize)
    ensures
        segs(final(out)@) == padded(segs(old(out)@), paint, w as int),
{
    let n: usize = room_left(out, w);
    seg_fill(out, paint, n);
}

/// How many cells of a line the pieces leave free.
fn room_left(out: &Vec<Seg>, w: usize) -> (res: usize)
    ensures
        res == rows::above(w as int, width(segs(out@))),
{
    let mut room: usize = w;
    let n: usize = out.len();
    assert(segs(out@).take(0) =~= Seq::<SegModel>::empty());
    for i in 0..n
        invariant
            n == out@.len(),
            room == rows::above(w as int, width(segs(out@).take(i as int))),
            width(segs(out@).take(i as int)) >= 0,
    {
        let k: usize = text::char_count(out[i].text.as_str());
        proof {
            let s = segs(out@);
            assert(s.take(i + 1).drop_last() =~= s.take(i as int));
            assert(s.take(i + 1).last() == out@[i as int].model());
        }
        room = if room > k {
            room - k
        } else {
            0
        };
    }
    assert(segs(out@).take(n as int) =~= segs(out@));
    room
}

/// An empty line.
pub fn blank(w: usize) -> (res: Vec<Seg>)
    ensures
        segs(res@) == filled(Paint::Data, w as int),
{
    let mut out: Vec<Seg> = Vec::new();
    seg_fill(&mut out, Paint::Data, w);
    assert(segs(Seq::<Seg>::empty()) + filled(Paint::Data, w as int) =~= filled(
        Paint::Data,
        w as int,
    ));
    out
}

/// Add a column of cells, split into runs of equal style. Neighbouring cells
/// in the same style are merged into one piece so that we do not spray escape
/// sequences per byte.
pub fn runs(out: &mut Vec<Seg>, cells: &Vec<String>, styles: &Vec<Style>, plain: Paint)
    requires
        cells@.len() <= styles@.len(),
    ensures
        segs(final(out)@) == segs(old(out)@) + merged(texts(cells@), styles@, plain),
{
    let ghost before = segs(out@);
    let n: usize = cells.len();
    let ghost all = texts(cells@);
    assert(all.take(0) =~= Seq::<Seq<char>>::empty());
    assert(segs(out@) =~= before + merged(all.take(0), styles@, plain));
    for i in 0..n
        invariant
            n == cells@.len() <= styles@.len(),
            all == texts(cells@),
            segs(out@) == before + merged(all.take(i as int), styles@, plain),
            i > 0 ==> merged(all.take(i as int), styles@, plain).len() > 0,
    {
        let ghost done = merged(all.take(i as int), styles@, plain);
        let ghost sofar = out@;
        proof {
            assert(all.take(i + 1).drop_last() =~= all.take(i as int));
            assert(all.take(i + 1).last() == cells@[i as int]@);
        }
        if i > 0 && styles[i] == styles[i - 1] {
            match out.pop() {
                Some(last) => {
                    let mut grown = last.text;
                    grown.append(cells[i].as_str());
                    out.push(Seg { paint: last.paint, text: grown });
                    proof {
                        assert(segs(sofar).last() == sofar.last().model());
                        assert((before + done).last() == done.last());
                        assert(segs(out@) =~= segs(sofar).drop_last().push(
                            SegModel {
                                paint: last.paint,
                                text: done.last().text + cells@[i as int]@,
                            },
                        ));
                        assert(segs(out@) =~= before + merged(all.take(i + 1), styles@, plain));
                    }
                },
                None => {
                    assert(segs(sofar).len() == 0);
                    assert(false);
                },
            }
        } else {
            let paint = match styles[i] {
                Style::Plain => plain,
                Style::Match => Paint::Match,
                Style::Cursor => Paint::Cursor,
            };
            seg(out, paint, cells[i].as_str());
            assert(segs(out@) =~= before + merged(all.take(i + 1), styles@, plain));
        }
    }
    assert(all.take(n as int) =~= all);
}

/// A text cut on the left to a width, the tail kept.
pub open spec fn tail_of(s: Seq<char>, room: int) -> Seq<char> {
    if s.len() <= room {
        s
    } else {
        seq!['…'] + s.skip(s.len() - rows::above(room, 1))
    }
}

/// A text cut on the right to a width.
pub open spec fn head_of(s: Seq<char>, room: int) -> Seq<char> {
    if s.len() <= room {
        s
    } else {
        s.take(rows::above(room, 1)).push('…')
    }
}

/// Trim a long path on the left, keeping the tail: the file name matters more
/// than the root.
pub fn trim_left(s: &str, room: usize) -> (res: String)
    ensures
        res@ == tail_of(s@, room as int),
{
    let chars = text::chars_of(s);
    let n: usize = chars.len();
    if n <= room {
        return s.to_string();
    }
    let keep: usize = if room > 0 {
        room - 1
    } else {
        0
    };
    let tail = text::string_of(vstd::slice::slice_subrange(chars.as_slice(), n - keep, n));
    let mut out = String::new();
    out.push('…');
    out.append(tail.as_str());
    assert(out@ =~= tail_of(s@, room as int));
    out
}

/// Trim on the right, for the title bar.
pub fn clip(s: &str, room: usize) -> (res: String)
    ensures
        res@ == head_of(s@, room as int),
{
    let chars = text::chars_of(s);
    let n: usize = chars.len();
    if n <= room {
        return s.to_string();
    }
    let keep: usize = if room > 0 {
        room - 1
    } else {
        0
    };
    let mut out = text::string_of(vstd::slice::slice_subrange(chars.as_slice(), 0, keep));
    out.push('…');
    assert(out@ =~= head_of(s@, room as int));
    out
}

} // verus!
