//! Laws of the models: each shows what the value it stands for holds, field by
//! field and in the same order.

use crate::app;
use crate::app::{App, Input, Line};
use crate::draw;
use crate::draw::Seg;
use crate::frame;
use crate::model::InputModel;
use crate::pattern;
use crate::reader;
use crate::rows::Row;
use crate::view;
use vstd::prelude::*;

verus! {

/// The model of the viewer has its numbers, its switches and its texts.
pub proof fn law_the_model_is_the_viewer<E, F: Fn(u64, u64) -> Result<Vec<u8>, E>>(a: App<F>)
    ensures
        ({
            let m = a.model();
            &&& m.cur == a.cur && m.top == a.top && m.align == a.align && m.hoff == a.hoff
            &&& m.rows == a.rows && m.bpl == a.bpl && m.fit_bpl == a.fit_bpl
            &&& m.mode == a.mode && m.enc == a.enc && m.status == a.status@
            &&& m.held == a.held && m.wrap == a.wrap && m.highlight == a.highlight
            &&& m.fixed_bpl is Some <==> a.fixed_bpl is Some
            &&& m.fixed_bpl is Some ==> m.fixed_bpl->0 == a.fixed_bpl->0
            &&& m.needle is Some <==> a.needle is Some
            &&& m.needle is Some ==> m.needle->0.items == a.needle->0.items() && m.needle->0.text
                == a.needle->0.text()
            &&& m.record is Some <==> a.record is Some
            &&& m.record is Some ==> m.record->0.items == a.record->0.items() && m.record->0.text
                == a.record->0.text()
            &&& match a.input {
                Input::Normal => m.input == InputModel::Normal,
                Input::Goto(s) => m.input == InputModel::Goto(s@),
                Input::Search(s) => m.input == InputModel::Search(s@),
                Input::Record(s) => m.input == InputModel::Record(s@),
            }
        }),
{
}

/// Rows and lines have their offsets and lengths.
pub proof fn law_the_models_of_rows_and_lines(rows: Seq<Row>, line: Line, i: int)
    requires
        0 <= i < rows.len(),
    ensures
        app::spans(rows).len() == rows.len(),
        app::spans(rows)[i].start == rows[i].start,
        app::spans(rows)[i].len == rows[i].len,
        line.model().off == line.off,
        line.model().len == line.len,
        line.model().skipped == line.skipped,
        line.model().hidden == line.hidden,
{
}

/// Pieces of text have their paint and their characters, line by line.
pub proof fn law_the_models_of_pieces(lines: Seq<Vec<Seg>>, i: int, j: int)
    requires
        0 <= i < lines.len(),
        0 <= j < lines[i]@.len(),
    ensures
        frame::lines_of(lines).len() == lines.len(),
        frame::lines_of(lines)[i].len() == lines[i]@.len(),
        frame::lines_of(lines)[i][j].paint == lines[i]@[j].paint,
        frame::lines_of(lines)[i][j].text == lines[i]@[j].text@,
        draw::segs(lines[i]@) == frame::lines_of(lines)[i],
{
}

/// Offsets are the numbers they are.
pub proof fn law_the_models_of_offsets(far: Seq<u64>, near: Seq<usize>, i: int)
    ensures
        reader::offsets(far).len() == far.len(),
        0 <= i < far.len() ==> reader::offsets(far)[i] == far[i],
        pattern::offsets(near).len() == near.len(),
        0 <= i < near.len() ==> pattern::offsets(near)[i] == near[i],
{
}

/// Texts are the characters they hold.
pub proof fn law_the_models_of_texts(cells: Seq<String>, fixed: Option<usize>, i: int)
    ensures
        draw::texts(cells).len() == cells.len(),
        0 <= i < cells.len() ==> draw::texts(cells)[i] == cells[i]@,
        view::choice(fixed) is Some <==> fixed is Some,
        fixed is Some ==> view::choice(fixed)->0 == fixed->0,
{
}

} // verus!
