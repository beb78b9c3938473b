use dosview::app::App;
use dosview::encoding::Encoding;
use dosview::pattern::Pattern;
use dosview::reader::{FileWindow, Stamp};
use dosview::view::Mode;

type Source = Box<dyn Fn(u64, u64) -> Result<Vec<u8>, String>>;

/// A way to read a file that holds these bytes.
fn contents(bytes: &[u8]) -> Source {
    let bytes = bytes.to_vec();
    Box::new(move |start, want| {
        let a = start.min(bytes.len() as u64) as usize;
        let b = a + want.min((bytes.len() - a) as u64) as usize;
        Ok(bytes[a..b].to_vec())
    })
}

/// What opening the file again finds.
fn look(bytes: &[u8], modified: i128) -> Result<(Source, Stamp), String> {
    let stamp = Stamp { len: bytes.len() as u64, modified: Some(modified) };
    Ok((contents(bytes), stamp))
}

/// An app over a file in memory, with the geometry a draw would have left
/// behind: 4 rows of 8 bytes.
fn app(bytes: &[u8]) -> App<Source> {
    let (read, stamp) = look(bytes, 0).unwrap();
    let mut a = App::new("data.bin".to_string(), FileWindow::open(read, stamp));
    a.rows = 4;
    a.bpl = 8;
    a
}

fn rec_app(bytes: &[u8], pattern: &str) -> App<Source> {
    let mut a = app(bytes);
    a.record = Some(Pattern::parse(pattern, Encoding::Ascii).unwrap());
    a
}

fn row(a: &mut App<Source>, off: u64) -> (u64, u64) {
    let r = a.row_at(off).unwrap();
    (r.start, r.len)
}

#[test]
fn plain_rows_are_the_byte_grid() {
    let mut a = app(&(0..20u8).collect::<Vec<_>>());
    assert_eq!(row(&mut a, 0), (0, 8));
    assert_eq!(row(&mut a, 7), (0, 8));
    assert_eq!(row(&mut a, 8), (8, 8));
    // The last row is short, because the file ends there.
    assert_eq!(row(&mut a, 19), (16, 4));
}

#[test]
fn the_row_after_one_starts_where_it_ends() {
    let a = app(&(0..20u8).collect::<Vec<_>>());
    let first = a.row_at(0).unwrap();
    let second = a.row_after(first).unwrap().unwrap();
    assert_eq!((second.start, second.len), (8, 8));
    assert_eq!(a.row_before(second).unwrap().unwrap(), first);
    assert!(a.row_before(first).unwrap().is_none());
    let last = a.row_at(19).unwrap();
    assert!(a.row_after(last).unwrap().is_none());
}

#[test]
fn arrows_move_the_cursor_and_the_view_holds_still() {
    let mut a = app(&(0..64u8).collect::<Vec<_>>());
    a.step_rows(1, true).unwrap();
    assert_eq!((a.cur, a.top), (8, 0), "one row down, screen unmoved");
    // The complaint this fixes: a left arrow after a step down used to
    // slide every line by a byte. Now it walks the cursor.
    a.move_cursor(-1).unwrap();
    assert_eq!((a.cur, a.top), (7, 0));
    a.move_cursor(1).unwrap();
    assert_eq!((a.cur, a.top), (8, 0));
}

#[test]
fn the_view_scrolls_only_once_the_cursor_would_leave_it() {
    let mut a = app(&(0..64u8).collect::<Vec<_>>());
    for _ in 0..3 {
        a.step_rows(1, true).unwrap();
    }
    assert_eq!((a.cur, a.top), (24, 0), "still on the last visible row");
    a.step_rows(1, true).unwrap();
    assert_eq!((a.cur, a.top), (32, 8), "now it scrolls, by one row");
}

#[test]
fn a_page_keeps_the_cursor_on_the_same_screen_row() {
    // 4 rows of 8: a page is 3 rows, or 24 bytes.
    let mut a = app(&(0..200u8).collect::<Vec<_>>());
    a.step_rows(2, true).unwrap();
    assert_eq!((a.cur, a.top), (16, 0), "third row from the top");

    a.page_rows(3, true).unwrap();
    assert_eq!(a.top, 24, "the view moved a page");
    assert_eq!(a.cur, 40, "and so did the cursor: still the third row");

    a.page_rows(3, false).unwrap();
    assert_eq!((a.cur, a.top), (16, 0));
}

#[test]
fn stepping_down_keeps_the_column() {
    let mut a = app(&(0..64u8).collect::<Vec<_>>());
    a.go_to(3).unwrap();
    a.step_rows(1, true).unwrap();
    assert_eq!(a.cur, 11, "column 3 of the next row");
    a.step_rows(1, false).unwrap();
    assert_eq!(a.cur, 3);
}

#[test]
fn home_and_end_take_the_file_the_modified_arrows_take_the_line() {
    let mut a = app(&(0..20u8).collect::<Vec<_>>());
    a.go_to(11).unwrap();
    // Cmd, Ctrl or Alt with an arrow: the ends of the line.
    a.go_row_edge(false).unwrap();
    assert_eq!(a.cur, 8);
    a.go_row_edge(true).unwrap();
    assert_eq!(a.cur, 15);
    // Home and End: the ends of the file.
    a.go_end().unwrap();
    assert_eq!(a.cur, 19);
    a.go_to(0).unwrap();
    assert_eq!((a.cur, a.top), (0, 0));
}

#[test]
fn the_line_width_keys_step_within_the_limits() {
    let mut a = app(&(0..200u8).collect::<Vec<_>>());
    a.mode = Mode::Hex;
    a.bpl = 16;
    a.fit_bpl = 16;

    a.resize_line(false);
    assert_eq!(a.fixed_bpl, Some(12), "hex steps in fours");
    a.bpl = 12;
    a.resize_line(false);
    a.bpl = 8;
    a.resize_line(false);
    a.bpl = 4;
    // Four bytes is as narrow as a hex dump goes.
    a.resize_line(false);
    assert_eq!(a.fixed_bpl, Some(4));

    // And it never grows past what the window can hold.
    a.bpl = 16;
    a.resize_line(true);
    assert_eq!(a.fixed_bpl, Some(16));
}

#[test]
fn the_line_width_keys_leave_text_mode_alone() {
    let mut a = app(&(0..200u8).collect::<Vec<_>>());
    a.mode = Mode::Text;
    a.resize_line(false);
    assert_eq!(a.fixed_bpl, None);
    assert!(a.status.contains("byte modes"));
}

#[test]
fn sliding_the_grid_moves_every_line_together() {
    let mut a = app(&(0..64u8).collect::<Vec<_>>());
    a.shift_grid(true).unwrap();
    assert_eq!(a.top, 1, "the whole grid is re-anchored");
    assert_eq!(a.align, 1);
    // Every row boundary moved with it, not just the first line's.
    assert_eq!(row(&mut a, 1), (1, 8));
    assert_eq!(row(&mut a, 9), (9, 8));
    // The bytes below the new anchor are still a row of their own.
    assert_eq!(row(&mut a, 0), (0, 1));
    a.shift_grid(false).unwrap();
    assert_eq!((a.top, a.align), (0, 0));
}

#[test]
fn the_grid_stays_slid_even_when_the_file_fits_on_one_screen() {
    // 4 rows of 8 hold 32 bytes, so this file needs no scrolling at all —
    // and the clamp that keeps the view on the last full screen must not
    // undo the slide because of it.
    let mut a = app(&(0..12u8).collect::<Vec<_>>());
    a.shift_grid(true).unwrap();
    a.shift_grid(true).unwrap();
    assert_eq!((a.align, a.top), (2, 2));
    assert_eq!(row(&mut a, 2), (2, 8));
    a.shift_grid(false).unwrap();
    assert_eq!((a.align, a.top), (1, 1));
}

#[test]
fn a_record_is_one_row_when_wrapping_is_off() {
    // Three records of 10, 6 and 4 bytes.
    let data = b"RECabcdefgRECabcRECa";
    let mut a = rec_app(data, "REC");
    assert_eq!(row(&mut a, 0), (0, 10));
    assert_eq!(row(&mut a, 9), (0, 10));
    assert_eq!(row(&mut a, 10), (10, 6));
    assert_eq!(row(&mut a, 16), (16, 4));
}

#[test]
fn a_long_record_is_cut_and_the_cursor_scrolls_it_sideways() {
    let data = b"RECabcdefgRECabc";
    let mut a = rec_app(data, "REC");
    // bpl is 8, the first record is 10 bytes: two bytes hang off the edge.
    let r = a.row_at(0).unwrap();
    let line = a.clip(r);
    assert_eq!((line.off, line.len, line.hidden), (0, 8, 2));

    // Walking the cursor past the edge brings the tail into view.
    a.go_to(9).unwrap();
    assert_eq!(a.hoff, 2, "scrolled sideways by two bytes");
    let r = a.row_at(9).unwrap();
    let line = a.clip(r);
    assert_eq!((line.off, line.len, line.skipped, line.hidden), (2, 8, 2, 0));

    // And back: the left edge follows the cursor home again.
    a.go_row_edge(false).unwrap();
    assert_eq!((a.cur, a.hoff), (0, 0));
}

#[test]
fn wrapping_spreads_a_record_over_as_many_rows_as_it_needs() {
    let data = b"RECabcdefgRECabc";
    let mut a = rec_app(data, "REC");
    a.toggle_wrap();
    assert!(a.wrap);
    // The 10-byte record becomes an 8-byte row plus a 2-byte row.
    assert_eq!(row(&mut a, 0), (0, 8));
    assert_eq!(row(&mut a, 8), (8, 2));
    // The next record starts a fresh row rather than filling this one.
    assert_eq!(row(&mut a, 10), (10, 6));

    let rows = a.layout_rows(4).unwrap();
    let shape: Vec<(u64, u64)> = rows.iter().map(|r| (r.start, r.len)).collect();
    assert_eq!(shape, vec![(0, 8), (8, 2), (10, 6)]);
    // Nothing is cut off the right edge when records wrap.
    assert!(rows.iter().all(|&r| a.clip(r).hidden == 0));
}

#[test]
fn wrapped_rows_step_through_a_record_and_on_to_the_next() {
    let data = b"RECabcdefgRECabc";
    let mut a = rec_app(data, "REC");
    a.toggle_wrap();
    a.go_to(0).unwrap();
    a.step_rows(1, true).unwrap();
    assert_eq!(a.cur, 8, "second row of the same record");
    a.step_rows(1, true).unwrap();
    assert_eq!(a.cur, 10, "first row of the next record");
    a.step_rows(1, false).unwrap();
    assert_eq!(a.cur, 8);
}

#[test]
fn record_rows_keep_the_column_and_clamp_to_short_records() {
    // Records of 10, 4 and 10 bytes.
    let data = b"RECabcdefgRECaRECabcdefg";
    let mut a = rec_app(data, "REC");
    a.go_to(9).unwrap(); // column 9 of the first record
    a.step_rows(1, true).unwrap();
    assert_eq!(a.cur, 13, "the second record is only 4 bytes: last byte");
    // The column is read off the row the cursor is on at each step, so
    // passing through a short record carries its column onward rather than
    // restoring the one from two rows up.
    a.step_rows(1, true).unwrap();
    assert_eq!(a.cur, 14 + 3);
}

#[test]
fn the_cursor_survives_the_file_being_truncated() {
    let mut a = app(&(0..64u8).collect::<Vec<_>>());
    a.go_to(60).unwrap();

    assert!(a.reload(true, look(b"tiny", 1)).unwrap());
    assert_eq!(a.reader.len(), 4);
    assert_eq!(a.cur, 3, "cursor pulled back inside the file");
    assert_eq!(a.top, 0);
}
