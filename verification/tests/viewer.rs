use dosview::app::{App, Input};
use dosview::draw::{blank, clip, runs, seg, seg_fill, trim_left, Paint, Seg, Style};
use dosview::encoding::Encoding;
use dosview::keys::{Action, Key, KeyCode, Outcome};
use dosview::pattern::Pattern;
use dosview::reader::{FileWindow, Stamp};
use dosview::rows::Row;
use dosview::view::Mode;

type Source = Box<dyn Fn(u64, u64) -> Result<Vec<u8>, String>>;

/// A way to read a file that holds these bytes.
fn contents(bytes: &[u8]) -> Source {
    let bytes = bytes.to_vec();
    Box::new(move |start, want| {
        let a = start.min(bytes.len() as u64) as usize;
        let b = a + want.min((bytes.len() - a) as u64) as usize;
        Ok(bytes[a..b].to_vec())
    })
}

fn look(bytes: &[u8], modified: i128) -> Result<(Source, Stamp), String> {
    let stamp = Stamp { len: bytes.len() as u64, modified: Some(modified) };
    Ok((contents(bytes), stamp))
}

/// Four rows of eight bytes.
fn app(bytes: &[u8]) -> App<Source> {
    let (read, stamp) = look(bytes, 0).unwrap();
    let mut a = App::new("data.bin".to_string(), FileWindow::open(read, stamp));
    a.rows = 4;
    a.bpl = 8;
    a
}

fn count(n: u8) -> Vec<u8> {
    (0..n).collect()
}

fn pat(s: &str) -> Pattern {
    Pattern::parse(s, Encoding::Ascii).unwrap()
}

fn key(code: KeyCode) -> Key {
    Key { code, ctrl: false, alt: false, shift: false, sup: false }
}

fn press(a: &mut App<Source>, code: KeyCode) -> Outcome {
    a.on_key(key(code)).unwrap()
}

fn type_in(a: &mut App<Source>, s: &str) {
    for c in s.chars() {
        press(a, KeyCode::Char(c));
    }
    press(a, KeyCode::Enter);
}

fn spans(a: &App<Source>, n: usize) -> Vec<(u64, u64)> {
    a.layout_rows(n).unwrap().iter().map(|r| (r.start, r.len)).collect()
}

/// What a line says, and the paints it says it in.
fn spelled(line: &[Seg]) -> String {
    line.iter().map(|s| s.text.as_str()).collect()
}

fn pieces(line: &[Seg]) -> Vec<(Paint, &str)> {
    line.iter().map(|s| (s.paint, s.text.as_str())).collect()
}

// ── Rows ────────────────────────────────────────────────────────────────────

#[test]
fn an_empty_file_has_one_empty_row() {
    let a = app(b"");
    assert_eq!(a.row_at(5).unwrap(), Row { start: 0, len: 0 });
    assert_eq!(spans(&a, 4), vec![(0, 0)]);
    let mut r = app(b"");
    r.record = Some(pat("REC"));
    assert_eq!(r.row_at(0).unwrap(), Row { start: 0, len: 0 });
    assert_eq!(spans(&r, 4), vec![(0, 0)]);
    assert_eq!(Row { start: 3, len: 0 }.last(), 3);
    assert_eq!(Row { start: 3, len: 2 }.last(), 4);
}

#[test]
fn overlapping_record_starts_do_not_make_rows_of_one_byte() {
    let mut a = app(b"AAAAA--AA");
    a.record = Some(pat("AA"));
    assert_eq!(spans(&a, 9), vec![(0, 2), (2, 5), (7, 2)]);
    for (start, len) in spans(&a, 9) {
        for off in start..start + len {
            assert_eq!(a.row_at(off).unwrap(), Row { start, len }, "offset {off}");
        }
    }
}

#[test]
fn bytes_before_the_first_record_are_a_row() {
    let mut a = app(b"head-REC1REC2");
    a.record = Some(pat("REC"));
    assert_eq!(spans(&a, 4), vec![(0, 5), (5, 4), (9, 4)]);
    assert_eq!(a.record_start(3).unwrap(), 0);
    assert_eq!(a.record_end(0).unwrap(), 5);
    assert_eq!(a.record_end(9).unwrap(), 13);
    a.record = None;
    assert_eq!(a.record_start(3).unwrap(), 3);
    assert_eq!(a.record_end(3).unwrap(), 13);
}

#[test]
fn clipping_loses_no_byte() {
    let mut a = app(&count(40));
    a.record = Some(pat("x:FF"));
    a.hoff = 5;
    let ln = a.clip(a.row_at(0).unwrap());
    assert_eq!((ln.off, ln.len, ln.skipped, ln.hidden), (5, 8, 5, 27));
    a.hoff = 38;
    let ln = a.clip(a.row_at(0).unwrap());
    assert_eq!((ln.off, ln.len, ln.skipped, ln.hidden), (38, 2, 38, 0));
}

// ── Navigation ──────────────────────────────────────────────────────────────

#[test]
fn the_last_row_of_a_file_can_be_seen() {
    let mut a = app(&count(20));
    a.rows = 2;
    a.go_to(19).unwrap();
    assert_eq!((a.cur, a.top), (19, 8), "the short row at the end is on screen");
    a.go_to(0).unwrap();
    a.go_end().unwrap();
    assert_eq!((a.cur, a.top), (19, 8));
    a.top = 100;
    a.clamp_top();
    assert_eq!(a.top, 8);
}

#[test]
fn the_first_and_the_last_row_lead_to_their_far_end() {
    let mut a = app(&count(20));
    a.go_to(3).unwrap();
    a.step_rows(1, false).unwrap();
    assert_eq!(a.cur, 0);
    a.go_to(17).unwrap();
    a.step_rows(1, true).unwrap();
    assert_eq!(a.cur, 19);
}

#[test]
fn a_jump_puts_the_row_of_the_cursor_on_top() {
    let mut a = app(&count(200));
    a.go_to(100).unwrap();
    assert_eq!((a.cur, a.top), (100, 96));
    a.go_to(u64::MAX).unwrap();
    assert_eq!((a.cur, a.top), (199, 168));
}

#[test]
fn the_cursor_moves_no_further_than_the_file() {
    let mut a = app(&count(20));
    a.move_cursor(i64::MIN).unwrap();
    assert_eq!(a.cur, 0);
    a.move_cursor(i64::MAX).unwrap();
    assert_eq!(a.cur, 19);
}

#[test]
fn the_view_scrolls_up_by_one_row_too() {
    let mut a = app(&count(200));
    a.go_to(100).unwrap();
    a.step_rows(1, false).unwrap();
    assert_eq!((a.cur, a.top), (92, 88));
    a.scroll_rows(2, true).unwrap();
    assert_eq!((a.cur, a.top), (92, 104), "the view moves alone");
    a.ensure_visible().unwrap();
    assert_eq!((a.cur, a.top), (92, 88));
}

#[test]
fn records_scroll_sideways_past_the_cursor() {
    let mut a = app(b"REC0123456789abcdefRECx");
    a.record = Some(pat("REC"));
    a.go_to(4).unwrap();
    a.shift_grid(true).unwrap();
    assert_eq!((a.hoff, a.cur), (1, 4), "the cursor stays where it is");
    for _ in 0..6 {
        a.shift_grid(true).unwrap();
    }
    assert_eq!((a.hoff, a.cur), (7, 4), "also once it is out of sight");
    a.measure(40, 6).unwrap();
    a.measure(40, 6).unwrap();
    assert_eq!((a.hoff, a.cur), (7, 4), "frames do not undo it");
    a.reload(true, look(b"REC0123456789abcdefRECy", 1)).unwrap();
    assert_eq!((a.hoff, a.cur), (7, 4), "nor does a reload");
    for _ in 0..7 {
        a.shift_grid(false).unwrap();
    }
    assert_eq!((a.hoff, a.cur), (0, 4));
    a.shift_grid(false).unwrap();
    assert_eq!(a.hoff, 0);
    for _ in 0..7 {
        a.shift_grid(true).unwrap();
    }
    a.move_cursor(1).unwrap();
    assert_eq!((a.hoff, a.cur), (5, 5), "until the cursor moves");
    for _ in 0..99 {
        a.shift_grid(true).unwrap();
    }
    assert_eq!((a.hoff, a.cur), (18, 5), "the last byte of the record still shows");
    a.measure(40, 6).unwrap();
    assert_eq!((a.hoff, a.cur), (18, 5));
    a.shift_grid(false).unwrap();
    assert_eq!(a.hoff, 17);
    a.bpl = 8;
    a.cur = 12;
    a.hoff = 10;
    a.shift_grid(false).unwrap();
    a.shift_grid(false).unwrap();
    assert_eq!((a.hoff, a.cur), (8, 12));
    a.wrap = true;
    a.shift_grid(true).unwrap();
    assert_eq!(a.status, "Wrapped records have no sideways scroll — turn wrap off (9)");
}

#[test]
fn a_page_in_records_keeps_the_cursor_on_its_screen_row() {
    let mut a = app(b"RECaRECbbRECcRECddRECeRECffRECg");
    a.record = Some(pat("REC"));
    a.rows = 3;
    a.go_to(5).unwrap();
    assert_eq!((a.cur, a.top), (5, 0));
    a.page_rows(2, true).unwrap();
    assert_eq!((a.cur, a.top), (14, 9), "second row of the screen, as before");
    a.page_rows(2, false).unwrap();
    assert_eq!((a.cur, a.top), (5, 0));
}

#[test]
fn errors_of_the_file_come_through() {
    let read: Source = Box::new(|_start, _want| Err("gone".to_string()));
    let stamp = Stamp { len: 100, modified: None };
    let mut a = App::new("gone.bin".to_string(), FileWindow::open(read, stamp));
    assert_eq!(a.go_to(50), Ok(()), "the grid needs no reading");
    a.record = Some(pat("REC"));
    assert_eq!(a.go_to(50), Err("gone".to_string()));
    assert_eq!(a.cursor_readout(8), Err("gone".to_string()));
}

// ── State the keys flip ─────────────────────────────────────────────────────

#[test]
fn the_line_width_keys_say_what_they_did() {
    let mut a = app(&count(200));
    a.bpl = 12;
    a.fit_bpl = 16;
    a.resize_line(true);
    assert_eq!(a.status, "16 bytes per line — the whole window");
    a.resize_line(false);
    assert_eq!(a.status, "8 bytes per line");
    a.mode = Mode::Text;
    a.resize_line(true);
    assert_eq!(a.status, "Line width is for the byte modes (1, 2)");
}

#[test]
fn wrapping_says_what_it_does() {
    let mut a = app(&count(20));
    a.toggle_wrap();
    assert_eq!(a.status, "Wrap on — applies once a record pattern is set (6)");
    a.toggle_wrap();
    assert_eq!(a.status, "Wrap off — applies once a record pattern is set (6)");
    assert!(!a.wrap);
    a.record = Some(pat("x:05"));
    a.hoff = 3;
    a.toggle_wrap();
    assert_eq!(a.status, "Records wrap onto as many lines as they need");
    assert_eq!(a.hoff, 0);
    a.toggle_wrap();
    assert_eq!(a.status, "One line per record; walk the cursor right to see the rest");
}

#[test]
fn patterns_follow_the_code_page_and_come_back() {
    let mut a = app(&count(20));
    a.set_encoding(Encoding::Cp866);
    assert_eq!(a.status, "Encoding: CP866");
    a.needle = Some(Pattern::parse("Привет", Encoding::Cp866).unwrap());
    a.record = Some(Pattern::parse("x:0A", Encoding::Cp866).unwrap());
    let cp866 = [0x8F, 0xE0, 0xA8, 0xA2, 0xA5, 0xE2];
    let cp1251 = [0xCF, 0xF0, 0xE8, 0xE2, 0xE5, 0xF2];
    let hits = |a: &App<Source>, bytes: &[u8]| a.needle.as_ref().unwrap().find_all(bytes).len();
    a.set_encoding(Encoding::Cp1251);
    assert_eq!(a.status, "Encoding: CP1251");
    assert_eq!((hits(&a, &cp866), hits(&a, &cp1251)), (0, 1));
    // Not in that code page: the old bytes are kept.
    a.set_encoding(Encoding::Cp437);
    assert_eq!(a.status, "'П' is not in CP437 — pattern left as it was");
    assert_eq!((hits(&a, &cp866), hits(&a, &cp1251)), (0, 1));
    a.set_encoding(Encoding::Cp866);
    assert_eq!((hits(&a, &cp866), hits(&a, &cp1251)), (1, 0));
    assert_eq!(a.record.as_ref().unwrap().find_all(b"\n"), vec![0]);
}

#[test]
fn a_reload_reports_what_it_found() {
    let mut a = app(b"0123456789");
    assert_eq!(a.reload(true, look(b"0123456789", 0)), Ok(false));
    assert_eq!(a.status, "", "the idle check keeps quiet");
    assert_eq!(a.reload(false, look(b"0123456789", 0)), Ok(false));
    assert_eq!(a.status, "File unchanged");
    assert_eq!(a.reload(false, Err("no such file".to_string())), Ok(false));
    assert_eq!(a.status, "Cannot reread the file: no such file");
    a.status.clear();
    assert_eq!(a.reload(true, Err("no such file".to_string())), Ok(false));
    assert_eq!(a.status, "");
    assert_eq!(a.reader.len(), 10);
    assert_eq!(a.reload(true, look(b"0123456789ab", 1)), Ok(true));
    assert_eq!(a.status, "File changed on disk — reloaded, 12 bytes");
    assert_eq!(a.reader.len(), 12);
}

#[test]
fn a_search_wraps_around() {
    let mut a = app(b"--AB----AB--");
    a.find_next().unwrap();
    assert_eq!(a.status, "Nothing to search for yet (7)");
    a.needle = Some(pat("AB"));
    a.run_search(0).unwrap();
    assert_eq!((a.cur, a.status.as_str()), (2, "Found at 0x2"));
    a.find_next().unwrap();
    assert_eq!((a.cur, a.status.as_str()), (8, "Found at 0x8"));
    a.find_next().unwrap();
    assert_eq!((a.cur, a.status.as_str()), (2, "Wrapped to the start: 0x2"));
    a.needle = Some(pat("zz"));
    a.find_next().unwrap();
    assert_eq!((a.cur, a.status.as_str()), (2, "Not found"));
    a.needle = None;
    a.run_search(0).unwrap();
    assert_eq!((a.cur, a.status.as_str()), (2, "Not found"), "nothing to do");
}

// ── Keyboard ────────────────────────────────────────────────────────────────

#[test]
fn every_key_has_its_meaning() {
    let table = [
        (KeyCode::Char('q'), Action::Quit),
        (KeyCode::Char('Q'), Action::Quit),
        (KeyCode::Esc, Action::Quit),
        (KeyCode::F(10), Action::Quit),
        (KeyCode::Char('1'), Action::Show(Mode::Binary)),
        (KeyCode::F(1), Action::Show(Mode::Binary)),
        (KeyCode::Char('2'), Action::Show(Mode::Hex)),
        (KeyCode::F(2), Action::Show(Mode::Hex)),
        (KeyCode::Char('3'), Action::Text),
        (KeyCode::F(3), Action::Text),
        (KeyCode::Char('4'), Action::NextPage),
        (KeyCode::Char('e'), Action::NextPage),
        (KeyCode::Char('E'), Action::PrevPage),
        (KeyCode::Char('9'), Action::Wrap),
        (KeyCode::F(9), Action::Wrap),
        (KeyCode::Char('['), Action::Narrower),
        (KeyCode::Char(']'), Action::Wider),
        (KeyCode::Char('\\'), Action::WindowWide),
        (KeyCode::Left, Action::Left),
        (KeyCode::Right, Action::Right),
        (KeyCode::Up, Action::Up),
        (KeyCode::Down, Action::Down),
        (KeyCode::PageUp, Action::PageUp),
        (KeyCode::PageDown, Action::PageDown),
        (KeyCode::Char(' '), Action::PageDown),
        (KeyCode::Home, Action::FileStart),
        (KeyCode::End, Action::FileEnd),
        (KeyCode::Char('g'), Action::AskOffset),
        (KeyCode::Char('5'), Action::AskOffset),
        (KeyCode::F(5), Action::AskOffset),
        (KeyCode::Char('6'), Action::AskRecord),
        (KeyCode::F(6), Action::AskRecord),
        (KeyCode::Char('/'), Action::AskPattern),
        (KeyCode::Char('7'), Action::AskPattern),
        (KeyCode::F(7), Action::AskPattern),
        (KeyCode::Char('n'), Action::FindNext),
        (KeyCode::Char('8'), Action::FindNext),
        (KeyCode::F(8), Action::FindNext),
        (KeyCode::Char('r'), Action::Reread),
        (KeyCode::Char('h'), Action::Highlight),
        (KeyCode::Char('c'), Action::Nothing),
        (KeyCode::F(4), Action::Nothing),
        (KeyCode::F(11), Action::Nothing),
        (KeyCode::Enter, Action::Nothing),
        (KeyCode::Backspace, Action::Nothing),
        (KeyCode::Other, Action::Nothing),
    ];
    for (code, action) in table {
        assert_eq!(key(code).action(), action, "{code:?}");
    }
}

#[test]
fn modifiers_change_the_meaning() {
    let plain = key(KeyCode::Left);
    assert_eq!(Key { shift: true, ..plain }.action(), Action::SlideLeft);
    assert_eq!(Key { shift: true, ctrl: true, ..plain }.action(), Action::SlideLeft);
    assert_eq!(Key { ctrl: true, ..plain }.action(), Action::LineStart);
    let right = key(KeyCode::Right);
    assert_eq!(Key { shift: true, ..right }.action(), Action::SlideRight);
    assert_eq!(Key { alt: true, ..right }.action(), Action::LineEnd);
    assert_eq!(Key { sup: true, ..right }.action(), Action::LineEnd);
    let c = key(KeyCode::Char('c'));
    assert_eq!(Key { ctrl: true, ..c }.action(), Action::Quit);
    let e = key(KeyCode::Char('e'));
    assert_eq!(Key { shift: true, ..e }.action(), Action::PrevPage);
}

#[test]
fn keys_move_the_cursor() {
    let mut a = app(&count(64));
    assert_eq!(press(&mut a, KeyCode::Down), Outcome::Stay);
    press(&mut a, KeyCode::Right);
    assert_eq!((a.cur, a.top), (9, 0));
    a.on_key(Key { ctrl: true, ..key(KeyCode::Right) }).unwrap();
    assert_eq!(a.cur, 15);
    a.on_key(Key { alt: true, ..key(KeyCode::Left) }).unwrap();
    assert_eq!(a.cur, 8);
    press(&mut a, KeyCode::PageDown);
    assert_eq!((a.cur, a.top), (32, 24));
    press(&mut a, KeyCode::PageUp);
    assert_eq!((a.cur, a.top), (8, 0));
    press(&mut a, KeyCode::Left);
    press(&mut a, KeyCode::Up);
    assert_eq!(a.cur, 0);
    press(&mut a, KeyCode::End);
    assert_eq!((a.cur, a.top), (63, 32));
    press(&mut a, KeyCode::Home);
    assert_eq!((a.cur, a.top), (0, 0));
    a.on_key(Key { shift: true, ..key(KeyCode::Right) }).unwrap();
    assert_eq!((a.align, a.top), (1, 1));
    assert_eq!(press(&mut a, KeyCode::Char('q')), Outcome::Quit);
    assert_eq!(press(&mut a, KeyCode::Char('r')), Outcome::Reread);
    assert_eq!(press(&mut a, KeyCode::Other), Outcome::Stay);
}

#[test]
fn keys_change_the_mode_and_the_code_page() {
    let mut a = app(&count(64));
    press(&mut a, KeyCode::Char('1'));
    assert_eq!(a.mode, Mode::Binary);
    press(&mut a, KeyCode::Char('3'));
    assert_eq!(a.mode, Mode::Text);
    assert_eq!(a.status, "Text in ASCII — 3 again for the next code page");
    press(&mut a, KeyCode::Char('3'));
    assert!(a.enc == Encoding::Cp437);
    assert_eq!(a.status, "Encoding: CP437");
    press(&mut a, KeyCode::Char('4'));
    assert!(a.enc == Encoding::Cp866);
    press(&mut a, KeyCode::Char('E'));
    press(&mut a, KeyCode::Char('E'));
    press(&mut a, KeyCode::Char('E'));
    assert!(a.enc == Encoding::Utf8);
    press(&mut a, KeyCode::Char('2'));
    assert_eq!(a.mode, Mode::Hex);
    assert_eq!(a.status, "", "the last message is gone");
    press(&mut a, KeyCode::Char('h'));
    assert_eq!((a.highlight, a.status.as_str()), (false, "Highlight off"));
    press(&mut a, KeyCode::Char('h'));
    assert_eq!((a.highlight, a.status.as_str()), (true, "Highlight on"));
    a.bpl = 16;
    press(&mut a, KeyCode::Char('['));
    assert_eq!(a.fixed_bpl, Some(12));
    press(&mut a, KeyCode::Char('\\'));
    assert_eq!((a.fixed_bpl, a.status.as_str()), (None, "Line width: as wide as the window"));
}

#[test]
fn an_offset_is_asked_for_and_gone_to() {
    let mut a = app(&count(64));
    press(&mut a, KeyCode::Char('g'));
    assert!(matches!(a.input, Input::Goto(_)));
    type_in(&mut a, "1F");
    assert!(matches!(a.input, Input::Normal));
    assert_eq!(a.cur, 0x1F);
    press(&mut a, KeyCode::Char('5'));
    type_in(&mut a, "41");
    assert_eq!((a.cur, a.status.as_str()), (0x1F, "Offset is past the end of the file"));
    press(&mut a, KeyCode::Char('5'));
    type_in(&mut a, "40");
    assert_eq!(a.cur, 63, "the end of the file is the last byte");
    press(&mut a, KeyCode::F(5));
    type_in(&mut a, "zz");
    assert_eq!(a.status, "Not an offset: expected 1234 or 0x4D5A");
}

#[test]
fn a_prompt_can_be_edited_and_left() {
    let mut a = app(&count(64));
    press(&mut a, KeyCode::Char('/'));
    press(&mut a, KeyCode::Char('q'));
    press(&mut a, KeyCode::Char('Я'));
    press(&mut a, KeyCode::Backspace);
    press(&mut a, KeyCode::Left);
    match &a.input {
        Input::Search(s) => assert_eq!(s, "q"),
        _ => panic!("not a search"),
    }
    press(&mut a, KeyCode::Backspace);
    press(&mut a, KeyCode::Backspace);
    match &a.input {
        Input::Search(s) => assert_eq!(s, ""),
        _ => panic!("not a search"),
    }
    assert_eq!(press(&mut a, KeyCode::Esc), Outcome::Stay);
    assert!(matches!(a.input, Input::Normal));
    assert!(a.needle.is_none());
}

#[test]
fn a_pattern_is_asked_for_and_found() {
    let mut a = app(b"----REC---");
    press(&mut a, KeyCode::Char('7'));
    type_in(&mut a, "REC");
    assert_eq!((a.cur, a.status.as_str()), (4, "Found at 0x4"));
    press(&mut a, KeyCode::Char('7'));
    type_in(&mut a, "x:4");
    assert_eq!(
        a.status,
        "Bad hex: expected pairs like x:4D 5A or x:4D ?? — pick a code page with 4"
    );
    press(&mut a, KeyCode::Char('7'));
    type_in(&mut a, "");
    assert_eq!(a.status, "Pattern is empty — pick a code page with 4");
    assert_eq!(a.needle.as_ref().unwrap().src(), "REC", "the last good one stays");
    press(&mut a, KeyCode::Char('n'));
    assert_eq!((a.cur, a.status.as_str()), (4, "Wrapped to the start: 0x4"));
}

#[test]
fn lines_are_broken_at_a_pattern_and_mended_again() {
    let mut a = app(b"RECaRECbRECc");
    a.go_to(6).unwrap();
    press(&mut a, KeyCode::Char('6'));
    type_in(&mut a, "REC");
    assert_eq!(a.status, "Line = record on \"REC\" (one line each)");
    assert_eq!((a.top, a.cur), (4, 6), "the view starts with the record of the cursor");
    press(&mut a, KeyCode::Char('9'));
    press(&mut a, KeyCode::Char('6'));
    type_in(&mut a, "REC");
    assert_eq!(a.status, "Line = record on \"REC\" (wrapped)");
    press(&mut a, KeyCode::Char('6'));
    type_in(&mut a, "x:zz");
    assert_eq!(
        a.status,
        "Bad hex: expected pairs like x:4D 5A or x:4D ?? — pick a code page with 4"
    );
    press(&mut a, KeyCode::Char('6'));
    type_in(&mut a, "  ");
    assert_eq!(a.status, "Record splitting off");
    assert!(a.record.is_none());
}

// ── Drawing ─────────────────────────────────────────────────────────────────

#[test]
fn runs_merge_neighbours_of_one_style() {
    let cells: Vec<String> = ["a", "b", "c", "d", "e"].iter().map(|s| s.to_string()).collect();
    let styles = vec![Style::Plain, Style::Plain, Style::Match, Style::Cursor, Style::Plain];
    let mut out = Vec::new();
    seg(&mut out, Paint::Bar, "x");
    runs(&mut out, &cells, &styles, Paint::Text);
    assert_eq!(
        pieces(&out),
        vec![
            (Paint::Bar, "x"),
            (Paint::Text, "ab"),
            (Paint::Match, "c"),
            (Paint::Cursor, "d"),
            (Paint::Text, "e"),
        ]
    );
    seg_fill(&mut out, Paint::Data, 0);
    assert_eq!(out.len(), 5);
    seg_fill(&mut out, Paint::Data, 2);
    assert_eq!(pieces(&out)[5], (Paint::Data, "  "));
    assert_eq!(pieces(&blank(3)), vec![(Paint::Data, "   ")]);
}

#[test]
fn long_texts_are_cut() {
    assert_eq!(trim_left("/usr/share/file", 20), "/usr/share/file");
    assert_eq!(trim_left("/usr/share/file", 6), "…/file");
    assert_eq!(trim_left("/usr/share/file", 0), "…");
    assert_eq!(clip("pattern", 7), "pattern");
    assert_eq!(clip("pattern", 4), "pat…");
    assert_eq!(clip("pattern", 0), "…");
}

#[test]
fn a_small_window_is_not_measured() {
    let mut a = app(&count(64));
    assert_eq!(a.measure(23, 10), Ok(None));
    assert_eq!(a.measure(80, 2), Ok(None));
    assert_eq!((a.rows, a.bpl), (4, 8));
    a.align = 21;
    assert_eq!(a.measure(80, 24), Ok(Some(8)));
    assert_eq!((a.rows, a.bpl, a.fit_bpl, a.align), (22, 16, 16, 5));
}

#[test]
fn the_readout_says_all_there_is_to_say_of_a_byte() {
    let mut a = app("Привет".as_bytes());
    assert_eq!(a.cursor_readout(8).unwrap(), "0x00000000 D0 208 '.'");
    a.enc = Encoding::Utf8;
    assert_eq!(a.cursor_readout(8).unwrap(), "0x00000000 D0 208 'П'");
    a.cur = 3;
    assert_eq!(a.cursor_readout(12).unwrap(), "0x000000000003 80 128 '·'");
    a.cur = 99;
    assert_eq!(a.cursor_readout(8).unwrap(), "past the end         ");
    assert_eq!(app(b"").cursor_readout(8).unwrap(), "empty file           ");
    assert_eq!(app(b"\x07").cursor_readout(8).unwrap(), "0x00000000 07   7 '.'");
}

#[test]
fn a_frame_is_drawn() {
    let mut a = app(b"RECabcdefgRECabc");
    a.needle = Some(pat("REC"));
    a.cur = 4;
    let digits = a.measure(46, 5).unwrap().unwrap();
    assert_eq!((digits, a.bpl, a.rows), (8, 8, 3));
    let frame = a.draw(46, digits, 27).unwrap();
    assert_eq!(
        spelled(&frame.title),
        " … HEX  ASCII  | 0x00000004 62  98 'b' | 16 bytes |  27% "
    );
    assert_eq!(frame.lines.len(), 3);
    assert_eq!(
        pieces(&frame.lines[0]),
        vec![
            (Paint::Offset, "00000000:"),
            (Paint::Offset, " "),
            (Paint::Match, "52 45 43 "),
            (Paint::Data, "61 "),
            (Paint::Cursor, "62 "),
            (Paint::Data, "63 64 65 "),
            (Paint::Data, " "),
            (Paint::Match, "REC"),
            (Paint::Text, "a"),
            (Paint::Cursor, "b"),
            (Paint::Text, "cde"),
            (Paint::Data, "   "),
        ]
    );
    assert_eq!(spelled(&frame.lines[1]), "00000008: 66 67 52 45 43 61 62 63  fgRECabc   ");
    assert_eq!(pieces(&frame.lines[2]), vec![(Paint::Data, &*" ".repeat(46))]);
    assert_eq!(spelled(&frame.bottom), "1Bin 2Hex 3Txt 5Goto 6Rec 7Find 8Next 10Quit  ");
}

#[test]
fn a_match_is_highlighted_across_a_line_break() {
    let mut a = app(b"....needle-needle......");
    a.needle = Some(pat("needle-needle"));
    a.rows = 3;
    a.cur = 22;
    a.top = 0;
    let marked = |a: &mut App<Source>, row: u64| {
        let r = a.row_at(row).unwrap();
        let ln = a.clip(r);
        let line = a.draw_line(80, &ln, 8).unwrap();
        pieces(&line)
            .iter()
            .filter(|(paint, _)| *paint == Paint::Match)
            .map(|(_, s)| s.to_string())
            .collect::<Vec<_>>()
    };
    assert_eq!(marked(&mut a, 0), vec!["6E 65 65 64 ", "need"]);
    assert_eq!(marked(&mut a, 8), vec!["6C 65 2D 6E 65 65 64 6C ", "le-needl"]);
    assert_eq!(marked(&mut a, 16), vec!["65 ", "e"]);
    a.highlight = false;
    assert!(marked(&mut a, 0).is_empty());
}

#[test]
fn the_title_bar_keeps_the_tail_of_the_name() {
    let mut a = app(&count(20));
    a.name = "/a/very/long/way/to/data.bin".to_string();
    a.record = Some(pat("a long pattern"));
    let title = a.draw_title(100, "readout", 100);
    assert_eq!(
        spelled(&title),
        " /a/very/long/way/to/data.bin            HEX  ASCII  | a long patt… cut | readout | 20 bytes | 100% "
    );
    assert_eq!(spelled(&title).chars().count(), 100);
    a.wrap = true;
    let title = a.draw_title(80, "readout", 7);
    assert_eq!(
        spelled(&title),
        " …/way/to/data.bin  HEX  ASCII  | a long patt… wrap | readout | 20 bytes |   7% "
    );
}

#[test]
fn a_long_record_is_marked_on_both_sides() {
    let mut a = app(b"REC0123456789abcdef");
    a.record = Some(pat("REC"));
    a.highlight = false;
    a.hoff = 2;
    a.cur = 2;
    let ln = a.clip(a.row_at(0).unwrap());
    let line = a.draw_line(60, &ln, 8).unwrap();
    assert_eq!(
        spelled(&line),
        format!("00000002:‹43 30 31 32 33 34 35 36 ›C0123456{}", " ".repeat(17))
    );
    assert_eq!(pieces(&line)[1], (Paint::Trunc, "‹"));
    a.mode = Mode::Text;
    let line = a.draw_line(60, &ln, 8).unwrap();
    assert_eq!(spelled(&line), format!("00000002:‹C0123456›{}", " ".repeat(41)));
}

#[test]
fn the_bottom_bar_shows_the_prompt_the_status_or_the_keys() {
    let mut a = app(&count(20));
    a.status = "Found at 0x2".to_string();
    assert_eq!(
        pieces(&a.draw_bottom(20)),
        vec![(Paint::Bar, " Found at 0x2 "), (Paint::Bar, "      ")]
    );
    a.status.clear();
    a.mode = Mode::Text;
    a.record = Some(pat("x:05"));
    assert_eq!(
        spelled(&a.draw_bottom(10)),
        "1Bin 2Hex 3CP437 5Goto 6Rec 7Find 8Next 9Cut 10Quit "
    );
    press(&mut a, KeyCode::Char('3'));
    assert_eq!(a.enc, Encoding::Cp437, "3 leads where its slot said");
    a.status.clear();
    a.wrap = true;
    assert!(spelled(&a.draw_bottom(10)).contains("9Wrap "));
    a.input = Input::Goto("1F".to_string());
    assert_eq!(spelled(&a.draw_bottom(20)), " Go to offset: 1F_  ");
    a.input = Input::Search("x".to_string());
    a.enc = Encoding::Koi8r;
    assert_eq!(
        spelled(&a.draw_bottom(0)),
        " Search in KOI8-R (x: for hex, ?? any byte): x_"
    );
    a.input = Input::Record(String::new());
    assert_eq!(spelled(&a.draw_bottom(0)), " Line = record, pattern (empty to turn off): _");
}

#[test]
fn an_empty_file_is_drawn() {
    let mut a = app(b"");
    let digits = a.measure(40, 4).unwrap().unwrap();
    let frame = a.draw(40, digits, 100).unwrap();
    assert_eq!(frame.lines.len(), 2);
    assert_eq!(spelled(&frame.lines[0]), format!("00000000: {}", " ".repeat(30)));
    assert_eq!(spelled(&frame.lines[1]), " ".repeat(40));
}

// ── What holds of the whole ─────────────────────────────────────────────────

/// Does some line of the screen draw the byte under the cursor?
fn cursor_is_drawn(a: &App<Source>) -> bool {
    a.layout_rows(a.rows).unwrap().iter().any(|&r| {
        let ln = a.clip(r);
        ln.off <= a.cur && a.cur < ln.off + ln.len as u64
    })
}

#[test]
fn the_cursor_is_drawn_whatever_the_window_becomes() {
    let mut a = app(&count(200));
    for record in [None, Some("x:20"), Some("x:?? 40")] {
        for wrap in [false, true] {
            a.record = record.map(pat);
            a.wrap = wrap;
            a.top = 0;
            for off in [0, 199, 31, 32, 63, 64, 150] {
                for (w, h) in [(80, 24), (24, 3), (40, 5), (200, 4), (33, 9)] {
                    a.go_to(off).unwrap();
                    a.measure(w, h).unwrap();
                    assert!(cursor_is_drawn(&a), "{record:?} {wrap} {off} {w} {h}");
                }
            }
        }
    }
}

#[test]
fn every_line_ends_at_the_edge() {
    let mut a = app("Привет, мир! Long enough for several lines of any mode.".as_bytes());
    for mode in [Mode::Binary, Mode::Hex, Mode::Text] {
        for enc in Encoding::ALL {
            for w in [40u16, 46, 80, 123] {
                a.mode = mode;
                a.enc = enc;
                let digits = a.measure(w, 8).unwrap().unwrap();
                let frame = a.draw(w, digits, 0).unwrap();
                for line in &frame.lines {
                    assert_eq!(spelled(line).chars().count(), w as usize);
                }
                // A text column lines up with the bytes.
                if mode.has_text_column() {
                    let text = spelled(&frame.lines[0]);
                    let cells: Vec<char> = text.chars().collect();
                    let from = 10 + a.bpl * if mode == Mode::Hex { 3 } else { 9 } + 1;
                    if enc == Encoding::Utf8 {
                        assert_eq!(cells[from], 'П');
                    }
                }
            }
        }
    }
}

#[test]
fn neighbouring_pieces_differ_in_paint() {
    let mut a = app(b"abababababababab--ab--");
    a.needle = Some(pat("ab"));
    a.cur = 3;
    let digits = a.measure(80, 4).unwrap().unwrap();
    let frame = a.draw(80, digits, 0).unwrap();
    let paints: Vec<Paint> = frame.lines[0].iter().map(|s| s.paint).collect();
    assert_eq!(
        paints,
        vec![
            Paint::Offset,
            Paint::Offset,
            Paint::Match,
            Paint::Cursor,
            Paint::Match,
            Paint::Data,
            Paint::Match,
            Paint::Cursor,
            Paint::Match,
            Paint::Data,
        ]
    );
}

#[test]
fn the_end_of_a_long_record_comes_into_view() {
    let mut a = app(b"REC0123456789abcdefRECx");
    a.record = Some(pat("REC"));
    a.go_row_edge(true).unwrap();
    let ln = a.clip(a.row_at(a.cur).unwrap());
    assert_eq!((a.cur, a.hoff, ln.hidden), (18, 11, 0));
    a.go_row_edge(true).unwrap();
    assert_eq!(a.cur, 18, "asked again it stays");
    a.step_rows(1, true).unwrap();
    assert_eq!(a.cur, 22, "the next record is shorter");
}

#[test]
fn searching_backwards_mirrors_searching_forwards() {
    let bytes = b"AB-ABAB--AB-BA-AB";
    let w = FileWindow::open(contents(bytes), Stamp { len: bytes.len() as u64, modified: None });
    let p = pat("AB");
    let mut forward = w.find_forward(0, &p, 99).unwrap();
    forward.reverse();
    assert_eq!(w.find_backward(99, &p, 99).unwrap(), forward);
    assert_eq!(w.find_backward(99, &p, 2).unwrap(), forward[..2].to_vec());
    assert_eq!(p.find_all(bytes), vec![0, 3, 5, 9, 15]);
}

#[test]
fn the_offset_read_out_can_be_typed_back() {
    let mut a = app(&count(200));
    a.go_to(0x9C).unwrap();
    let readout = a.cursor_readout(8).unwrap();
    let offset = readout.split(' ').next().unwrap().to_string();
    a.go_to(0).unwrap();
    press(&mut a, KeyCode::Char('g'));
    type_in(&mut a, &offset);
    assert_eq!(a.cur, 0x9C);
}

#[test]
fn rows_tile_the_file_in_every_layout() {
    let bytes = b"head-RECaRECbbbbbbbbbbbbRECRECc";
    for record in [None, Some("REC")] {
        for wrap in [false, true] {
            for align in [0, 3] {
                let mut a = app(bytes);
                a.record = record.map(pat);
                a.wrap = wrap;
                a.align = align;
                let mut at = 0;
                let mut last: Option<Row> = None;
                while at < bytes.len() as u64 {
                    let r = a.row_at(at).unwrap();
                    assert_eq!(r.start, at);
                    for off in r.start..r.start + r.len {
                        assert_eq!(a.row_at(off).unwrap(), r);
                    }
                    assert_eq!(a.row_before(r).unwrap(), last);
                    if let Some(l) = last {
                        assert_eq!(a.row_after(l).unwrap(), Some(r));
                    }
                    at += r.len;
                    last = Some(r);
                }
                assert_eq!(at, bytes.len() as u64);
                let rows = a.layout_rows(99).unwrap();
                assert_eq!(rows.last(), last.as_ref());
            }
        }
    }
}

#[test]
fn shift_scrolls_sideways_without_moving_the_cursor() {
    let mut a = app(b"RECabcdefgRECabc");
    a.record = Some(pat("REC"));
    a.shift_grid(true).unwrap();
    assert_eq!((a.hoff, a.cur), (1, 0));
    let right = Key { shift: true, ..key(KeyCode::Right) };
    a.on_key(right).unwrap();
    assert_eq!((a.hoff, a.cur), (2, 0));
    // A shorter file takes the byte under the cursor away, and the scroll with it.
    a.cur = 9;
    a.reload(true, look(b"RECab", 1)).unwrap();
    assert_eq!((a.hoff, a.cur), (2, 4));
    assert!(!a.held);
    a.shift_grid(true).unwrap();
    a.toggle_wrap();
    assert_eq!((a.hoff, a.held), (0, false));
}

#[test]
fn a_view_that_starts_inside_a_record_ends_it_where_it_ends() {
    // The record pattern also matches inside the first record, overlapping it.
    let mut a = app(b"ABCABCABCA");
    a.record = Some(pat("ABCABCA"));
    a.wrap = true;
    a.bpl = 2;
    a.rows = 1;
    a.top = 2;
    a.cur = 3;
    assert_eq!(spans(&a, 9), vec![(2, 2), (4, 2), (6, 2), (8, 2)]);
    a.ensure_visible().unwrap();
    assert_eq!((a.top, a.cur), (2, 3));
    for off in [9, 3, 0, 5] {
        a.go_to(off).unwrap();
        assert!(cursor_is_drawn(&a), "{off}");
    }
}

#[test]
fn rows_tile_a_file_of_overlapping_record_starts() {
    let len = 0x10_0002u64;
    let mut a = app(&vec![b'A'; len as usize]);
    a.record = Some(pat("AA"));
    for off in [0, 1, 2, 0xF_FFFF, 0x10_0000, 0x10_0001] {
        let r = a.row_at(off).unwrap();
        assert_eq!((r.start, r.len), (off / 2 * 2, 2), "offset {off:X}");
        if let Some(next) = a.row_after(r).unwrap() {
            assert_eq!(a.row_before(next).unwrap(), Some(r));
        }
    }
    a.go_end().unwrap();
    assert_eq!((a.cur, a.top), (len - 1, len - 8));
    a.step_rows(1, false).unwrap();
    assert_eq!(a.cur, len - 3);
}

fn unreadable() -> App<Source> {
    let read: Source = Box::new(|_start, _want| Err("gone".to_string()));
    let mut a = App::new("gone.bin".to_string(), FileWindow::open(read, Stamp { len: 100, modified: None }));
    a.record = Some(pat("REC"));
    a
}

#[test]
fn keys_that_read_nothing_work_on_a_file_that_cannot_be_read() {
    let mut a = unreadable();
    for c in "1233e4E9[]\\rhZq".chars() {
        assert!(a.on_key(key(KeyCode::Char(c))).is_ok(), "{c}");
    }
    for code in [KeyCode::F(1), KeyCode::F(9), KeyCode::Esc, KeyCode::Other] {
        assert!(a.on_key(key(code)).is_ok());
    }
    a.wrap = true;
    assert!(a.on_key(Key { shift: true, ..key(KeyCode::Left) }).is_ok(), "nothing to scroll");
    assert_eq!(a.on_key(key(KeyCode::Char('n'))), Ok(Outcome::Stay));
    assert_eq!(a.status, "Nothing to search for yet (7)");
    assert_eq!(a.on_key(key(KeyCode::Down)), Err("gone".to_string()));
    for c in "g6/".chars() {
        press(&mut a, KeyCode::Char(c));
        assert!(!matches!(a.input, Input::Normal));
        press(&mut a, KeyCode::Esc);
    }
}

#[test]
fn refused_input_says_so_and_changes_nothing_else() {
    for (open, typed, status) in [
        ('g', "zz", "Not an offset: expected 1234 or 0x4D5A"),
        ('g', "65", "Offset is past the end of the file"),
        ('/', "", "Pattern is empty — pick a code page with 4"),
        ('/', "x:4", "Bad hex: expected pairs like x:4D 5A or x:4D ?? — pick a code page with 4"),
        ('6', "x:zz", "Bad hex: expected pairs like x:4D 5A or x:4D ?? — pick a code page with 4"),
        ('6', "漢", "'漢' is not in CP437 — pick a code page with 4"),
    ] {
        let mut a = unreadable();
        a.enc = Encoding::Cp437;
        (a.cur, a.top, a.hoff) = (5, 3, 1);
        press(&mut a, KeyCode::Char(open));
        type_in(&mut a, typed);
        assert_eq!(a.status, status);
        assert!(matches!(a.input, Input::Normal));
        assert_eq!((a.cur, a.top, a.hoff), (5, 3, 1));
        assert!(a.needle.is_none() && a.record.is_some());
    }
    // Nothing typed turns records off, which needs no reading either.
    let mut a = unreadable();
    press(&mut a, KeyCode::Char('6'));
    type_in(&mut a, " ");
    assert_eq!((a.status.as_str(), a.record.is_none()), ("Record splitting off", true));
}

#[test]
fn cutting_wrapped_records_again_shows_whole_lines() {
    let mut a = app(&count(40));
    a.record = Some(pat("x:26"));
    a.wrap = true;
    a.rows = 2;
    a.go_to(30).unwrap();
    assert_eq!(a.top, 16, "inside the first record");
    a.toggle_wrap();
    assert_eq!(spans(&a, 9), vec![(0, 38), (38, 2)]);
    a.settle().unwrap();
    assert_eq!(a.hoff, 23);
    assert!(cursor_is_drawn(&a));
}

#[test]
fn a_scroll_by_hand_ends_with_the_record_of_the_cursor() {
    let mut a = app(b"REC0123456789abcdefRECx");
    a.record = Some(pat("REC"));
    a.go_to(19).unwrap();
    for _ in 0..9 {
        a.shift_grid(true).unwrap();
    }
    assert_eq!((a.hoff, a.cur), (3, 19), "a short record stops it early");
    let ln = a.clip(a.row_at(a.cur).unwrap());
    assert_eq!((ln.off, ln.len), (22, 1));
    // The record gets shorter on disk.
    a.go_to(3).unwrap();
    for _ in 0..9 {
        a.shift_grid(true).unwrap();
    }
    assert_eq!(a.hoff, 12);
    a.reload(true, look(b"REC01RECxyz", 1)).unwrap();
    assert_eq!((a.hoff, a.cur), (4, 3));
    let mut a = unreadable();
    let right = Key { shift: true, ..key(KeyCode::Right) };
    assert_eq!(a.on_key(right), Err("gone".to_string()), "the record has to be looked up");
    assert_eq!(a.hoff, 0);
}

#[test]
fn overlapping_occurrences_are_marked_by_their_first_byte() {
    let mut a = app(b"AAAAAAAAAAAA");
    a.needle = Some(pat("AA"));
    let ln = a.clip(a.row_at(8).unwrap());
    let line = a.draw_line(80, &ln, 8).unwrap();
    let marked: Vec<(Paint, &str)> =
        pieces(&line).into_iter().filter(|(_, s)| s.starts_with('A')).collect();
    assert_eq!(marked, vec![(Paint::Match, "AAA"), (Paint::Text, "A    ")]);
}
