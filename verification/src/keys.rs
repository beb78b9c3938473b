//! The keyboard: what a key means, and what it does.

use crate::app::{App, Input};
use crate::model::{InputModel, Model, PatternModel};
use crate::pattern;
use crate::pattern::Pattern;
use crate::rows;
use crate::text;
use crate::view;
use crate::view::Mode;
use vstd::prelude::*;
use vstd::string::*;

verus! {

/// A key on the keyboard.
#[derive(Copy, Clone, Debug, PartialEq, Eq, Structural)]
pub enum KeyCode {
    Char(char),
    F(u8),
    Left,
    Right,
    Up,
    Down,
    PageUp,
    PageDown,
    Home,
    End,
    Enter,
    Esc,
    Backspace,
    /// A key that nothing listens to.
    Other,
}

/// A key press, with the modifiers held down.
#[derive(Copy, Clone, Debug, PartialEq, Eq, Structural)]
pub struct Key {
    pub code: KeyCode,
    pub ctrl: bool,
    pub alt: bool,
    pub shift: bool,
    /// The Windows or Cmd key.
    pub sup: bool,
}

/// What is left to do after a key.
#[derive(Copy, Clone, Debug, PartialEq, Eq, Structural)]
pub enum Outcome {
    /// Go on.
    Stay,
    /// Leave the program.
    Quit,
    /// Open the file again and see whether it changed.
    Reread,
}

/// What a key asks for outside the prompts.
#[derive(Copy, Clone, Debug, PartialEq, Eq, Structural)]
pub enum Action {
    Quit,
    Show(Mode),
    /// Text mode; once there, the next code page.
    Text,
    NextPage,
    PrevPage,
    Wrap,
    Narrower,
    Wider,
    WindowWide,
    SlideLeft,
    SlideRight,
    LineStart,
    LineEnd,
    Left,
    Right,
    Down,
    Up,
    PageDown,
    PageUp,
    FileStart,
    FileEnd,
    AskOffset,
    AskRecord,
    AskPattern,
    FindNext,
    Reread,
    Highlight,
    Nothing,
}

impl Key {
    /// What the key asks for.
    pub open spec fn wish(self) -> Action {
        // The ends of the line are on any of the three modifiers that a
        // terminal may manage to deliver.
        let far = self.sup || self.ctrl || self.alt;
        match self.code {
            KeyCode::Esc => Action::Quit,
            KeyCode::F(n) => function_wish(n),
            KeyCode::Char(c) => if c == 'c' && self.ctrl {
                Action::Quit
            } else if c == 'e' && self.shift {
                Action::PrevPage
            } else {
                char_wish(c)
            },
            KeyCode::Left => if self.shift {
                Action::SlideLeft
            } else if far {
                Action::LineStart
            } else {
                Action::Left
            },
            KeyCode::Right => if self.shift {
                Action::SlideRight
            } else if far {
                Action::LineEnd
            } else {
                Action::Right
            },
            KeyCode::Down => Action::Down,
            KeyCode::Up => Action::Up,
            KeyCode::PageDown => Action::PageDown,
            KeyCode::PageUp => Action::PageUp,
            KeyCode::Home => Action::FileStart,
            KeyCode::End => Action::FileEnd,
            _ => Action::Nothing,
        }
    }

    /// Work out what the key asks for.
    pub fn action(&self) -> (res: Action)
        ensures
            res == self.wish(),
    {
        // Cmd is what a Mac user reaches for, and Ctrl and Alt are what
        // terminals actually manage to deliver.
        let far: bool = self.sup || self.ctrl || self.alt;
        match self.code {
            KeyCode::Esc => Action::Quit,
            KeyCode::F(n) => function_action(n),
            // Terminals disagree about whether a shifted letter arrives as
            // itself, as the modifier, or as both; take any of it.
            KeyCode::Char(c) => if c == 'c' && self.ctrl {
                Action::Quit
            } else if c == 'e' && self.shift {
                Action::PrevPage
            } else {
                char_action(c)
            },
            KeyCode::Left => if self.shift {
                Action::SlideLeft
            } else if far {
                Action::LineStart
            } else {
                Action::Left
            },
            KeyCode::Right => if self.shift {
                Action::SlideRight
            } else if far {
                Action::LineEnd
            } else {
                Action::Right
            },
            KeyCode::Down => Action::Down,
            KeyCode::Up => Action::Up,
            KeyCode::PageDown => Action::PageDown,
            KeyCode::PageUp => Action::PageUp,
            KeyCode::Home => Action::FileStart,
            KeyCode::End => Action::FileEnd,
            _ => Action::Nothing,
        }
    }
}

/// What a function key asks for.
pub open spec fn function_wish(n: u8) -> Action {
    if n == 1 {
        Action::Show(Mode::Binary)
    } else if n == 2 {
        Action::Show(Mode::Hex)
    } else if n == 3 {
        Action::Text
    } else if n == 5 {
        Action::AskOffset
    } else if n == 6 {
        Action::AskRecord
    } else if n == 7 {
        Action::AskPattern
    } else if n == 8 {
        Action::FindNext
    } else if n == 9 {
        Action::Wrap
    } else if n == 10 {
        Action::Quit
    } else {
        Action::Nothing
    }
}

/// What a character asks for when no modifier changes it.
pub open spec fn char_wish(c: char) -> Action {
    if c == 'q' || c == 'Q' {
        Action::Quit
    } else if c == '1' {
        Action::Show(Mode::Binary)
    } else if c == '2' {
        Action::Show(Mode::Hex)
    } else if c == '3' {
        Action::Text
    } else if c == '4' || c == 'e' {
        Action::NextPage
    } else if c == 'E' {
        Action::PrevPage
    } else if c == '9' {
        Action::Wrap
    } else if c == '[' {
        Action::Narrower
    } else if c == ']' {
        Action::Wider
    } else if c == '\\' {
        Action::WindowWide
    } else if c == ' ' {
        Action::PageDown
    } else if c == 'g' || c == '5' {
        Action::AskOffset
    } else if c == '6' {
        Action::AskRecord
    } else if c == '/' || c == '7' {
        Action::AskPattern
    } else if c == 'n' || c == '8' {
        Action::FindNext
    } else if c == 'r' {
        Action::Reread
    } else if c == 'h' {
        Action::Highlight
    } else {
        Action::Nothing
    }
}

fn function_action(n: u8) -> (res: Action)
    ensures
        res == function_wish(n),
{
    match n {
        1 => Action::Show(Mode::Binary),
        2 => Action::Show(Mode::Hex),
        3 => Action::Text,
        5 => Action::AskOffset,
        6 => Action::AskRecord,
        7 => Action::AskPattern,
        8 => Action::FindNext,
        9 => Action::Wrap,
        10 => Action::Quit,
        _ => Action::Nothing,
    }
}

fn char_action(c: char) -> (res: Action)
    ensures
        res == char_wish(c),
{
    match c {
        'q' => Action::Quit,
        'Q' => Action::Quit,
        '1' => Action::Show(Mode::Binary),
        '2' => Action::Show(Mode::Hex),
        '3' => Action::Text,
        '4' => Action::NextPage,
        'e' => Action::NextPage,
        'E' => Action::PrevPage,
        '9' => Action::Wrap,
        '[' => Action::Narrower,
        ']' => Action::Wider,
        '\\' => Action::WindowWide,
        ' ' => Action::PageDown,
        // Every slot the bottom bar advertises answers to its own digit.
        'g' => Action::AskOffset,
        '5' => Action::AskOffset,
        '6' => Action::AskRecord,
        '/' => Action::AskPattern,
        '7' => Action::AskPattern,
        'n' => Action::FindNext,
        '8' => Action::FindNext,
        'r' => Action::Reread,
        'h' => Action::Highlight,
        _ => Action::Nothing,
    }
}

impl Action {
    /// What is left to do once the viewer has done its part.
    pub open spec fn outcome(self) -> Outcome {
        match self {
            Action::Quit => Outcome::Quit,
            Action::Reread => Outcome::Reread,
            _ => Outcome::Stay,
        }
    }

    /// Does the action look into the file, in this state? Settings and prompts
    /// never do, moving about does where rows are records, and looking for the
    /// next match does once there is something to look for.
    pub open spec fn reads(self, m: Model) -> bool {
        match self {
            Action::Quit | Action::Reread | Action::Nothing => false,
            Action::Show(_) | Action::Text | Action::NextPage | Action::PrevPage => false,
            Action::Wrap | Action::Narrower | Action::Wider | Action::WindowWide => false,
            Action::AskOffset | Action::AskRecord | Action::AskPattern => false,
            Action::Highlight => false,
            Action::SlideLeft | Action::SlideRight => m.record is Some && !m.wrap,
            Action::FindNext => m.needle is Some,
            _ => m.record is Some,
        }
    }

    /// Does the action move the cursor about?
    pub open spec fn moves(self) -> bool {
        ||| self is LineStart
        ||| self is LineEnd
        ||| self is Left
        ||| self is Right
        ||| self is Down
        ||| self is Up
        ||| self is PageDown
        ||| self is PageUp
        ||| self is FileStart
        ||| self is FileEnd
    }
}

impl Model {
    /// Is what was typed into the prompt refused? An offset has to be one, and
    /// inside the file; a pattern has to be one, and to exist in the code page.
    pub open spec fn refuses_input(self, len: int) -> bool {
        match self.input {
            InputModel::Normal => false,
            InputModel::Goto(s) => view::offset_value(s) is None || view::offset_value(s)->0 > len,
            InputModel::Search(s) => pattern::parsed(s, self.enc) is Err,
            InputModel::Record(s) => text::trimmed(s).len() > 0 && pattern::parsed(
                s,
                self.enc,
            ) is Err,
        }
    }

    /// Does putting what was typed to use look into the file?
    pub open spec fn input_reads(self, len: int) -> bool {
        match self.input {
            InputModel::Normal => false,
            InputModel::Goto(_) => self.record is Some && !self.refuses_input(len),
            InputModel::Search(_) => !self.refuses_input(len),
            InputModel::Record(s) => text::trimmed(s).len() > 0 && !self.refuses_input(len),
        }
    }

    /// Does a key look into the file?
    pub open spec fn key_reads(self, len: int, k: Key) -> bool {
        if self.input is Normal {
            k.wish().reads(self)
        } else {
            k.code is Enter && self.input_reads(len)
        }
    }

    /// How many rows a page is: a screen less the row that stays in sight.
    pub open spec fn page(self) -> int {
        if self.rows > 2 {
            self.rows - 1
        } else {
            1
        }
    }

    /// What an action makes of the state.
    pub open spec fn act(self, hay: Seq<u8>, action: Action) -> Model {
        match action {
            Action::Quit | Action::Reread | Action::Nothing => self,
            Action::Show(mode) => Model { mode, ..self },
            Action::Text => if self.mode == Mode::Text {
                self.set_encoding(self.enc.after())
            } else {
                Model {
                    mode: Mode::Text,
                    status: "Text in "@ + self.enc.name_text()
                        + " — 3 again for the next code page"@,
                    ..self
                }
            },
            Action::NextPage => self.set_encoding(self.enc.after()),
            Action::PrevPage => self.set_encoding(self.enc.before()),
            Action::Wrap => self.toggle_wrap(),
            Action::Narrower => self.resize_line(false),
            Action::Wider => self.resize_line(true),
            Action::WindowWide => Model {
                fixed_bpl: None,
                status: "Line width: as wide as the window"@,
                ..self
            },
            Action::SlideLeft => self.shift_grid(hay, false),
            Action::SlideRight => self.shift_grid(hay, true),
            Action::LineStart => self.go_row_edge(hay, false),
            Action::LineEnd => self.go_row_edge(hay, true),
            Action::Left => self.move_cursor(hay, -1),
            Action::Right => self.move_cursor(hay, 1),
            Action::Down => self.step_rows(hay, 1, true),
            Action::Up => self.step_rows(hay, 1, false),
            Action::PageDown => self.page_rows(hay, self.page(), true),
            Action::PageUp => self.page_rows(hay, self.page(), false),
            Action::FileStart => self.go_to(hay, 0),
            Action::FileEnd => self.go_end(hay),
            Action::AskOffset => Model { input: InputModel::Goto(seq![]), ..self },
            Action::AskRecord => Model { input: InputModel::Record(seq![]), ..self },
            Action::AskPattern => Model { input: InputModel::Search(seq![]), ..self },
            Action::FindNext => self.find_next(hay),
            Action::Highlight => Model {
                highlight: !self.highlight,
                status: if self.highlight {
                    "Highlight off"@
                } else {
                    "Highlight on"@
                },
                ..self
            },
        }
    }

    /// A key outside the prompts. The status line of the last one is gone.
    pub open spec fn on_key_normal(self, hay: Seq<u8>, k: Key) -> Model {
        Model { status: seq![], ..self }.act(hay, k.wish())
    }

    /// A key inside a prompt: it edits what was typed, commits it or drops it.
    pub open spec fn on_key_prompt(self, hay: Seq<u8>, k: Key) -> Model {
        match k.code {
            KeyCode::Char(c) => Model { input: self.input.typed(c), ..self },
            KeyCode::Backspace => Model { input: self.input.untyped(), ..self },
            KeyCode::Enter => Model { input: InputModel::Normal, ..self }.commit(hay, self.input),
            KeyCode::Esc => Model { input: InputModel::Normal, ..self },
            _ => self,
        }
    }

    /// What was typed into a prompt put to use.
    pub open spec fn commit(self, hay: Seq<u8>, input: InputModel) -> Model {
        match input {
            InputModel::Normal => self,
            InputModel::Goto(s) => self.commit_offset(hay, s),
            InputModel::Search(s) => self.commit_search(hay, s),
            InputModel::Record(s) => self.commit_record(hay, s),
        }
    }

    /// Go to the offset that was typed.
    pub open spec fn commit_offset(self, hay: Seq<u8>, s: Seq<char>) -> Model {
        match view::offset_value(s) {
            Some(off) => if off <= hay.len() {
                self.go_to(hay, off)
            } else {
                Model { status: "Offset is past the end of the file"@, ..self }
            },
            None => Model { status: "Not an offset: expected 1234 or 0x4D5A"@, ..self },
        }
    }

    /// Search for the pattern that was typed, from the cursor on.
    pub open spec fn commit_search(self, hay: Seq<u8>, s: Seq<char>) -> Model {
        match pattern::parsed(s, self.enc) {
            Ok(items) => Model {
                needle: Some(PatternModel { items, text: s }),
                ..self
            }.run_search(hay, self.cur),
            Err(e) => Model { status: e.message_text() + " — pick a code page with 4"@, ..self },
        }
    }

    /// Break lines at every occurrence of the pattern that was typed, or stop
    /// doing so when nothing was.
    pub open spec fn commit_record(self, hay: Seq<u8>, s: Seq<char>) -> Model {
        if text::trimmed(s).len() == 0 {
            Model {
                record: None,
                hoff: 0,
                status: "Record splitting off"@,
                ..self
            }.ensure_visible(hay)
        } else {
            match pattern::parsed(s, self.enc) {
                Ok(items) => Model {
                    record: Some(PatternModel { items, text: s }),
                    hoff: 0,
                    // Snap to the nearest record, otherwise the first line
                    // would start in the middle of the previous one.
                    top: rows::record_start(items, hay, self.cur),
                    status: "Line = record on \""@ + s + if self.wrap {
                        "\" (wrapped)"@
                    } else {
                        "\" (one line each)"@
                    },
                    ..self
                }.ensure_visible(hay),
                Err(e) => Model {
                    status: e.message_text() + " — pick a code page with 4"@,
                    ..self
                },
            }
        }
    }

    /// Input that is refused goes, and the status line says why.
    pub proof fn lemma_refused(self, hay: Seq<u8>)
        requires
            self.refuses_input(hay.len() as int),
        ensures
            ({
                let asked = Model { input: InputModel::Normal, ..self };
                let r = asked.commit(hay, self.input);
                &&& r.status.len() > 0
                &&& r == Model { status: r.status, ..asked }
            }),
    {
        reveal_strlit("Offset is past the end of the file");
        reveal_strlit("Not an offset: expected 1234 or 0x4D5A");
        reveal_strlit(" — pick a code page with 4");
    }

    /// A key press.
    pub open spec fn on_key(self, hay: Seq<u8>, k: Key) -> Model {
        if self.input is Normal {
            self.on_key_normal(hay, k)
        } else {
            self.on_key_prompt(hay, k)
        }
    }
}

impl InputModel {
    /// The prompt with a character typed into it.
    pub open spec fn typed(self, c: char) -> InputModel {
        match self {
            InputModel::Normal => InputModel::Normal,
            InputModel::Goto(s) => InputModel::Goto(s.push(c)),
            InputModel::Search(s) => InputModel::Search(s.push(c)),
            InputModel::Record(s) => InputModel::Record(s.push(c)),
        }
    }

    /// The prompt with its last character taken back.
    pub open spec fn untyped(self) -> InputModel {
        match self {
            InputModel::Normal => InputModel::Normal,
            InputModel::Goto(s) => InputModel::Goto(shortened(s)),
            InputModel::Search(s) => InputModel::Search(shortened(s)),
            InputModel::Record(s) => InputModel::Record(shortened(s)),
        }
    }
}

/// A text without its last character, if it has one.
pub open spec fn shortened(s: Seq<char>) -> Seq<char> {
    if s.len() > 0 {
        s.drop_last()
    } else {
        s
    }
}

impl<E, F: Fn(u64, u64) -> Result<Vec<u8>, E>> App<F> {
    /// A file that is shown is seen, whatever the rows are made of.
    pub proof fn lemma_shown(&self)
        ensures
            forall|hay: Seq<u8>| #[trigger] self.reader.shows(hay) ==> self.sees(hay),
    {
        assert forall|hay: Seq<u8>| #[trigger] self.reader.shows(hay) implies self.sees(hay) by {
            self.reader.lemma_shows(hay);
        }
    }

    /// React to a key press, and say what is left to do.
    pub fn on_key(&mut self, k: Key) -> (res: Result<Outcome, E>)
        requires
            old(self).well_formed(),
        ensures
            final(self).well_formed(),
            final(self).reader == old(self).reader,
            final(self).name == old(self).name,
            res matches Ok(o) ==> o == if old(self).input is Normal {
                k.wish().outcome()
            } else {
                Outcome::Stay
            },
            forall|hay: Seq<u8>| #[trigger]
                old(self).reader.shows(hay) ==> (res is Ok ==> final(self).model()
                    == old(self).model().on_key(hay, k)),
            !old(self).model().key_reads(old(self).reader.size(), k) ==> res is Ok && forall|
                hay: Seq<u8>,
            |
                hay.len() == old(self).reader.size() ==> final(self).model()
                    == #[trigger] old(self).model().on_key(hay, k),
            k.code is Enter && old(self).model().refuses_input(old(self).reader.size()) ==> res is Ok
                && final(self).status@.len() > 0 && final(self).model() == (Model {
                input: InputModel::Normal,
                status: final(self).status@,
                ..old(self).model()
            }),
            res matches Err(e) ==> old(self).reader.fails_with(e),
    {
        match self.input {
            Input::Normal => self.on_key_normal(k),
            _ => match self.on_key_prompt(k) {
                Ok(()) => Ok(Outcome::Stay),
                Err(e) => Err(e),
            },
        }
    }

    /// React to a key press outside the prompts.
    pub fn on_key_normal(&mut self, k: Key) -> (res: Result<Outcome, E>)
        requires
            old(self).well_formed(),
        ensures
            final(self).well_formed(),
            final(self).reader == old(self).reader,
            final(self).name == old(self).name,
            res matches Ok(o) ==> o == k.wish().outcome(),
            forall|hay: Seq<u8>| #[trigger]
                old(self).reader.shows(hay) ==> (res is Ok ==> final(self).model()
                    == old(self).model().on_key_normal(hay, k)),
            !k.wish().reads(old(self).model()) ==> res is Ok && forall|hay: Seq<u8>|
                hay.len() == old(self).reader.size() ==> final(self).model()
                    == #[trigger] old(self).model().on_key_normal(hay, k),
            res matches Err(e) ==> old(self).reader.fails_with(e),
    {
        self.status.clear();
        proof {
            assert(self.model() =~= (Model { status: seq![], ..old(self).model() }));
            self.lemma_shown();
        }
        let ghost cleared = *self;
        let action: Action = k.action();
        match action {
            Action::Quit => return Ok(Outcome::Quit),
            Action::Reread => return Ok(Outcome::Reread),
            Action::SlideLeft => self.shift_grid(false)?,
            Action::SlideRight => self.shift_grid(true)?,
            Action::LineStart | Action::LineEnd | Action::Left | Action::Right | Action::Down
            | Action::Up | Action::PageDown | Action::PageUp | Action::FileStart
            | Action::FileEnd => self.travel(action)?,
            Action::FindNext => self.find_next()?,
            _ => self.set_up(action),
        }
        proof {
            if !action.reads(old(self).model()) {
                assert forall|hay: Seq<u8>| hay.len() == old(self).reader.size() implies self.model()
                    == #[trigger] old(self).model().on_key_normal(hay, k) by {
                    let done = cleared.model().act(hay, action);
                    if action is SlideLeft {
                        assert(done == cleared.model().shift_grid(hay, false));
                    } else if action is SlideRight {
                        assert(done == cleared.model().shift_grid(hay, true));
                    } else if action.moves() {
                        assert(cleared.sees(hay));
                    }
                }
            }
        }
        Ok(Outcome::Stay)
    }

    /// Move the cursor about.
    fn travel(&mut self, action: Action) -> (res: Result<(), E>)
        requires
            old(self).well_formed(),
            action.moves(),
        ensures
            final(self).same_file(old(self)),
            final(self).well_formed(),
            forall|hay: Seq<u8>| #[trigger]
                old(self).sees(hay) ==> (res is Ok ==> final(self).model() == old(self).model().act(
                    hay,
                    action,
                )),
            old(self).record is None ==> res is Ok,
            res matches Err(e) ==> old(self).reader.fails_with(e),
    {
        let page: usize = if self.rows > 2 {
            self.rows - 1
        } else {
            1
        };
        match action {
            Action::LineStart => self.go_row_edge(false),
            Action::LineEnd => self.go_row_edge(true),
            Action::Left => self.move_cursor(-1),
            Action::Right => self.move_cursor(1),
            Action::Down => self.step_rows(1, true),
            Action::Up => self.step_rows(1, false),
            Action::PageDown => self.page_rows(page, true),
            Action::PageUp => self.page_rows(page, false),
            Action::FileStart => self.go_to(0),
            Action::FileEnd => self.go_end(),
            _ => Ok(()),
        }
    }

    /// Change a setting or open a prompt.
    fn set_up(&mut self, action: Action)
        requires
            old(self).well_formed(),
            !action.moves(),
            !(action is SlideLeft),
            !(action is SlideRight),
            !(action is FindNext),
        ensures
            final(self).reader == old(self).reader,
            final(self).name == old(self).name,
            final(self).well_formed(),
            forall|hay: Seq<u8>|
                final(self).model() == #[trigger] old(self).model().act(hay, action),
    {
        match action {
            Action::Show(mode) => {
                self.mode = mode;
            },
            // Text mode is also the code page key: the first press gets you
            // there, every press after that steps to the next page.
            Action::Text => if self.mode == Mode::Text {
                self.set_encoding(self.enc.next());
            } else {
                self.mode = Mode::Text;
                let mut status = "Text in ".to_string();
                status.append(self.enc.name());
                status.append(" — 3 again for the next code page");
                self.status = status;
            },
            Action::NextPage => self.set_encoding(self.enc.next()),
            Action::PrevPage => self.set_encoding(self.enc.prev()),
            Action::Wrap => self.toggle_wrap(),
            Action::Narrower => self.resize_line(false),
            Action::Wider => self.resize_line(true),
            Action::WindowWide => {
                self.fixed_bpl = None;
                self.status = "Line width: as wide as the window".to_string();
            },
            Action::AskOffset => {
                self.input = Input::Goto(String::new());
            },
            Action::AskRecord => {
                self.input = Input::Record(String::new());
            },
            Action::AskPattern => {
                self.input = Input::Search(String::new());
            },
            Action::Highlight => {
                self.highlight = !self.highlight;
                self.status = if self.highlight {
                    "Highlight on".to_string()
                } else {
                    "Highlight off".to_string()
                };
            },
            _ => {},
        }
    }

    /// React to a key press inside a prompt.
    pub fn on_key_prompt(&mut self, k: Key) -> (res: Result<(), E>)
        requires
            old(self).well_formed(),
        ensures
            final(self).well_formed(),
            final(self).reader == old(self).reader,
            final(self).name == old(self).name,
            !(k.code is Enter) || !old(self).model().input_reads(old(self).reader.size()) ==> res is Ok
                && forall|hay: Seq<u8>|
                hay.len() == old(self).reader.size() ==> final(self).model()
                    == #[trigger] old(self).model().on_key_prompt(hay, k),
            k.code is Enter && old(self).model().refuses_input(old(self).reader.size()) ==> res is Ok
                && final(self).status@.len() > 0 && final(self).model() == (Model {
                input: InputModel::Normal,
                status: final(self).status@,
                ..old(self).model()
            }),
            forall|hay: Seq<u8>| #[trigger]
                old(self).reader.shows(hay) ==> (res is Ok ==> final(self).model()
                    == old(self).model().on_key_prompt(hay, k)),
            res matches Err(e) ==> old(self).reader.fails_with(e),
    {
        match k.code {
            KeyCode::Char(c) => {
                self.input.push(c);
                Ok(())
            },
            KeyCode::Backspace => {
                self.input.pop();
                Ok(())
            },
            KeyCode::Enter => {
                let mut input = Input::Normal;
                std::mem::swap(&mut input, &mut self.input);
                proof {
                    let asked = Model { input: InputModel::Normal, ..old(self).model() };
                    assert(self.model() =~= asked);
                    let len = old(self).reader.size();
                    self.reader.lemma_size();
                    let hay = Seq::new(len as nat, |i: int| 0u8);
                    assert(asked.commit(hay, old(self).model().input) == old(
                        self,
                    ).model().on_key_prompt(hay, k));
                    if old(self).model().refuses_input(len) {
                        old(self).model().lemma_refused(hay);
                    }
                }
                match input {
                    Input::Goto(buf) => self.commit_offset(buf),
                    Input::Search(buf) => self.commit_search(buf),
                    Input::Record(buf) => self.commit_record(buf),
                    Input::Normal => Ok(()),
                }
            },
            KeyCode::Esc => {
                self.input = Input::Normal;
                Ok(())
            },
            _ => Ok(()),
        }
    }

    /// Go to the offset that was typed.
    fn commit_offset(&mut self, buf: String) -> (res: Result<(), E>)
        requires
            old(self).well_formed(),
        ensures
            final(self).well_formed(),
            final(self).reader == old(self).reader,
            final(self).name == old(self).name,
            forall|hay: Seq<u8>| #[trigger]
                old(self).reader.shows(hay) ==> (res is Ok ==> final(self).model()
                    == old(self).model().commit_offset(hay, buf@)),
            old(self).record is None || view::offset_value(buf@) is None || view::offset_value(buf@)->0
                > old(self).reader.size() ==> res is Ok && forall|hay: Seq<u8>|
                hay.len() == old(self).reader.size() ==> final(self).model()
                    == #[trigger] old(self).model().commit_offset(hay, buf@),
            res matches Err(e) ==> old(self).reader.fails_with(e),
    {
        proof {
            self.lemma_shown();
        }
        match view::parse_offset(buf.as_str()) {
            Some(off) => if off <= self.reader.len() {
                self.go_to(off)?;
                proof {
                    assert forall|hay: Seq<u8>|
                        hay.len() == old(self).reader.size() && old(self).record is None implies
                        self.model() == #[trigger] old(self).model().commit_offset(hay, buf@) by {
                        assert(old(self).sees(hay));
                    }
                }
                Ok(())
            } else {
                self.status = "Offset is past the end of the file".to_string();
                Ok(())
            },
            None => {
                self.status = "Not an offset: expected 1234 or 0x4D5A".to_string();
                Ok(())
            },
        }
    }

    /// Search for the pattern that was typed, from the cursor on.
    fn commit_search(&mut self, buf: String) -> (res: Result<(), E>)
        requires
            old(self).well_formed(),
        ensures
            final(self).well_formed(),
            final(self).reader == old(self).reader,
            final(self).name == old(self).name,
            forall|hay: Seq<u8>| #[trigger]
                old(self).reader.shows(hay) ==> (res is Ok ==> final(self).model()
                    == old(self).model().commit_search(hay, buf@)),
            pattern::parsed(buf@, old(self).enc) is Err ==> res is Ok && forall|hay: Seq<u8>|
                final(self).model() == #[trigger] old(self).model().commit_search(hay, buf@),
            res matches Err(e) ==> old(self).reader.fails_with(e),
    {
        match Pattern::parse(buf.as_str(), self.enc) {
            Ok(pat) => {
                self.needle = Some(pat);
                self.run_search(self.cur)
            },
            Err(e) => {
                self.status = pick_a_page(&e);
                Ok(())
            },
        }
    }

    /// Break lines at every occurrence of the pattern that was typed, or stop
    /// doing so when nothing was.
    fn commit_record(&mut self, buf: String) -> (res: Result<(), E>)
        requires
            old(self).well_formed(),
        ensures
            final(self).well_formed(),
            final(self).reader == old(self).reader,
            final(self).name == old(self).name,
            forall|hay: Seq<u8>| #[trigger]
                old(self).reader.shows(hay) ==> (res is Ok ==> final(self).model()
                    == old(self).model().commit_record(hay, buf@)),
            text::trimmed(buf@).len() == 0 || pattern::parsed(buf@, old(self).enc) is Err ==> res is Ok
                && forall|hay: Seq<u8>|
                hay.len() == old(self).reader.size() ==> final(self).model()
                    == #[trigger] old(self).model().commit_record(hay, buf@),
            res matches Err(e) ==> old(self).reader.fails_with(e),
    {
        let chars = text::chars_of(buf.as_str());
        if text::trim(&chars).len() == 0 {
            self.record = None;
            self.hoff = 0;
            self.status = "Record splitting off".to_string();
            let ghost off = *self;
            proof {
                self.lemma_shown();
            }
            self.ensure_visible()?;
            proof {
                assert forall|hay: Seq<u8>| hay.len() == old(self).reader.size() implies self.model()
                    == #[trigger] old(self).model().commit_record(hay, buf@) by {
                    assert(off.sees(hay));
                }
            }
            return Ok(());
        }
        match Pattern::parse(buf.as_str(), self.enc) {
            Ok(pat) => {
                let mut status = "Line = record on \"".to_string();
                status.append(pat.src());
                status.append(
                    if self.wrap {
                        "\" (wrapped)"
                    } else {
                        "\" (one line each)"
                    },
                );
                self.status = status;
                self.record = Some(pat);
                self.hoff = 0;
                proof {
                    self.lemma_shown();
                }
                // Snap to the nearest record, otherwise the first line would
                // start in the middle of the previous one.
                let rec: u64 = self.record_start(self.cur)?;
                self.top = rec;
                proof {
                    self.lemma_shown();
                }
                self.ensure_visible()
            },
            Err(e) => {
                self.status = pick_a_page(&e);
                Ok(())
            },
        }
    }
}

/// Why a pattern did not parse, and a way out.
fn pick_a_page(e: &pattern::PatternError) -> (res: String)
    ensures
        res@ == e.message_text() + " — pick a code page with 4"@,
{
    let mut out = e.message();
    out.append(" — pick a code page with 4");
    out
}

impl Input {
    /// Type a character.
    fn push(&mut self, c: char)
        ensures
            final(self).model() == old(self).model().typed(c),
    {
        match self {
            Input::Goto(buf) => buf.push(c),
            Input::Search(buf) => buf.push(c),
            Input::Record(buf) => buf.push(c),
            Input::Normal => {},
        }
    }

    /// Take the last character back.
    fn pop(&mut self)
        ensures
            final(self).model() == old(self).model().untyped(),
    {
        match self {
            Input::Goto(buf) => {
                buf.pop();
            },
            Input::Search(buf) => {
                buf.pop();
            },
            Input::Record(buf) => {
                buf.pop();
            },
            Input::Normal => {},
        }
    }
}

} // verus!
