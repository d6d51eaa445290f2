//! The state of the interface and its reaction to keys.
use crate::text;
use crate::text::to_chars;
use crate::text::to_text;
use crate::text::trim;
use crate::text_facts;
use vstd::prelude::*;
use vstd::slice::slice_subrange;

verus! {

/// What keys mean at the moment.
#[derive(Debug, Clone, Copy, PartialEq, Eq, Structural)]
pub enum Mode {
    /// Keys are commands to the interface.
    Normal,
    /// Keys go to the command line.
    Editing,
}

/// A key.
#[derive(Debug, Clone, Copy, PartialEq, Eq, Structural)]
pub enum Key {
    Char(char),
    Up,
    Down,
    Left,
    Right,
    PageUp,
    PageDown,
    Esc,
    Backspace,
    Enter,
    Other,
}

/// What the terminal reports.
#[derive(Debug, Clone, Copy, PartialEq, Eq, Structural)]
pub enum Input {
    /// A key was pressed.
    Press(Key),
    /// Anything else: a key was let go, the mouse was moved.
    Other,
}

/// What the log view is told.
#[derive(Debug, Clone, Copy, PartialEq, Eq, Structural)]
pub enum LoggerEvent {
    UpKey,
    DownKey,
    LeftKey,
    RightKey,
    PlusKey,
    MinusKey,
    SpaceKey,
    HideKey,
    FocusKey,
    PrevPageKey,
    NextPageKey,
    EscapeKey,
}

/// What is to be done after a key.
#[derive(Debug, PartialEq, Eq)]
pub enum Reaction {
    /// Nothing.
    Nothing,
    /// End the interface.
    Quit,
    /// Tell the log view.
    Logger(LoggerEvent),
    /// Log that a command was entered which is not known.
    UnknownCommand(String),
}

/// What a [`Reaction`] holds.
#[verifier::ext_equal]
pub enum ReactionView {
    Nothing,
    Quit,
    Logger(LoggerEvent),
    UnknownCommand(Seq<char>),
}

impl View for Reaction {
    type V = ReactionView;

    open spec fn view(&self) -> ReactionView {
        match self {
            Reaction::Nothing => ReactionView::Nothing,
            Reaction::Quit => ReactionView::Quit,
            Reaction::Logger(e) => ReactionView::Logger(*e),
            Reaction::UnknownCommand(s) => ReactionView::UnknownCommand(s@),
        }
    }
}

/// The state of the interface.
#[derive(Debug, PartialEq, Eq)]
pub struct App {
    pub mode: Mode,
    pub input: String,
}

/// What an [`App`] holds.
#[verifier::ext_equal]
pub struct AppView {
    pub mode: Mode,
    pub input: Seq<char>,
}

impl View for App {
    type V = AppView;

    open spec fn view(&self) -> AppView {
        AppView { mode: self.mode, input: self.input@ }
    }
}

/// What a key tells the log view in normal mode.
pub open spec fn logger_event(key: Key) -> Option<LoggerEvent> {
    match key {
        Key::Up => Some(LoggerEvent::UpKey),
        Key::Down => Some(LoggerEvent::DownKey),
        Key::Left => Some(LoggerEvent::LeftKey),
        Key::Right => Some(LoggerEvent::RightKey),
        Key::PageUp => Some(LoggerEvent::PrevPageKey),
        Key::PageDown => Some(LoggerEvent::NextPageKey),
        Key::Esc => Some(LoggerEvent::EscapeKey),
        Key::Char(c) => if c == '+' {
            Some(LoggerEvent::PlusKey)
        } else if c == '-' {
            Some(LoggerEvent::MinusKey)
        } else if c == ' ' {
            Some(LoggerEvent::SpaceKey)
        } else if c == 'h' {
            Some(LoggerEvent::HideKey)
        } else if c == 'f' {
            Some(LoggerEvent::FocusKey)
        } else {
            None
        },
        _ => None,
    }
}

/// The interface after a key in normal mode, and the reaction.
pub open spec fn after_normal(app: AppView, key: Key) -> (AppView, ReactionView) {
    match key {
        Key::Char(c) if c == 'q' || c == 'Q' => (app, ReactionView::Quit),
        Key::Char(c) if c == 'e' => (
            AppView { mode: Mode::Editing, ..app },
            ReactionView::Nothing,
        ),
        _ => (
            app,
            match logger_event(key) {
                Some(e) => ReactionView::Logger(e),
                None => ReactionView::Nothing,
            },
        ),
    }
}

/// The interface with an empty command line in normal mode.
pub open spec fn left_editing() -> AppView {
    AppView { mode: Mode::Normal, input: seq![] }
}

/// The interface after a key in editing mode, and the reaction.
pub open spec fn after_editing(app: AppView, key: Key) -> (AppView, ReactionView) {
    match key {
        Key::Esc => (left_editing(), ReactionView::Nothing),
        Key::Char(c) => (
            AppView { input: app.input.push(c), ..app },
            ReactionView::Nothing,
        ),
        Key::Backspace => (
            AppView {
                input: if app.input.len() > 0 {
                    app.input.drop_last()
                } else {
                    app.input
                },
                ..app
            },
            ReactionView::Nothing,
        ),
        Key::Enter => (
            left_editing(),
            if text::trimmed(app.input).len() > 0 {
                ReactionView::UnknownCommand(text::trimmed(app.input))
            } else {
                ReactionView::Nothing
            },
        ),
        _ => (app, ReactionView::Nothing),
    }
}

/// The interface after an input, and the reaction.
pub open spec fn after_input(app: AppView, input: Input) -> (AppView, ReactionView) {
    match input {
        Input::Other => (app, ReactionView::Nothing),
        Input::Press(key) => match app.mode {
            Mode::Normal => after_normal(app, key),
            Mode::Editing => after_editing(app, key),
        },
    }
}

impl App {
    /// The interface at its start.
    pub fn new() -> (r: Self)
        ensures
            r@ == left_editing(),
    {
        let r = App { mode: Mode::Normal, input: String::new() };
        assert(r@ =~= left_editing());
        r
    }

    /// Handles a key in normal mode.
    fn handle_normal(&mut self, key: Key) -> (r: Reaction)
        ensures
            (final(self)@, r@) == after_normal(old(self)@, key),
    {
        match key {
            Key::Char(c) => {
                if c == 'q' || c == 'Q' {
                    Reaction::Quit
                } else if c == 'e' {
                    self.mode = Mode::Editing;
                    Reaction::Nothing
                } else if c == '+' {
                    Reaction::Logger(LoggerEvent::PlusKey)
                } else if c == '-' {
                    Reaction::Logger(LoggerEvent::MinusKey)
                } else if c == ' ' {
                    Reaction::Logger(LoggerEvent::SpaceKey)
                } else if c == 'h' {
                    Reaction::Logger(LoggerEvent::HideKey)
                } else if c == 'f' {
                    Reaction::Logger(LoggerEvent::FocusKey)
                } else {
                    Reaction::Nothing
                }
            },
            Key::Up => Reaction::Logger(LoggerEvent::UpKey),
            Key::Down => Reaction::Logger(LoggerEvent::DownKey),
            Key::Left => Reaction::Logger(LoggerEvent::LeftKey),
            Key::Right => Reaction::Logger(LoggerEvent::RightKey),
            Key::PageUp => Reaction::Logger(LoggerEvent::PrevPageKey),
            Key::PageDown => Reaction::Logger(LoggerEvent::NextPageKey),
            Key::Esc => Reaction::Logger(LoggerEvent::EscapeKey),
            _ => Reaction::Nothing,
        }
    }

    /// Empties the command line and goes to normal mode.
    fn leave_editing(&mut self)
        ensures
            final(self)@ == left_editing(),
    {
        self.input = String::new();
        self.mode = Mode::Normal;
        assert(self@ =~= left_editing());
    }

    /// Handles a key in editing mode.
    fn handle_editing(&mut self, key: Key) -> (r: Reaction)
        ensures
            (final(self)@, r@) == after_editing(old(self)@, key),
    {
        match key {
            Key::Esc => {
                self.leave_editing();
                Reaction::Nothing
            },
            Key::Char(c) => {
                self.input.push(c);
                Reaction::Nothing
            },
            Key::Backspace => {
                let chars = to_chars(self.input.as_str());
                let n: usize = chars.len();
                if n > 0 {
                    let rest = slice_subrange(chars.as_slice(), 0, n - 1);
                    assert(rest@ =~= self@.input.drop_last());
                    self.input = to_text(rest);
                }
                Reaction::Nothing
            },
            Key::Enter => {
                let chars = to_chars(self.input.as_str());
                let command = trim(chars.as_slice());
                let reaction = if command.len() > 0 {
                    Reaction::UnknownCommand(to_text(command))
                } else {
                    Reaction::Nothing
                };
                self.leave_editing();
                reaction
            },
            _ => Reaction::Nothing,
        }
    }

    /// Handles what the terminal reports.
    pub fn handle_key(&mut self, input: Input) -> (r: Reaction)
        ensures
            (final(self)@, r@) == after_input(old(self)@, input),
    {
        match input {
            Input::Other => Reaction::Nothing,
            Input::Press(key) => match self.mode {
                Mode::Normal => self.handle_normal(key),
                Mode::Editing => self.handle_editing(key),
            },
        }
    }
}

// ── Laws ─────────────────────────────────────────────────────────────────────

/// The interface is left by a key only in normal mode, and only by `q` or `Q`.
pub proof fn only_q_quits(app: AppView, input: Input)
    ensures
        after_input(app, input).1 == ReactionView::Quit <==> app.mode == Mode::Normal && (input
            == Input::Press(Key::Char('q')) || input == Input::Press(Key::Char('Q'))),
{
}

/// Outside editing mode nothing is typed: an empty command line in normal mode stays empty as long
/// as the mode is normal, and every way out of editing mode empties it.
pub proof fn normal_mode_has_no_input(app: AppView, input: Input)
    requires
        app.mode == Mode::Normal ==> app.input.len() == 0,
    ensures
        after_input(app, input).0.mode == Mode::Normal ==> after_input(app, input).0.input.len()
            == 0,
{
}

/// A typed character is taken back by backspace.
pub proof fn backspace_takes_back(app: AppView, c: char)
    requires
        app.mode == Mode::Editing,
    ensures
        after_input(
            after_input(app, Input::Press(Key::Char(c))).0,
            Input::Press(Key::Backspace),
        ).0 == app,
{
    assert(app.input.push(c).drop_last() =~= app.input);
}

/// The interface starts in normal mode, with nothing typed.
pub proof fn the_interface_starts_empty(r: App)
    requires
        call_ensures(App::new, (), r),
    ensures
        r.mode == Mode::Normal,
        r.input@.len() == 0,
{
}

/// In normal mode a key never changes the command line; `e` starts editing and no other key does.
/// The keys of the log view are handed on, and what is no key of the interface does nothing.
pub proof fn keys_are_commands_in_normal_mode(app: &mut App, input: Input, r: Reaction)
    requires
        old(app).mode == Mode::Normal,
        call_ensures(App::handle_key, (app, input), r),
    ensures
        final(app).input@ == old(app).input@,
        final(app).mode == Mode::Editing <==> input == Input::Press(Key::Char('e')),
        input == Input::Press(Key::Up) <==> r@ == ReactionView::Logger(LoggerEvent::UpKey),
        input == Input::Press(Key::Down) <==> r@ == ReactionView::Logger(LoggerEvent::DownKey),
        input == Input::Press(Key::Left) <==> r@ == ReactionView::Logger(LoggerEvent::LeftKey),
        input == Input::Press(Key::Right) <==> r@ == ReactionView::Logger(LoggerEvent::RightKey),
        input == Input::Press(Key::PageUp) <==> r@ == ReactionView::Logger(
            LoggerEvent::PrevPageKey,
        ),
        input == Input::Press(Key::PageDown) <==> r@ == ReactionView::Logger(
            LoggerEvent::NextPageKey,
        ),
        input == Input::Press(Key::Esc) <==> r@ == ReactionView::Logger(LoggerEvent::EscapeKey),
        input == Input::Press(Key::Char('+')) <==> r@ == ReactionView::Logger(LoggerEvent::PlusKey),
        input == Input::Press(Key::Char('-')) <==> r@ == ReactionView::Logger(
            LoggerEvent::MinusKey,
        ),
        input == Input::Press(Key::Char(' ')) <==> r@ == ReactionView::Logger(
            LoggerEvent::SpaceKey,
        ),
        input == Input::Press(Key::Char('h')) <==> r@ == ReactionView::Logger(LoggerEvent::HideKey),
        input == Input::Press(Key::Char('f')) <==> r@ == ReactionView::Logger(
            LoggerEvent::FocusKey,
        ),
        input == Input::Press(Key::Char('q')) || input == Input::Press(Key::Char('Q')) <==> r@
            == ReactionView::Quit,
        !(r@ is UnknownCommand),
{
}

/// In editing mode a character is put behind what was typed, backspace takes the last one off,
/// escape and enter empty the line and end editing, and everything else does nothing. Enter hands
/// out what was typed without the white space around it, unless nothing else was typed.
pub proof fn keys_are_typed_in_editing_mode(app: &mut App, input: Input, r: Reaction)
    requires
        old(app).mode == Mode::Editing,
        call_ensures(App::handle_key, (app, input), r),
    ensures
        ({
            let typed = old(app).input@;
            let line = final(app).input@;
            match input {
                Input::Press(Key::Char(c)) => line == typed + seq![c],
                Input::Press(Key::Backspace) => if typed.len() > 0 {
                    line + seq![typed.last()] == typed
                } else {
                    line.len() == 0
                },
                Input::Press(Key::Esc) | Input::Press(Key::Enter) => line.len() == 0,
                _ => line == typed,
            }
        }),
        final(app).mode == Mode::Normal <==> input == Input::Press(Key::Esc) || input
            == Input::Press(Key::Enter),
        r@ matches ReactionView::UnknownCommand(command) ==> {
            &&& input == Input::Press(Key::Enter)
            &&& is_core(command, old(app).input@)
        },
        !(r@ is UnknownCommand) ==> r@ is Nothing,
        input == Input::Press(Key::Enter) && r@ is Nothing ==> forall|i: int|
            0 <= i < old(app).input@.len() ==> text::is_space(#[trigger] old(app).input@[i]),
{
    let typed = old(app).input@;
    if input == Input::Press(Key::Enter) {
        let (lo, hi) = text_facts::lemma_trimmed(typed);
        let core = text::trimmed(typed);
        assert(core == typed.subrange(lo, hi));
    }
    if input == Input::Press(Key::Backspace) && typed.len() > 0 {
        assert(typed.drop_last() + seq![typed.last()] =~= typed);
    }
    if let Input::Press(Key::Char(c)) = input {
        assert(typed.push(c) =~= typed + seq![c]);
    }
}

/// `core` is what stands between white space in `s`, and is not blank at its ends.
pub open spec fn is_core(core: Seq<char>, s: Seq<char>) -> bool {
    &&& core.len() > 0
    &&& !text::is_space(core[0])
    &&& !text::is_space(core.last())
    &&& exists|lo: int, hi: int|
        {
            &&& 0 <= lo <= hi <= s.len()
            &&& core == #[trigger] s.subrange(lo, hi)
            &&& forall|i: int| 0 <= i < lo ==> text::is_space(#[trigger] s[i])
            &&& forall|i: int| hi <= i < s.len() ==> text::is_space(#[trigger] s[i])
        }
}

} // verus!
