//! What the terminal reports, reduced to what the interface cares about.
use crate::tui::app;
use crate::tui::app::{Action, App, AppView, Key};
use crate::tui::draw;
use crate::tui::draw::row_at;
use crate::tui::keys;
use vstd::prelude::*;

verus! {

/// The keys that the interface tells apart.
#[derive(Debug, Clone, Copy, PartialEq, Eq, Structural)]
pub enum Code {
    Up,
    Down,
    PageUp,
    PageDown,
    Home,
    End,
    Enter,
    Esc,
    Char(char),
    Other,
}

/// A key as the terminal reports it.
#[derive(Debug, Clone, Copy, PartialEq, Eq, Structural)]
pub struct RawKey {
    pub code: Code,
    /// Pressed, and not repeated or released.
    pub pressed: bool,
    /// With the control key held down.
    pub control: bool,
}

/// What a key means. Only a press means anything, and the interrupt key always
/// quits.
pub open spec fn meaning(k: RawKey) -> Option<Key> {
    if !k.pressed {
        None
    } else if k.control && k.code == Code::Char('c') {
        Some(Key::Quit)
    } else {
        match k.code {
            Code::Up => Some(Key::Up),
            Code::Down => Some(Key::Down),
            Code::PageUp => Some(Key::PageUp),
            Code::PageDown => Some(Key::PageDown),
            Code::Home => Some(Key::Home),
            Code::End => Some(Key::End),
            Code::Enter => Some(Key::Enter),
            Code::Esc => Some(Key::Esc),
            Code::Char(c) => Some(
                if c == 'k' {
                    Key::Up
                } else if c == 'j' {
                    Key::Down
                } else if c == 'g' {
                    Key::Home
                } else if c == 'G' {
                    Key::End
                } else if c == ' ' {
                    Key::Space
                } else if c == 'q' {
                    Key::Quit
                } else if c == '?' {
                    Key::Help
                } else {
                    Key::Char(c)
                },
            ),
            Code::Other => None,
        }
    }
}

/// Reduces a key to the small set that the interface understands.
pub fn translate(k: RawKey) -> (r: Option<Key>)
    ensures
        r == meaning(k),
{
    if !k.pressed {
        return None;
    }
    if k.control && matches!(k.code, Code::Char('c')) {
        return Some(Key::Quit);
    }
    match k.code {
        Code::Up | Code::Char('k') => Some(Key::Up),
        Code::Down | Code::Char('j') => Some(Key::Down),
        Code::PageUp => Some(Key::PageUp),
        Code::PageDown => Some(Key::PageDown),
        Code::Home | Code::Char('g') => Some(Key::Home),
        Code::End | Code::Char('G') => Some(Key::End),
        Code::Char(' ') => Some(Key::Space),
        Code::Enter => Some(Key::Enter),
        Code::Esc => Some(Key::Esc),
        Code::Char('q') => Some(Key::Quit),
        Code::Char('?') => Some(Key::Help),
        Code::Char(c) => Some(Key::Char(c)),
        Code::Other => None,
    }
}

/// Anything that the terminal reports.
#[derive(Debug, Clone, Copy, PartialEq, Eq, Structural)]
pub enum Input {
    Key(RawKey),
    /// The left button was pressed on a line of the screen.
    Click(u16),
    ScrollDown,
    ScrollUp,
    Other,
}

/// What an input does to the interface, and what has to be done on its behalf. A
/// click puts the cursor on the row that the list has there and selects it or does not
/// select it any more.
pub open spec fn after_input(v: AppView, input: Input) -> (AppView, Action) {
    match input {
        Input::Key(k) => match meaning(k) {
            Some(key) => v.after_key(key),
            None => (v, Action::Nothing),
        },
        Input::Click(line) => (
            match draw::row_drawn_at(v, line as int) {
                Some(row) => v.moved_to(row).toggled(),
                None => v,
            },
            Action::Nothing,
        ),
        Input::ScrollDown => (v.moved_to(v.cursor + 1), Action::Nothing),
        Input::ScrollUp => (v.moved_to(v.cursor - 1), Action::Nothing),
        Input::Other => (v, Action::Nothing),
    }
}

/// Takes in what the terminal reports and says what has to be done.
pub fn dispatch(app: &mut App, input: Input) -> (r: Action)
    ensures
        (final(app)@, r) == after_input(old(app)@, input),
{
    match input {
        Input::Key(k) => match translate(k) {
            Some(key) => app.on_key(key),
            None => Action::Nothing,
        },
        Input::Click(line) => {
            if let Some(row) = row_at(app, line) {
                app.move_to(row);
                app.toggle();
            }
            Action::Nothing
        },
        Input::ScrollDown => {
            app.move_by(1);
            Action::Nothing
        },
        Input::ScrollUp => {
            app.move_by(-1);
            Action::Nothing
        },
        Input::Other => Action::Nothing,
    }
}

/// Whatever the modifiers, the interrupt key quits wherever quitting does.
pub proof fn interrupting_quits(v: AppView)
    ensures
        after_input(
            v,
            Input::Key(RawKey { code: Code::Char('c'), pressed: true, control: true }),
        ) == v.after_key(Key::Quit),
{
}

/// A key counts once: releasing it does nothing.
pub proof fn releasing_does_nothing(v: AppView, k: RawKey)
    requires
        !k.pressed,
    ensures
        after_input(v, Input::Key(k)) == (v, Action::Nothing),
{
}

/// A key changes nothing while a deletion is going on.
pub proof fn a_deletion_is_not_interrupted(v: AppView, k: RawKey)
    requires
        v.mode is Reclaiming,
    ensures
        after_input(v, Input::Key(k)) == (v, Action::Nothing),
{
}

/// A letter that stands for another key does what that key does.
pub proof fn letters_stand_for_keys(v: AppView, control: bool)
    ensures
        ({
            let press = |code: Code| Input::Key(RawKey { code, pressed: true, control });
            &&& after_input(v, press(Code::Char('k'))) == after_input(v, press(Code::Up))
            &&& after_input(v, press(Code::Char('j'))) == after_input(v, press(Code::Down))
            &&& after_input(v, press(Code::Char('g'))) == after_input(v, press(Code::Home))
            &&& after_input(v, press(Code::Char('G'))) == after_input(v, press(Code::End))
            &&& after_input(v, press(Code::Up)) == v.after_key(Key::Up)
            &&& after_input(v, press(Code::Down)) == v.after_key(Key::Down)
            &&& after_input(v, press(Code::PageUp)) == v.after_key(Key::PageUp)
            &&& after_input(v, press(Code::PageDown)) == v.after_key(Key::PageDown)
            &&& after_input(v, press(Code::Home)) == v.after_key(Key::Home)
            &&& after_input(v, press(Code::End)) == v.after_key(Key::End)
            &&& after_input(v, press(Code::Enter)) == v.after_key(Key::Enter)
            &&& after_input(v, press(Code::Esc)) == v.after_key(Key::Esc)
            &&& after_input(v, press(Code::Char(' '))) == v.after_key(Key::Space)
            &&& after_input(v, press(Code::Char('q'))) == v.after_key(Key::Quit)
            &&& after_input(v, press(Code::Char('?'))) == v.after_key(Key::Help)
        }),
{
}

/// Every other letter is handed on as it is, unless it is the interrupt key.
pub proof fn other_letters_are_handed_on(v: AppView, c: char, control: bool)
    requires
        c != 'k' && c != 'j' && c != 'g' && c != 'G' && c != ' ' && c != 'q' && c != '?',
        !(control && c == 'c'),
    ensures
        after_input(
            v,
            Input::Key(RawKey { code: Code::Char(c), pressed: true, control }),
        ) == v.after_key(Key::Char(c)),
{
}

/// The wheel moves the cursor by one row, as far as there are rows, and touches nothing
/// else than what is on the screen.
pub proof fn the_wheel_moves_by_one(v: AppView)
    requires
        v.cursor < v.visible().len() <= usize::MAX,
    ensures
        ({
            let (down, action) = after_input(v, Input::ScrollDown);
            &&& action == Action::Nothing
            &&& down.rows == v.rows && down.mode == v.mode && down.quit == v.quit
            &&& down.cursor == (if v.cursor + 1 < v.visible().len() {
                v.cursor + 1
            } else {
                v.cursor as int
            })
        }),
        ({
            let (up, action) = after_input(v, Input::ScrollUp);
            &&& action == Action::Nothing
            &&& up.rows == v.rows && up.mode == v.mode && up.quit == v.quit
            &&& up.cursor == (if v.cursor > 0 {
                v.cursor - 1
            } else {
                0
            })
        }),
{
}

/// A click puts the cursor on the row that is drawn there, and selects that row or does not
/// select it any more if it may be touched. Nothing else is selected or let go, and a
/// click beside the rows does nothing.
pub proof fn a_click_selects_what_is_drawn(v: AppView, line: u16, i: int)
    requires
        v.visible().len() <= usize::MAX,
        0 <= i < v.rows.len(),
        draw::row_drawn_at(v, line as int) matches Some(row) ==> 0 <= row < v.visible().len(),
    ensures
        ({
            let (w, action) = after_input(v, Input::Click(line));
            &&& action == Action::Nothing
            &&& match draw::row_drawn_at(v, line as int) {
                None => w == v,
                Some(row) => {
                    &&& w.cursor == row
                    &&& w.rows.len() == v.rows.len()
                    &&& w.rows[i].project == v.rows[i].project
                    &&& w.rows[i].target == v.rows[i].target
                    &&& w.rows[i].selected == (if v.visible_at()[row] == i
                        && keys::may_be_touched(v.rows[i]) {
                        !v.rows[i].selected
                    } else {
                        v.rows[i].selected
                    })
                },
            }
        }),
{
    if draw::row_drawn_at(v, line as int) is Some {
        let row = draw::row_drawn_at(v, line as int)->0;
        let m = v.moved_to(row);
        assert(m.cursor == row);
        assert(m.is_shown() =~= v.is_shown());
        assert(m.visible_at() == v.visible_at());
        app::lemma_which(v.is_shown(), v.rows.len() as int);
        assert(v.visible_at().len() == v.visible().len());
        assert(0 <= v.visible_at()[row] < v.rows.len());
    }
}

} // verus!
