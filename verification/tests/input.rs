//! Keys and clicks.
use forcefree::chart::DEFAULT_WORTH_RATE;
use forcefree::git::GitState;
use forcefree::scan::{Event, Project, Target};
use forcefree::tui::app::{Action, App, Key, Mode};
use forcefree::tui::input::{dispatch, translate, Code, Input, RawKey};

fn press(code: Code) -> RawKey {
    RawKey {
        code,
        pressed: true,
        control: false,
    }
}

#[test]
fn keys_mean_what_they_say() {
    let cases = [
        (Code::Up, Some(Key::Up)),
        (Code::Down, Some(Key::Down)),
        (Code::PageUp, Some(Key::PageUp)),
        (Code::PageDown, Some(Key::PageDown)),
        (Code::Home, Some(Key::Home)),
        (Code::End, Some(Key::End)),
        (Code::Enter, Some(Key::Enter)),
        (Code::Esc, Some(Key::Esc)),
        (Code::Char('k'), Some(Key::Up)),
        (Code::Char('j'), Some(Key::Down)),
        (Code::Char('g'), Some(Key::Home)),
        (Code::Char('G'), Some(Key::End)),
        (Code::Char(' '), Some(Key::Space)),
        (Code::Char('q'), Some(Key::Quit)),
        (Code::Char('?'), Some(Key::Help)),
        (Code::Char('c'), Some(Key::Char('c'))),
        (Code::Char('r'), Some(Key::Char('r'))),
        (Code::Other, None),
    ];
    for (code, expected) in cases {
        assert_eq!(translate(press(code)), expected, "{code:?}");
        let released = RawKey {
            pressed: false,
            ..press(code)
        };
        assert_eq!(translate(released), None);
    }
    let interrupt = RawKey {
        control: true,
        ..press(Code::Char('c'))
    };
    assert_eq!(translate(interrupt), Some(Key::Quit));
}

fn project(root: &str, state: GitState) -> Event {
    Event::Project(Project {
        root: root.to_string(),
        ecosystem: "Node.js".into(),
        git_state: state,
        targets: vec![Target {
            path: format!("{root}/node_modules"),
            bytes: 900 << 20,
            shared_bytes: 0,
            unreadable: 0,
            restore_command: "npm ci".into(),
            rebuild_seconds: 45,
        }],
    })
}

fn app() -> App {
    let mut a = App::new(vec!["/x".to_string()], DEFAULT_WORTH_RATE);
    a.mode = Mode::Scanning;
    a.on_scan_event(project("/one", GitState::Clean));
    a.on_scan_event(project("/two", GitState::Dirty));
    a.show_below = true;
    a.scan_finished();
    a
}

#[test]
fn a_click_selects_and_deselects() {
    let mut a = app();
    assert_eq!(dispatch(&mut a, Input::Click(4)), Action::Nothing);
    assert_eq!(a.selected_rows().len(), 1);
    dispatch(&mut a, Input::Click(4));
    assert_eq!(a.selected_rows().len(), 0);
    // The rule is between the two rows.
    dispatch(&mut a, Input::Click(5));
    assert_eq!(a.cursor, 0);
    assert_eq!(a.selected_rows().len(), 0);
    dispatch(&mut a, Input::Click(6));
    assert_eq!(a.cursor, 1);
    assert!(a.selected_rows().is_empty(), "held back work was selected");
    dispatch(&mut a, Input::Click(2));
    dispatch(&mut a, Input::Click(9));
    assert_eq!(a.cursor, 1);
}

#[test]
fn a_click_counts_in_every_mode() {
    for mode in [
        Mode::Confirming,
        Mode::Help(Box::new(Mode::Browsing)),
        Mode::Browsing,
    ] {
        let mut a = app();
        a.cursor = 1;
        a.mode = mode.clone();
        assert_eq!(dispatch(&mut a, Input::Click(4)), Action::Nothing);
        assert_eq!(a.mode, mode);
        assert_eq!(a.cursor, 0);
        assert_eq!(a.selected_rows().len(), 1);
    }
}

#[test]
fn the_wheel_moves_the_cursor() {
    let mut a = app();
    dispatch(&mut a, Input::ScrollDown);
    assert_eq!(a.cursor, 1);
    dispatch(&mut a, Input::ScrollUp);
    assert_eq!(a.cursor, 0);
    assert_eq!(dispatch(&mut a, Input::Other), Action::Nothing);
}

#[test]
fn deleting_takes_two_keys_and_a_selection() {
    let mut a = app();
    let key = |a: &mut App, c: char| dispatch(a, Input::Key(press(Code::Char(c))));
    assert_eq!(key(&mut a, 'r'), Action::Nothing);
    assert_eq!(a.mode, Mode::Browsing);
    key(&mut a, 'a');
    key(&mut a, 'r');
    assert_eq!(a.mode, Mode::Confirming);
    assert_eq!(key(&mut a, 'y'), Action::Reclaim);
    assert_eq!(a.mode, Mode::Reclaiming);
    let interrupt = RawKey {
        control: true,
        ..press(Code::Char('c'))
    };
    assert_eq!(dispatch(&mut a, Input::Key(interrupt)), Action::Nothing);
    assert!(!a.quit, "a deletion cannot be interrupted");
}
