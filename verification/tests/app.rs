//! What the interface decides.
use forcefree::chart::DEFAULT_WORTH_RATE;
use forcefree::git::GitState;
use forcefree::reclaim::{plan, Outcome};
use forcefree::scan::{scan, Event, Progress, Project, Target};
use forcefree::tui::app::{Action, App, Key, Mode, Row};

const MB: u64 = 1_048_576;

fn target(path: &str, mb: u64, secs: u32) -> Target {
    Target {
        path: path.to_string(),
        bytes: mb * MB,
        shared_bytes: 0,
        unreadable: 0,
        restore_command: "npm ci".into(),
        rebuild_seconds: secs,
    }
}

fn project(root: &str, state: GitState, targets: Vec<Target>) -> Project {
    Project {
        root: root.to_string(),
        ecosystem: "Node.js".into(),
        git_state: state,
        targets,
    }
}

/// A good deal, a bad deal, and something git-blocked, in the state the user would
/// actually see them: a scan that has run to completion.
fn app() -> App {
    let mut a = App::new(vec!["/x".to_string()], DEFAULT_WORTH_RATE);
    a.mode = Mode::Scanning;
    a.on_scan_event(Event::Project(project(
        "/good",
        GitState::Clean,
        vec![target("/good/node_modules", 900, 45)],
    )));
    a.on_scan_event(Event::Project(project(
        "/bad",
        GitState::Clean,
        vec![target("/bad/target/release", 100, 600)],
    )));
    a.on_scan_event(Event::Project(project(
        "/dirty",
        GitState::Dirty,
        vec![target("/dirty/node_modules", 800, 45)],
    )));
    a.show_below = true;
    a.scan_finished();
    a
}

#[test]
fn movement_stays_in_bounds() {
    let mut empty = App::new(vec![], DEFAULT_WORTH_RATE);
    empty.move_by(-5);
    empty.move_by(5);
    assert_eq!(empty.cursor, 0);

    let mut a = app();
    a.move_by(-10);
    assert_eq!(a.cursor, 0);
    a.move_by(1000);
    assert_eq!(a.cursor, a.visible_len() - 1);
}

#[test]
fn blocked_rows_cannot_be_selected() {
    let mut a = app();
    let dirty = a
        .visible()
        .iter()
        .position(|r| r.project.root == "/dirty")
        .expect("the dirty project is on screen");
    a.move_to(dirty);
    a.toggle();
    assert!(a.selected_rows().is_empty(), "a dirty repo was selected");
}

#[test]
fn unmeasured_rows_cannot_be_selected() {
    let mut a = App::new(vec![], DEFAULT_WORTH_RATE);
    a.on_scan_event(Event::Found {
        root: "/pending".to_string(),
        ecosystem: "Rust".into(),
    });
    a.move_to(0);
    a.toggle();
    assert!(a.selected_rows().is_empty());
}

#[test]
fn select_above_the_line_takes_only_safe_good_deals() {
    let mut a = app();
    a.select_above_line();
    let picked: Vec<_> = a
        .selected_rows()
        .iter()
        .map(|r| r.project.root.clone())
        .collect();
    assert_eq!(picked, vec!["/good".to_string()]);
}

#[test]
fn found_then_project_updates_one_row() {
    let mut a = App::new(vec![], DEFAULT_WORTH_RATE);
    a.on_scan_event(Event::Found {
        root: "/p".to_string(),
        ecosystem: "Node.js".into(),
    });
    assert_eq!(a.rows.len(), 1);
    assert!(a.rows[0].measured().is_none(), "no size yet");

    a.on_scan_event(Event::Project(project(
        "/p",
        GitState::Clean,
        vec![target("/p/node_modules", 500, 45)],
    )));
    assert_eq!(
        a.rows.len(),
        1,
        "the placeholder was replaced, not added to"
    );
    assert!(a.rows[0].measured().is_some());
}

#[test]
fn a_repeated_found_does_not_duplicate() {
    let mut a = App::new(vec![], DEFAULT_WORTH_RATE);
    for _ in 0..3 {
        a.on_scan_event(Event::Found {
            root: "/p".to_string(),
            ecosystem: "Node.js".into(),
        });
    }
    assert_eq!(a.rows.len(), 1);
}

#[test]
fn blocked_rows_sink_below_eligible_ones() {
    let a = app();
    let blocked_first = a
        .rows
        .iter()
        .position(|r| !r.project.git_state.is_safe_to_reclaim())
        .unwrap();
    let eligible_last = a
        .rows
        .iter()
        .rposition(|r| r.project.git_state.is_safe_to_reclaim())
        .unwrap();
    assert!(
        blocked_first > eligible_last,
        "a blocked row ranked above an eligible one"
    );
}

#[test]
fn totals_count_only_what_can_be_reclaimed() {
    let a = app();
    assert_eq!(a.eligible_bytes(), (900 + 100) * MB);
    assert_eq!(a.blocked_bytes(), 800 * MB);
}

#[test]
fn the_line_ignores_blocked_rows() {
    let a = app();
    let cut = a.cut_index();
    for r in a.rows.iter().take(cut) {
        assert!(
            r.project.git_state.is_safe_to_reclaim(),
            "a blocked row landed above the break-even line"
        );
    }
}

#[test]
fn measured_rows_rank_above_pending_ones() {
    let mut a = App::new(vec![], DEFAULT_WORTH_RATE);
    a.on_scan_event(Event::Found {
        root: "/pending".to_string(),
        ecosystem: "Rust".into(),
    });
    a.on_scan_event(Event::Project(project(
        "/measured",
        GitState::Clean,
        vec![target("/measured/node_modules", 500, 45)],
    )));
    assert_eq!(a.rows[0].project.root, "/measured");
}

#[test]
fn selection_survives_remeasurement() {
    let mut a = app();
    a.select_above_line();
    assert_eq!(a.selected_rows().len(), 1);
    a.on_scan_event(Event::Project(project(
        "/good",
        GitState::Clean,
        vec![target("/good/node_modules", 950, 45)],
    )));
    assert_eq!(a.selected_rows().len(), 1, "selection was lost on update");
}

#[test]
fn reclaim_builds_the_plan_from_the_selection() {
    let mut a = app();
    a.select_above_line();
    let doomed = a.doomed();
    assert_eq!(doomed.len(), 1);
    assert_eq!(doomed[0].target.path, "/good/node_modules");
    assert_eq!(a.selected_bytes(), 900 * MB);
}

#[test]
fn reclaim_needs_a_selection() {
    let mut a = app();
    assert_eq!(a.on_key(Key::Char('r')), Action::Nothing);
    assert_eq!(a.mode, Mode::Browsing, "must not confirm an empty plan");
}

#[test]
fn confirming_defaults_to_no() {
    let mut a = app();
    a.select_above_line();
    a.on_key(Key::Char('r'));
    assert_eq!(a.mode, Mode::Confirming);
    // Any key that is not an explicit yes cancels.
    assert_eq!(a.on_key(Key::Char('x')), Action::Nothing);
    assert_eq!(a.mode, Mode::Browsing);
    assert_eq!(a.selected_rows().len(), 1, "cancelling keeps the selection");
}

#[test]
fn confirming_yes_asks_the_loop_to_delete() {
    let mut a = app();
    a.select_above_line();
    a.on_key(Key::Char('r'));
    assert_eq!(a.on_key(Key::Char('y')), Action::Reclaim);
    assert_eq!(a.mode, Mode::Reclaiming);
}

#[test]
fn quit_works_from_every_mode() {
    for mode in [Mode::Idle, Mode::Browsing, Mode::Done(String::new())] {
        let mut a = app();
        a.mode = mode.clone();
        a.on_key(Key::Quit);
        assert!(a.quit, "could not quit from {mode:?}");
    }
    // Help returns to where it came from, then quits.
    let mut a = app();
    a.on_key(Key::Help);
    assert!(matches!(a.mode, Mode::Help(_)));
    a.on_key(Key::Esc);
    assert_eq!(a.mode, Mode::Browsing);
    a.on_key(Key::Quit);
    assert!(a.quit);
}

#[test]
fn input_is_ignored_while_deleting() {
    let mut a = app();
    a.mode = Mode::Reclaiming;
    assert_eq!(a.on_key(Key::Quit), Action::Nothing);
    assert!(!a.quit);
}

#[test]
fn hiding_below_line_rows_keeps_the_cursor_valid() {
    let mut a = app();
    a.move_by(1000);
    a.show_below = false;
    a.on_key(Key::Char('t'));
    a.on_key(Key::Char('t'));
    assert!(a.cursor < a.visible_len().max(1));
}

#[test]
fn a_selected_row_stays_visible_below_the_line() {
    let mut a = app();
    let bad = a
        .visible()
        .iter()
        .position(|r| r.project.root == "/bad")
        .expect("the bad deal is on screen while show_below is set");
    a.move_to(bad);
    a.toggle();
    assert_eq!(a.selected_rows().len(), 1);

    a.show_below = false;
    assert!(
        a.visible().iter().any(|r| r.project.root == "/bad"),
        "a selected row disappeared when the list was collapsed"
    );
}

#[test]
fn starting_a_scan_clears_the_previous_one() {
    let mut a = app();
    assert!(!a.rows.is_empty());
    assert_eq!(a.on_key(Key::Char('s')), Action::StartScan);
    assert!(a.rows.is_empty());
    assert_eq!(a.mode, Mode::Scanning);
}

#[test]
fn a_project_that_turns_dirty_loses_its_selection() {
    let mut a = app();
    a.select_above_line();
    a.on_scan_event(Event::Project(project(
        "/good",
        GitState::Dirty,
        vec![target("/good/node_modules", 900, 45)],
    )));
    assert!(a.selected_rows().is_empty());
    assert!(a.doomed().is_empty());
}

#[test]
fn rows_are_listed_in_rank_order() {
    let a = app();
    let roots: Vec<&str> = a.rows.iter().map(|r| r.project.root.as_str()).collect();
    assert_eq!(roots, vec!["/good", "/bad", "/dirty"]);
    assert_eq!(a.cut_index(), 1);
    assert_eq!(a.eligible_seconds(), 645);
    assert_eq!(a.mode, Mode::Browsing);
    let bars = a.bars(16);
    assert!(bars[0].leans_left() && !bars[1].leans_left());
}

#[test]
fn keys_move_the_cursor() {
    let mut a = app();
    a.viewport = 2;
    a.on_key(Key::Down);
    assert_eq!((a.cursor, a.offset), (1, 0));
    a.on_key(Key::End);
    assert_eq!((a.cursor, a.offset), (2, 1));
    a.on_key(Key::Home);
    assert_eq!((a.cursor, a.offset), (0, 0));
    a.on_key(Key::PageDown);
    assert_eq!((a.cursor, a.offset), (2, 1));
    a.on_key(Key::PageUp);
    assert_eq!((a.cursor, a.offset), (0, 0));
    a.on_key(Key::Up);
    assert_eq!(a.cursor, 0);
    a.move_by(isize::MIN);
    assert_eq!(a.cursor, 0);
    a.move_by(isize::MAX);
    assert_eq!(a.cursor, 2);
}

#[test]
fn keys_change_the_selection() {
    let mut a = app();
    a.on_key(Key::Space);
    assert_eq!(a.selected_rows().len(), 1);
    assert_eq!(a.selected_seconds(), 45);
    a.on_key(Key::Space);
    assert!(a.selected_rows().is_empty());
    a.on_key(Key::Char('a'));
    assert_eq!(a.selected_rows().len(), 1);
    a.on_key(Key::Char('n'));
    assert!(a.selected_rows().is_empty());
    a.on_key(Key::Char('t'));
    assert!(!a.show_below);
    assert_eq!(a.visible_len(), 1);
    a.on_key(Key::Char('z'));
    assert_eq!(a.mode, Mode::Browsing);
}

#[test]
fn a_deletion_ends_with_a_summary() {
    let outcome = Outcome {
        freed: 900 * MB,
        removed: 1,
        failures: 0,
        refused: 0,
    };
    let mut a = app();
    a.select_above_line();
    a.mode = Mode::Reclaiming;
    a.finish_reclaim(outcome);
    assert_eq!(
        a.mode,
        Mode::Done("Freed 900.0 MB across 1 target(s).".to_string())
    );
    assert_eq!(a.rows.len(), 2, "what is gone is not listed");

    let mut a = app();
    a.select_above_line();
    a.finish_reclaim(Outcome {
        freed: 0,
        removed: 0,
        failures: 1,
        refused: 2,
    });
    assert_eq!(
        a.mode,
        Mode::Done(
            "Freed 0 B across 0 target(s). 1 could not be removed. 2 refused — did not resolve inside their project."
                .to_string()
        )
    );
    assert_eq!(a.rows.len(), 3, "what is still there is listed");
    assert!(a.selected_rows().is_empty());
}

#[test]
fn an_unmeasured_row_counts_for_nothing() {
    let row = Row {
        project: project("/p", GitState::Clean, vec![]),
        target: Some(0),
        selected: false,
    };
    assert!(row.measured().is_none());
    assert!(!row.selectable());
    assert_eq!(row.reclaimable_bytes(), 0);
    assert_eq!(row.rebuild_seconds(), 0);
    assert_eq!(row.efficiency().to_bits(), 0);
}

#[test]
fn row_totals_that_do_not_fit_are_noticed() {
    let mut a = app();
    assert!(a.do_totals_fit());
    a.on_scan_event(Event::Project(project(
        "/huge",
        GitState::Clean,
        vec![Target {
            bytes: u64::MAX,
            ..target("/huge/x", 0, 1)
        }],
    )));
    assert!(!a.do_totals_fit());
}

#[test]
fn selecting_above_the_line_takes_what_the_command_line_would() {
    let events = || {
        let found = |root: &str| Event::Found {
            root: root.to_string(),
            ecosystem: "Node.js".into(),
        };
        vec![
            found("/b"),
            Event::Project(project(
                "/b",
                GitState::Clean,
                vec![target("/b/x", 100, 600), target("/b/y", 900, 45)],
            )),
            found("/empty"),
            Event::Progress(Progress { dirs: 1, files: 2 }),
            found("/c"),
            Event::Project(project(
                "/c",
                GitState::Dirty,
                vec![target("/c/x", 5000, 1)],
            )),
            found("/d"),
            Event::Project(project(
                "/d",
                GitState::NotARepo,
                vec![target("/d/x", 900, 45), target("/d/y", 4000, 45)],
            )),
        ]
    };
    let mut a = App::new(vec![], DEFAULT_WORTH_RATE);
    for e in events() {
        a.on_scan_event(e);
    }
    a.select_above_line();
    let mine: Vec<String> = a.doomed().iter().map(|d| d.target.path.clone()).collect();
    let projects = scan(events());
    let theirs: Vec<String> = plan(&projects, DEFAULT_WORTH_RATE, false)
        .iter()
        .map(|d| d.target.path.clone())
        .collect();
    // The interface goes by rank and the command line by project.
    assert_eq!(mine, vec!["/d/y", "/b/y", "/d/x"]);
    assert_eq!(theirs, vec!["/b/y", "/d/x", "/d/y"]);
}
