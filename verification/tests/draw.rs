//! What is on the screen.
use forcefree::chart::DEFAULT_WORTH_RATE;
use forcefree::git::GitState;
use forcefree::scan::{Event, Project, Target};
use forcefree::tui::app::{App, Mode};
use forcefree::tui::draw::{
    field_for, help, name_width, render, row_at, viewport_rows, Line, Look,
};

#[test]
fn field_widths_stay_sane_at_any_terminal_size() {
    for w in [1u16, 20, 40, 60, 80, 120, 400] {
        let f = field_for(w);
        assert!((6..=30).contains(&f), "width {w} gave field {f}");
        assert!(name_width(w) >= 12);
    }
}

#[test]
fn viewport_is_never_zero() {
    for h in [0u16, 1, 5, 24, 100] {
        assert!(viewport_rows(h) >= 1, "height {h}");
    }
}

fn populated() -> App {
    let mut a = App::new(vec!["/dev".to_string()], DEFAULT_WORTH_RATE);
    a.mode = Mode::Scanning;
    for (root, path, mb, secs, state) in [
        (
            "/dev/dashboard",
            "node_modules",
            3800u64,
            45u32,
            GitState::Clean,
        ),
        ("/dev/parser", "target/debug", 6700, 180, GitState::Clean),
        ("/dev/mobile", ".gradle", 300, 300, GitState::Clean),
        ("/dev/thesis", ".venv", 2100, 60, GitState::Dirty),
    ] {
        a.on_scan_event(Event::Project(Project {
            root: root.to_string(),
            ecosystem: "Node.js".into(),
            git_state: state,
            targets: vec![Target {
                path: format!("{root}/{path}"),
                bytes: mb * 1_048_576,
                shared_bytes: 0,
                unreadable: 0,
                restore_command: "npm ci".into(),
                rebuild_seconds: secs,
            }],
        }));
    }
    a.show_below = true;
    a.scan_finished();
    a
}

fn lines(app: &App, w: u16, h: u16) -> Vec<Line> {
    render(app, w, h, "3", true)
}

/// The runs of text between escape sequences.
fn frame(app: &App, w: u16, h: u16) -> Vec<String> {
    lines(app, w, h)
        .iter()
        .flat_map(|l| {
            l.text
                .split('\u{1b}')
                .enumerate()
                .map(|(i, chunk)| {
                    if i == 0 {
                        return chunk.to_string();
                    }
                    match chunk.find(|c: char| c.is_ascii_alphabetic()) {
                        Some(i) => chunk[i + 1..].to_string(),
                        None => chunk.to_string(),
                    }
                })
                .collect::<Vec<_>>()
        })
        .filter(|s| !s.trim().is_empty())
        .collect()
}

#[test]
fn no_rendered_chunk_exceeds_the_terminal_width() {
    let app = populated();
    for (w, h) in [(80u16, 24u16), (60, 20), (120, 40), (200, 50)] {
        for line in frame(&app, w, h) {
            assert!(
                line.chars().count() <= w as usize,
                "{} chars at width {w}: {line:?}",
                line.chars().count()
            );
        }
    }
}

#[test]
fn rendering_survives_a_tiny_window() {
    let app = populated();
    for (w, h) in [(1u16, 1u16), (10, 3), (20, 5), (40, 8)] {
        assert!(!lines(&app, w, h).is_empty());
    }
}

#[test]
fn every_mode_renders() {
    let mut app = populated();
    app.select_above_line();
    for mode in [
        Mode::Idle,
        Mode::Scanning,
        Mode::Browsing,
        Mode::Confirming,
        Mode::Reclaiming,
        Mode::Done("freed 1 GB".into()),
        Mode::Help(Box::new(Mode::Browsing)),
    ] {
        app.mode = mode;
        assert!(lines(&app, 80, 24).len() > 5);
    }
}

#[test]
fn the_break_even_rule_does_not_swallow_a_row() {
    let app = populated();
    let text = frame(&app, 100, 40).join("\n");
    for name in ["node_modules", "target/debug", ".gradle", ".venv"] {
        assert!(text.contains(name), "{name} missing from the list:\n{text}");
    }
    assert!(text.contains("break-even"));
}

#[test]
fn confirming_lists_the_actual_paths() {
    let mut app = populated();
    app.select_above_line();
    app.mode = Mode::Confirming;
    let text = frame(&app, 100, 30).join("\n");
    assert!(text.contains("node_modules"), "{text}");
    assert!(text.contains("About to delete"), "{text}");
}

fn plain(s: &str) -> String {
    let mut out = String::new();
    let mut chars = s.chars();
    while let Some(c) = chars.next() {
        if c == '\u{1b}' {
            for c in chars.by_ref() {
                if c == 'm' {
                    break;
                }
            }
        } else {
            out.push(c);
        }
    }
    out
}

fn shown(app: &App, w: u16, h: u16) -> Vec<(u16, String)> {
    lines(app, w, h)
        .iter()
        .map(|l| (l.y, plain(&l.text)))
        .collect()
}

#[test]
fn a_frame_line_by_line() {
    let mut app = populated();
    app.select_above_line();
    let expected = [
        (
            0,
            "  ForceFree  10.5 GB reclaimable · 8m 45s to rebuild · 2.1 GB held back",
        ),
        (1, "  /dev"),
        (3, "               space freed │ time to rebuild"),
        (
            4,
            "▸[x]       ██████████████████│███                      …board/node_modules     3.7 GB      45s",
        ),
        (
            5,
            "▸[x] ████████████████████████│███████                  parser/target/debug     6.5 GB       3m",
        ),
        (
            6,
            "  ────────────────────────┼──────────────────────── break-even · 3 MB/s",
        ),
        (
            7,
            " [ ]                    █████│█████████                mobile/.gradle        300.0 MB       5m",
        ),
        (
            8,
            " [ ]            █████████████│████                     thesis/.venv            2.1 GB       1m",
        ),
        (22, "  10.3 GB selected · 3m 45s "),
        (
            23,
            "  space select   a all above line   r reclaim   t show all   s rescan   ? help   q quit",
        ),
    ];
    let expected: Vec<(u16, String)> = expected.iter().map(|(y, t)| (*y, t.to_string())).collect();
    assert_eq!(shown(&app, 94, 24), expected);
    let row = &expected[3].1;
    assert_eq!(row.chars().count(), 27 + 2 * field_for(94) + name_width(94));
}

#[test]
fn the_rule_sits_in_front_of_the_first_row_not_worth_it() {
    let app = populated();
    let got = shown(&app, 120, 40);
    let list: Vec<&String> = got.iter().filter(|(y, _)| *y >= 4 && *y < 38).map(|(_, t)| t).collect();
    assert_eq!(list.len(), 5);
    assert!(list[0].contains("dashboard/node_modules"));
    assert!(list[1].contains("parser/target/debug"));
    assert!(list[2].contains("┼") && list[2].ends_with("break-even · 3 MB/s"));
    assert!(list[3].contains("mobile/.gradle"));
    assert!(list[4].contains("thesis/.venv"));
}

#[test]
fn scrolling_to_the_rule_hides_the_rule() {
    let mut app = populated();
    app.offset = 2;
    let got = shown(&app, 120, 40);
    assert!(got[3].1.contains("mobile/.gradle"));
    // Further down than there are rows, the list starts over.
    app.offset = 9;
    let got = shown(&app, 120, 40);
    assert!(got[3].1.contains("dashboard/node_modules"));
}

#[test]
fn the_row_under_the_cursor_is_reversed() {
    let mut app = populated();
    app.cursor = 1;
    let reversed: Vec<u16> = lines(&app, 80, 24)
        .iter()
        .filter(|l| l.look == Look::Reversed)
        .map(|l| l.y)
        .collect();
    assert_eq!(reversed, vec![5]);
    let fresh: Vec<u16> = lines(&app, 80, 24)
        .iter()
        .filter(|l| l.look == Look::Fresh)
        .map(|l| l.y)
        .collect();
    assert_eq!(fresh, vec![22]);
}

#[test]
fn rows_that_are_not_measured_say_so() {
    let mut app = App::new(vec![], DEFAULT_WORTH_RATE);
    app.show_below = true;
    app.on_scan_event(Event::Found {
        root: "/dev/pending".to_string(),
        ecosystem: "Rust".into(),
    });
    app.cursor = 7;
    let line = lines(&app, 80, 24).into_iter().nth(3).unwrap();
    assert_eq!(line.y, 4);
    assert!(line.text.starts_with("\u{1b}[2m [ ] "), "{:?}", line.text);
    let text = plain(&line.text);
    assert!(text.contains("pending [Rust]"), "{text}");
    assert!(text.contains("measuring…"), "{text}");
}

#[test]
fn a_long_confirmation_says_how_many_more() {
    let mut app = populated();
    app.select_above_line();
    app.mode = Mode::Confirming;
    let got = shown(&app, 100, 12);
    let texts: Vec<&str> = got.iter().map(|(_, t)| t.as_str()).collect();
    assert_eq!(
        texts[3..],
        [
            "  About to delete 10.3 GB across 2 target(s).",
            "  Restoring all of it would cost about 3m 45s.",
            "    /dev/dashboard/node_modules",
            "    … and 1 more",
            "  ",
            "  y  delete    any other key  cancel",
        ]
    );
}

#[test]
fn the_key_reference() {
    let texts: Vec<String> = help(80, false).iter().map(|l| plain(&l.text)).collect();
    assert_eq!(texts.len(), 10);
    assert_eq!(texts[0], "    ↑ ↓  j k     move");
    assert_eq!(texts[9], "    q  Esc       quit");
}

#[test]
fn clicks_find_their_row() {
    let mut app = populated();
    // The rule is on line 6: nothing is there to be found.
    let drawn = [
        (3, None),
        (4, Some(0)),
        (5, Some(1)),
        (6, None),
        (7, Some(2)),
        (8, Some(3)),
        (9, None),
        (23, None),
        (u16::MAX, None),
    ];
    for (y, row) in drawn {
        assert_eq!(row_at(&app, y), row, "line {y}");
    }
    for mode in [
        Mode::Confirming,
        Mode::Reclaiming,
        Mode::Help(Box::new(Mode::Browsing)),
    ] {
        app.mode = mode;
        for (y, row) in drawn {
            assert_eq!(row_at(&app, y), row, "line {y}");
        }
    }
}

#[test]
fn clicks_find_their_row_after_scrolling() {
    let mut app = populated();
    app.offset = 1;
    assert_eq!(row_at(&app, 4), Some(1));
    assert_eq!(row_at(&app, 5), None);
    assert_eq!(row_at(&app, 6), Some(2));
    // The rule never takes the top line.
    app.offset = 2;
    assert_eq!(row_at(&app, 4), Some(2));
    assert_eq!(row_at(&app, 5), Some(3));
    assert_eq!(row_at(&app, 6), None);
}

#[test]
fn what_is_clicked_is_what_is_drawn() {
    let mut app = populated();
    let names = ["node_modules", "target/debug", "mobile/.gradle", "thesis/.venv"];
    for h in [9u16, 10, 11, 12, 24] {
        app.viewport = viewport_rows(h);
        for offset in 0..4 {
            app.offset = offset;
            let drawn = shown(&app, 94, h);
            for y in 0..h {
                let line = drawn.iter().find(|(at, _)| *at == y);
                let name = row_at(&app, y).map(|i| names[i]);
                let found = line.and_then(|(_, t)| names.iter().find(|n| t.contains(*n)));
                assert_eq!(name, found.copied(), "line {y} of {h} from row {offset}");
            }
        }
    }
}

#[test]
fn no_line_of_the_list_is_wider_than_the_terminal() {
    let mut app = populated();
    app.on_scan_event(Event::Project(Project {
        root: "/dev/unreadable".to_string(),
        ecosystem: "Rust".into(),
        git_state: GitState::Clean,
        targets: vec![Target {
            path: "/dev/unreadable/target".to_string(),
            bytes: (1 << 40) - 1,
            shared_bytes: 0,
            unreadable: 1,
            restore_command: "cargo build".into(),
            rebuild_seconds: 86_399,
        }],
    }));
    app.on_scan_event(Event::Found {
        root: "/dev/pending".to_string(),
        ecosystem: "Rust".into(),
    });
    for w in 51u16..=200 {
        for (y, text) in shown(&app, w, 40) {
            if (3..38).contains(&y) {
                let n = text.chars().count();
                assert!(n <= w as usize, "{n} columns at width {w}: {text:?}");
            }
        }
    }
}

#[test]
fn the_spine_is_one_column_on_every_row() {
    let app = populated();
    for w in [51u16, 60, 80, 94, 120, 200] {
        let f = field_for(w);
        let got = shown(&app, w, 40);
        let column = |t: &str, spine: char| t.chars().position(|c| c == spine).unwrap();
        let rows: Vec<usize> = got
            .iter()
            .filter(|(y, t)| (4..38).contains(y) && !t.contains('┼'))
            .map(|(_, t)| column(t, '│'))
            .collect();
        assert_eq!(rows, vec![5 + f; 4], "width {w}");
        let rule = got.iter().find(|(_, t)| t.contains('┼')).unwrap();
        assert_eq!(column(&rule.1, '┼'), 2 + f, "width {w}");
        assert_eq!(column(&got[2].1, '│'), 14 + f.saturating_sub(11), "width {w}");
    }
}

#[test]
fn what_is_above_the_rule_is_what_gets_selected() {
    let mut app = App::new(vec!["/dev".to_string()], DEFAULT_WORTH_RATE);
    app.mode = Mode::Scanning;
    // Both return more than the rate asks, and one of them is held back.
    for (root, state) in [("/dev/kept", GitState::Dirty), ("/dev/free", GitState::Clean)] {
        app.on_scan_event(Event::Project(Project {
            root: root.to_string(),
            ecosystem: "Node.js".into(),
            git_state: state,
            targets: vec![Target {
                path: format!("{root}/node_modules"),
                bytes: 2_000 << 20,
                shared_bytes: 0,
                unreadable: 0,
                restore_command: "npm ci".into(),
                rebuild_seconds: 45,
            }],
        }));
    }
    app.show_below = true;
    app.scan_finished();
    app.select_above_line();
    let got = shown(&app, 100, 40);
    let list: Vec<&String> = got
        .iter()
        .filter(|(y, _)| (4..38).contains(y))
        .map(|(_, t)| t)
        .collect();
    assert_eq!(list.len(), 3);
    assert!(list[0].starts_with("▸[x] ") && list[0].contains("free/node_modules"));
    assert!(list[1].contains('┼'));
    assert!(list[2].contains("[ ] ") && list[2].contains("kept/node_modules"));
}

#[test]
fn the_status_follows_the_mode() {
    let title = |mode: Mode| {
        let mut app = populated();
        app.progress.dirs = 12;
        app.progress.files = 345;
        app.mode = mode;
        shown(&app, 100, 30)[0].1.clone()
    };
    assert_eq!(title(Mode::Idle), "  ForceFree  press s to scan");
    assert_eq!(
        title(Mode::Scanning),
        "  ForceFree  scanning — 12 dirs · 345 files"
    );
    assert_eq!(title(Mode::Reclaiming), "  ForceFree  reclaiming…");
    assert_eq!(
        title(Mode::Done("Freed 1 B.".into())),
        "  ForceFree  Freed 1 B."
    );
}
