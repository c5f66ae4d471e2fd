//! The printed report.
use forcefree::chart::{Bars, DEFAULT_WORTH_RATE};
use forcefree::deals::do_totals_fit;
use forcefree::figures::{bytes, duration, size_of};
use forcefree::git::GitState;
use forcefree::prose::{lower_bound_warning, shared_warning, wrap};
use forcefree::report::{
    bar_row, display_path, render, restore_line, row_label, LEFT_FIELD, NAME_FIELD, RIGHT_FIELD,
};
use forcefree::scan::{Project, Target};

#[test]
fn formats_bytes_readably() {
    assert_eq!(bytes(512), "512 B");
    assert_eq!(bytes(1024), "1.0 KB");
    assert_eq!(bytes(1024 * 1024 * 3), "3.0 MB");
}

#[test]
fn formats_durations_readably() {
    assert_eq!(duration(45), "45s");
    assert_eq!(duration(90), "1m 30s");
    assert_eq!(duration(3700), "1h 1m");
}

#[test]
fn whole_units_drop_the_trailing_zero() {
    assert_eq!(duration(180), "3m");
    assert_eq!(duration(600), "10m");
    assert_eq!(duration(3600), "1h");
}

fn target(bytes: u64, unreadable: u32) -> Target {
    Target {
        path: "node_modules".into(),
        bytes,
        shared_bytes: 0,
        unreadable,
        restore_command: "npm ci".into(),
        rebuild_seconds: 45,
    }
}

#[test]
fn incomplete_measurements_are_never_shown_as_exact() {
    assert_eq!(size_of(&target(1024, 0)), "1.0 KB");
    assert_eq!(size_of(&target(1024, 7)), "~1.0 KB");
}

#[test]
fn lower_bound_warning_only_appears_when_something_was_missed() {
    assert!(lower_bound_warning(0).is_none());
    assert!(lower_bound_warning(1).unwrap().contains("1 entry could"));
    assert!(lower_bound_warning(3).unwrap().contains("3 entries could"));
}

/// Enough to measure printable width without pulling in a parser.
fn visible_width(s: &str) -> usize {
    let mut n = 0;
    let mut chars = s.chars();
    while let Some(c) = chars.next() {
        if c == '\u{1b}' {
            for c in chars.by_ref() {
                if c == 'm' {
                    break;
                }
            }
        } else {
            n += 1;
        }
    }
    n
}

#[test]
fn a_bar_row_fits_the_column_budget() {
    let b = Bars {
        left: 9,
        right: 5,
        overflowed: false,
    };
    for truecolor in [false, true] {
        let w = visible_width(&bar_row(b, "…app/node_modules", "420.8 MB", "45s", truecolor));
        assert!(w <= 80, "{w} columns");
    }
}

#[test]
fn the_widest_possible_row_still_fits() {
    let b = Bars {
        left: LEFT_FIELD,
        right: RIGHT_FIELD,
        overflowed: true,
    };
    let label = "x".repeat(NAME_FIELD);
    for truecolor in [false, true] {
        let w = visible_width(&bar_row(b, &label, "1023.9 GB", "23h 59m", truecolor));
        assert!(w <= 80, "{w} columns");
        assert_eq!(w, 79);
    }
}

#[test]
fn a_long_size_takes_its_columns_from_the_label() {
    let b = Bars {
        left: LEFT_FIELD,
        right: RIGHT_FIELD,
        overflowed: false,
    };
    let label = "abcdefghijklmnopqrstuvwx";
    assert_eq!(label.len(), NAME_FIELD);
    let row = |label: &str, size: &str| plain(&bar_row(b, label, size, "23h 59m", false));
    for size in ["1 KB", "1023.9 GB", "~1023.9 GB", "~10000.0 TB", "~16777216.0 TB"] {
        let r = row(label, size);
        assert_eq!(r.chars().count(), 79, "{size}");
        assert!(r.ends_with(&format!(" {size} 23h 59m")), "{r}");
    }
    assert!(row(label, "1023.9 GB").contains(&format!(" {label} 1023.9 GB ")));
    assert!(row(label, "~1023.9 GB").contains(" …cdefghijklmnopqrstuvwx ~1023.9 GB "));
    assert!(row(label, "~10000.0 TB").contains(" …defghijklmnopqrstuvwx ~10000.0 TB "));
    // A label with room to spare stays as it is.
    assert!(row("app/target", "~1023.9 GB").contains(" app/target              ~1023.9 GB "));
    // Labels that are longer than their field are not cut for a size that fits.
    let long = "y".repeat(30);
    assert!(row(&long, "9 B").contains(&format!(" {long}       9 B ")));
}

#[test]
fn notes_wrap_within_the_budget() {
    let long = shared_warning(785_000_000).unwrap();
    let lines = wrap(&long, 76);
    assert!(lines.len() > 1, "this note is long enough to need wrapping");
    for l in &lines {
        assert!(
            l.chars().count() <= 76,
            "{} chars: {l:?}",
            l.chars().count()
        );
    }
    // Wrapping must not drop or duplicate words.
    assert_eq!(
        lines.join(" ").split_whitespace().collect::<Vec<_>>(),
        long.split_whitespace().collect::<Vec<_>>()
    );
}

#[test]
fn wrapping_handles_a_word_longer_than_the_line() {
    let lines = wrap(&"x".repeat(100), 20);
    assert_eq!(lines.len(), 1, "an unbreakable word is left alone");
}

#[test]
fn every_row_states_how_to_get_it_back() {
    let t = target(1024, 0);
    let line = restore_line(&t);
    assert!(line.contains("npm ci"), "{line:?}");
    assert!(visible_width(&line) <= 80, "{line:?}");
}

#[test]
fn a_very_long_restore_command_still_fits() {
    let mut t = target(1024, 0);
    t.restore_command =
        "python -m venv .venv && source .venv/bin/activate && pip install -r requirements-dev.txt"
            .into();
    assert!(visible_width(&restore_line(&t)) <= 80);
}

#[test]
fn the_spine_sits_at_the_same_column_on_every_row() {
    let column_of_spine = |b: Bars| {
        let row = bar_row(b, "x", "1 B", "1s", true);
        let mut col = 0;
        let mut chars = row.chars();
        while let Some(c) = chars.next() {
            if c == '\u{1b}' {
                for c in chars.by_ref() {
                    if c == 'm' {
                        break;
                    }
                }
            } else if c == '│' {
                return col;
            } else {
                col += 1;
            }
        }
        panic!("no spine in row");
    };

    let a = column_of_spine(Bars {
        left: 0,
        right: RIGHT_FIELD,
        overflowed: false,
    });
    let b = column_of_spine(Bars {
        left: LEFT_FIELD,
        right: 0,
        overflowed: false,
    });
    let c = column_of_spine(Bars {
        left: 7,
        right: 11,
        overflowed: false,
    });
    // An over-long bar must be clamped rather than shove the spine along.
    let d = column_of_spine(Bars {
        left: LEFT_FIELD + 9,
        right: RIGHT_FIELD + 9,
        overflowed: true,
    });
    assert_eq!(a, b);
    assert_eq!(b, c);
    assert_eq!(c, d);
}

/// The same in the machine's own arithmetic.
fn bytes_by_division(n: u64) -> String {
    const UNITS: [&str; 5] = ["B", "KB", "MB", "GB", "TB"];
    let mut v = n as f64;
    let mut i = 0;
    while v >= 1024.0 && i < UNITS.len() - 1 {
        v /= 1024.0;
        i += 1;
    }
    if i == 0 {
        format!("{n} B")
    } else {
        format!("{v:.1} {}", UNITS[i])
    }
}

#[test]
fn sizes_agree_with_double_precision() {
    let mut seed: u64 = 88_172_645_463_325_252;
    for i in 0..4000u64 {
        seed ^= seed << 13;
        seed ^= seed >> 7;
        seed ^= seed << 17;
        let n = seed >> (i % 64);
        assert_eq!(bytes(n), bytes_by_division(n), "{n}");
    }
    for k in 0..64 {
        for d in [-1i128, 0, 1] {
            let n = ((1i128 << k) + d).max(0) as u64;
            assert_eq!(bytes(n), bytes_by_division(n), "{n}");
        }
    }
    // Halfway between two tenths.
    for n in [1280u64, 1075, 1126, 1177, 1024 * 51 + 256, u64::MAX, 1_048_524, 1_048_525] {
        assert_eq!(bytes(n), bytes_by_division(n), "{n}");
    }
}

#[test]
fn short_text_wraps_word_by_word() {
    assert_eq!(wrap("a bb  ccc\tdddd", 6), vec!["a bb", "ccc", "dddd"]);
    assert_eq!(wrap("  ", 6), Vec::<String>::new());
    assert_eq!(wrap("one two", 0), vec!["one", "two"]);
}

fn project(root: &str, state: GitState, targets: Vec<Target>) -> Project {
    Project {
        root: root.into(),
        ecosystem: "Node.js".into(),
        git_state: state,
        targets,
    }
}

fn sized(path: &str, mb: u64, secs: u32, command: &str) -> Target {
    Target {
        path: path.into(),
        bytes: mb * 1_048_576,
        shared_bytes: 0,
        unreadable: 0,
        restore_command: command.into(),
        rebuild_seconds: secs,
    }
}

#[test]
fn rows_are_labelled_by_project_and_target() {
    let label = |root: &str, path: &str| {
        row_label(&project(root, GitState::Clean, vec![]), &sized(path, 1, 1, "c"))
    };
    assert_eq!(label("/dev/dashboard", "/dev/dashboard/node_modules"), "dashboard/node_modules");
    assert_eq!(label("/", "/node_modules"), "node_modules");
    assert_eq!(label("/a/b", "/elsewhere/x"), "b//elsewhere/x");
    assert_eq!(
        label("/dev/a-rather-long-name", "/dev/a-rather-long-name/target/release"),
        "…ong-name/target/release"
    );
}

fn plain(s: &str) -> String {
    let mut out = String::new();
    let mut chars = s.chars();
    while let Some(c) = chars.next() {
        if c == '\u{1b}' {
            for c in chars.by_ref() {
                if c == 'm' {
                    break;
                }
            }
        } else {
            out.push(c);
        }
    }
    out
}

fn example() -> Vec<Project> {
    vec![
        project(
            "/dev/dashboard",
            GitState::Clean,
            vec![
                sized("/dev/dashboard/node_modules", 3789, 45, "npm ci"),
                sized("/dev/dashboard/.next/cache", 120, 90, "npm run build"),
            ],
        ),
        project(
            "/dev/parser",
            GitState::NotARepo,
            vec![
                sized("/dev/parser/target/debug", 6656, 180, "cargo build"),
                sized("/dev/parser/target/release", 800, 600, "cargo build --release"),
            ],
        ),
        project(
            "/dev/thesis-model",
            GitState::Dirty,
            vec![sized("/dev/thesis-model/.venv", 2150, 60, "python -m venv .venv")],
        ),
        project(
            "/dev/mobile",
            GitState::Clean,
            vec![sized("/dev/mobile/.gradle", 300, 300, "./gradlew build")],
        ),
    ]
}

#[test]
fn a_report_is_a_page_of_lines() {
    let lines: Vec<String> = render(&example(), DEFAULT_WORTH_RATE, "3", false, false)
        .iter()
        .map(|l| plain(l))
        .collect();
    let expected = vec![
        "",
        "  11.4 GB reclaimable across 5 targets · 20m 15s to rebuild it all",
        "",
        "       space freed │ time to rebuild",
        "      ████████████│██               dashboard/node_modules     3.7 GB     45s",
        "                                     npm ci",
        "  ████████████████│█████            parser/target/debug        6.5 GB      3m",
        "                                     cargo build",
        "  ────────────────┼────────────────  break-even · 3 MB per second",
        "                ██│███              dashboard/.next/cache    120.0 MB  1m 30s",
        "                                     npm run build",
        "            ██████│████████         parser/target/release    800.0 MB     10m",
        "                                     cargo build --release",
        "              ████│██████           mobile/.gradle           300.0 MB      5m",
        "                                     ./gradlew build",
        "",
        "  Held back — 2.1 GB in repos with work that isn't backed up",
        "    thesis-model               Node.js          uncommitted changes",
        "",
        "  Run with --reclaim to delete. Nothing has been touched.",
    ];
    assert_eq!(lines.len(), expected.len());
    for (l, e) in lines.iter().zip(&expected) {
        if e.contains('█') {
            // The exact columns are checked elsewhere.
            assert_eq!(l.chars().count(), 79, "{l}");
            let words = |s: &str| {
                s.split('│')
                    .nth(1)
                    .unwrap()
                    .replace('█', " ")
                    .split_whitespace()
                    .collect::<Vec<_>>()
                    .join(" ")
            };
            assert_eq!(words(l), words(e));
        } else {
            assert_eq!(l, e);
        }
    }
}

#[test]
fn rows_far_below_the_line_are_left_out() {
    let mut projects = example();
    for i in 0..4 {
        projects.push(project(
            "/dev/slow",
            GitState::Clean,
            vec![sized("/dev/slow/build", 10 + i, 600, "make")],
        ));
    }
    let shown = render(&projects, DEFAULT_WORTH_RATE, "3", false, false);
    let more: Vec<String> = shown.iter().map(|l| plain(l)).filter(|l| l.contains("more")).collect();
    assert_eq!(
        more,
        vec!["  4 more below the line: 46.0 MB for another 40m.  --all to see them."]
    );
    let all = render(&projects, DEFAULT_WORTH_RATE, "3", true, false);
    assert!(all.iter().all(|l| !l.contains("more below")));
    assert_eq!(all.iter().filter(|l| l.contains("slow/build")).count(), 4);
}

#[test]
fn caveats_appear_where_they_apply() {
    let mut projects = example();
    projects[0].targets[0].shared_bytes = 2 * 1_048_576;
    projects[1].targets[0].unreadable = 2;
    let text: Vec<String> = render(&projects, DEFAULT_WORTH_RATE, "3", false, true)
        .iter()
        .map(|l| plain(l))
        .collect();
    let text = text.join("\n");
    assert!(text.contains("  2.0 MB of the apparent size is hard linked"), "{text}");
    assert!(
        text.contains("  2 entries could not be read. Sizes marked ~ are lower bounds."),
        "{text}"
    );
    assert!(text.contains("~6.5 GB"), "{text}");
}

#[test]
fn an_empty_report_says_so() {
    assert_eq!(
        render(&vec![], DEFAULT_WORTH_RATE, "3", false, false),
        vec!["Nothing reclaimable found."]
    );
    let held = vec![project(
        "/",
        GitState::Unpushed,
        vec![sized("/x", 1, 1, "c")],
    )];
    let lines: Vec<String> = render(&held, DEFAULT_WORTH_RATE, "3", false, false)
        .iter()
        .map(|l| plain(l))
        .collect();
    assert_eq!(
        lines,
        vec![
            "",
            "  Nothing here is eligible to reclaim.",
            "",
            "  Held back — 1.0 MB in repos with work that isn't backed up",
            "    /                          Node.js          unpushed commits",
        ]
    );
}

#[test]
fn totals_that_do_not_fit_are_noticed() {
    assert!(do_totals_fit(&example()));
    let big = |bytes: u64| project("/a", GitState::Clean, vec![target(bytes, 0)]);
    assert!(do_totals_fit(&vec![big(u64::MAX - 1), big(1)]));
    assert!(!do_totals_fit(&vec![big(u64::MAX), big(1)]));
    let unread = |n: u32| project("/a", GitState::Dirty, vec![target(1, n)]);
    assert!(!do_totals_fit(&vec![unread(u32::MAX), unread(1)]));
}

#[test]
fn paths_are_shown_without_the_verbatim_prefix() {
    assert_eq!(display_path("\\\\?\\C:\\dev"), "C:\\dev");
    assert_eq!(display_path("/home/me"), "/home/me");
    assert_eq!(display_path("\\\\server\\share"), "\\\\server\\share");
}
