//! Text, paths and what is said on the command line.
use forcefree::cli::{list_detectors, Watch};
use forcefree::detector::{Detector, Reclaimable};
use forcefree::git::GitState;
use forcefree::paths::{
    ancestors, components, file_name, is_absolute, is_same_place, is_within, join_path, strip_base,
    Component,
};
use forcefree::scan::{Event, Progress, Project};
use forcefree::text::{
    chars_of, is_blank, is_whitespace, join, push_clipped, push_decimal, push_left_aligned,
    push_repeated, push_right_aligned, split_words, text_of, trim,
};
use std::path::Path;

#[test]
fn whitespace_is_that_of_unicode() {
    for n in 0..=0x10FFFFu32 {
        if let Some(c) = char::from_u32(n) {
            assert_eq!(is_whitespace(c), c.is_whitespace(), "U+{n:04X}");
        }
    }
}

#[test]
fn trimming_and_splitting_agree_with_the_standard_library() {
    for s in ["", " ", "a", " a b ", "\ta\n", "one  two\u{a0}three", "\u{3000}", "a\u{2028}b"] {
        assert_eq!(trim(s), s.trim());
        assert_eq!(is_blank(s), s.trim().is_empty());
        let words: Vec<&str> = s.split_whitespace().collect();
        assert_eq!(split_words(s), words);
    }
}

#[test]
fn numbers_are_written_in_full() {
    for n in [0u64, 7, 10, 99, 100, 1_000_000, u64::MAX] {
        let mut s = String::from("n=");
        push_decimal(&mut s, n);
        assert_eq!(s, format!("n={n}"));
    }
}

#[test]
fn alignment_counts_characters() {
    for t in ["", "ab", "│█", "longer than that"] {
        let mut l = String::from("<");
        push_left_aligned(&mut l, t, 5);
        assert_eq!(l, format!("<{t:<5}"));
        let mut r = String::from("<");
        push_right_aligned(&mut r, t, 5);
        assert_eq!(r, format!("<{t:>5}"));
        let mut c = String::from("<");
        push_clipped(&mut c, t, 4);
        assert_eq!(c, format!("<{t:.4}"));
    }
    let mut s = String::new();
    push_repeated(&mut s, '─', 3);
    assert_eq!(s, "───");
    assert_eq!(text_of(&chars_of("│ab│"), 1, 3), "ab");
    assert_eq!(join(&vec!["a".into(), "b".into(), "".into()], ", "), "a, b, ");
    assert_eq!(join(&vec![], ", "), "");
}

const PATHS: [&str; 22] = [
    "", "/", ".", "..", "a", "/a", "a/", "a/b", "/a/b", "/a//b", "/a/./b", "./a", "../a", "a/..",
    "/a/b/c", "//a", "a/.", "/.", "/..", "a/./", "/a/../b", "ab",
];

#[test]
fn paths_agree_with_the_standard_library() {
    for a in PATHS {
        let p = Path::new(a);
        assert_eq!(is_absolute(a), p.is_absolute(), "{a:?}");
        let std_name = p.file_name().map(|n| n.to_str().unwrap().to_string());
        assert_eq!(file_name(a), std_name, "{a:?}");
        let mine: Vec<String> = components(a)
            .iter()
            .map(|c| match c {
                Component::Root => "/".to_string(),
                Component::Here => ".".to_string(),
                Component::Up => "..".to_string(),
                Component::Name(n) => n.clone(),
            })
            .collect();
        let std_parts: Vec<String> = p
            .components()
            .map(|c| c.as_os_str().to_str().unwrap().to_string())
            .collect();
        assert_eq!(mine, std_parts, "{a:?}");
        let up: Vec<&Path> = p.ancestors().collect();
        let mine = ancestors(a);
        assert_eq!(mine.len(), up.len(), "{a:?}");
        for (x, y) in mine.iter().zip(up) {
            assert_eq!(Path::new(x), y, "{a:?}");
        }
        for b in PATHS {
            let q = Path::new(b);
            assert_eq!(is_within(a, b), p.starts_with(q), "{a:?} {b:?}");
            assert_eq!(is_same_place(a, b), p == q, "{a:?} {b:?}");
            assert_eq!(
                join_path(a, b),
                p.join(q).to_str().unwrap(),
                "{a:?} {b:?}"
            );
            assert_eq!(
                strip_base(a, b),
                p.strip_prefix(q).unwrap_or(p).to_str().unwrap(),
                "{a:?} {b:?}"
            );
        }
    }
}

#[test]
fn the_progress_line() {
    let mut watch = Watch::new();
    let progress = Event::Progress(Progress {
        dirs: 12,
        files: 3456,
    });
    assert_eq!(
        watch.on_event(&progress).unwrap(),
        "\r  12 dirs · 3456 files · 0 projects ·    "
    );
    assert!(watch
        .on_event(&Event::Found {
            root: "/dev/dashboard".into(),
            ecosystem: "Node.js".into(),
        })
        .is_none());
    assert_eq!(
        watch.on_event(&progress).unwrap(),
        "\r  12 dirs · 3456 files · 1 projects · dashboard [Node.js]   "
    );
    assert!(watch
        .on_event(&Event::Found {
            root: "/dev/a-project-with-quite-a-long-name-indeed".into(),
            ecosystem: "Rust".into(),
        })
        .is_none());
    assert!(watch
        .on_event(&Event::Project(Project {
            root: "/x".into(),
            ecosystem: "Rust".into(),
            git_state: GitState::Clean,
            targets: vec![],
        }))
        .is_none());
    assert_eq!(
        watch.on_event(&progress).unwrap(),
        "\r  12 dirs · 3456 files · 2 projects · a-project-with-quite-a-long-name-indeed    "
    );
}

#[test]
fn ecosystems_are_listed() {
    let d = Detector {
        id: "node".into(),
        name: "Node.js".into(),
        markers: vec!["package.json".into(), "yarn.lock".into()],
        reclaimable: vec![Reclaimable {
            path: "node_modules".into(),
            restore_command: "npm ci".into(),
            rebuild_seconds: 45,
            aggressive_only: false,
        }],
    };
    assert_eq!(
        list_detectors(&vec![d]),
        vec![
            "1 ecosystems supported:",
            "",
            "  node       Node.js            markers: package.json, yarn.lock",
            "",
            "Missing yours? Add detectors/<id>.toml — see CONTRIBUTING.md",
        ]
    );
}
