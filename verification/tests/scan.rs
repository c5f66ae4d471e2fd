//! Scanning, over directories that exist only in memory.
use forcefree::detector::{Detector, Reclaimable};
use forcefree::git::GitState;
use forcefree::links::Facts;
use forcefree::markers::{Child, MarkerIndex};
use forcefree::roots::independent_roots;
use forcefree::scan::{
    scan, scan_with, Event, Options, Progress, Project, Reply, Request, Scan, Target,
};
use forcefree::sizing::{dir_size, is_worth_reporting, Entry, Kind, Measured};

fn node_detector() -> Detector {
    Detector {
        id: "node".into(),
        name: "Node.js".into(),
        markers: vec!["package.json".into()],
        reclaimable: vec![Reclaimable {
            path: "node_modules".into(),
            restore_command: "npm ci".into(),
            rebuild_seconds: 45,
            aggressive_only: false,
        }],
    }
}

fn python_detector() -> Detector {
    Detector {
        id: "python".into(),
        name: "Python".into(),
        markers: vec!["requirements.txt".into()],
        reclaimable: vec![Reclaimable {
            path: ".venv".into(),
            restore_command: "python -m venv .venv".into(),
            rebuild_seconds: 60,
            aggressive_only: false,
        }],
    }
}

/// Files by path, with their sizes.
struct Disk {
    files: Vec<(String, u64)>,
}

impl Disk {
    fn new() -> Self {
        Disk { files: Vec::new() }
    }

    fn write(&mut self, path: &str, bytes: u64) {
        self.files.push((path.to_string(), bytes));
    }

    fn is_dir(&self, dir: &str) -> bool {
        self.files.iter().any(|(p, _)| p.starts_with(&format!("{dir}/")))
    }

    fn children(&self, dir: &str) -> Vec<(String, bool)> {
        let mut out: Vec<(String, bool)> = Vec::new();
        for (p, _) in &self.files {
            if let Some(rest) = p.strip_prefix(&format!("{dir}/")) {
                let name = rest.split('/').next().unwrap().to_string();
                let is_dir = rest.contains('/');
                if !out.iter().any(|(n, _)| *n == name) {
                    out.push((name, is_dir));
                }
            }
        }
        out
    }

    /// Walks a tree the way a scan wants it walked.
    fn walk(&self, index: &MarkerIndex, root: &str) -> (Vec<(String, usize)>, Progress) {
        let mut found = Vec::new();
        let mut counted = Progress::default();
        let mut todo = vec![root.to_string()];
        while let Some(dir) = todo.pop() {
            let children = self.children(&dir);
            let seen: Vec<Option<Child>> = children
                .iter()
                .map(|(n, d)| {
                    Some(Child {
                        name: n.clone(),
                        is_dir: *d,
                    })
                })
                .collect();
            let visit = index.visit(&seen);
            counted.dirs += visit.dirs;
            counted.files += visit.files;
            if let Some(i) = visit.matched {
                found.push((dir.clone(), i));
            }
            for ((name, is_dir), keep) in children.iter().zip(&visit.keep) {
                if *is_dir && *keep {
                    todo.push(format!("{dir}/{name}"));
                }
            }
        }
        (found, counted)
    }

    fn measure(&self, dir: &str, check_links: bool) -> Option<Measured> {
        if !self.is_dir(dir) {
            return None;
        }
        let entries: Vec<Entry> = self
            .files
            .iter()
            .enumerate()
            .filter(|(_, (p, _))| p.starts_with(&format!("{dir}/")))
            .map(|(i, (_, len))| file(*len, 1, i as u64))
            .collect();
        Some(dir_size(&entries, check_links))
    }

    fn run(&self, roots: &[&str], detectors: &Vec<Detector>, opts: Options) -> Vec<Event> {
        let roots: Vec<String> = roots.iter().map(|r| r.to_string()).collect();
        let index = MarkerIndex::build(detectors);
        let mut s = Scan::new(&roots, detectors, opts);
        let mut events = Vec::new();
        let mut reply = Reply::Done;
        loop {
            reply = match scan_with(&mut s, reply) {
                Request::Walk { root } => {
                    let (found, counted) = self.walk(&index, &root);
                    Reply::Walked { found, counted }
                }
                Request::Emit(e) => {
                    events.push(e);
                    Reply::Done
                }
                Request::Gate { .. } => Reply::Gated(GitState::Clean),
                Request::Measure { path, check_links } => {
                    Reply::Sized(self.measure(&path, check_links))
                }
                Request::Finished => return events,
            };
        }
    }

    fn scan(&self, roots: &[&str], detectors: &Vec<Detector>, opts: Options) -> Vec<Project> {
        scan(self.run(roots, detectors, opts))
    }
}

fn file(len: u64, links: u32, inode: u64) -> Entry {
    Entry::Seen {
        closed: false,
        kind: Kind::File {
            len,
            facts: Some(Facts {
                links,
                id: (1, inode),
            }),
        },
    }
}

fn directory() -> Entry {
    Entry::Seen {
        closed: false,
        kind: Kind::Other,
    }
}

fn last_progress(events: &[Event]) -> Progress {
    events
        .iter()
        .filter_map(|e| match e {
            Event::Progress(p) => Some(*p),
            _ => None,
        })
        .next_back()
        .expect("a scan always reports progress")
}

#[test]
fn discovery_does_not_descend_into_reclaimable_directories() {
    let mut disk = Disk::new();
    disk.write("/tmp/app/package.json", 2);
    for i in 0..200 {
        disk.write(&format!("/tmp/app/node_modules/dep{i}.js"), 10);
    }
    // A handful of files the walk *should* see.
    disk.write("/tmp/app/src/index.js", 10);

    let seen = last_progress(&disk.run(&["/tmp"], &vec![node_detector()], Options::default()));
    assert!(
        seen.files < 20,
        "discovery walked {} files; it should have pruned node_modules",
        seen.files
    );
}

#[test]
fn a_nested_project_is_found() {
    let mut disk = Disk::new();
    disk.write("/tmp/repo/package.json", 2);
    disk.write("/tmp/repo/node_modules/dep.js", 100);
    disk.write("/tmp/repo/services/api/requirements.txt", 5);
    disk.write("/tmp/repo/services/api/.venv/lib.py", 500);

    let found = disk.scan(
        &["/tmp"],
        &vec![node_detector(), python_detector()],
        Options::default(),
    );

    assert_eq!(found.len(), 2, "{found:#?}");
    assert!(found.iter().any(|p| p.root == "/tmp/repo"));
    assert!(found.iter().any(|p| p.root == "/tmp/repo/services/api"));
}

#[test]
fn a_package_inside_node_modules_is_not_a_project() {
    let mut disk = Disk::new();
    disk.write("/tmp/app/package.json", 2);
    disk.write("/tmp/app/node_modules/left-pad/package.json", 2);
    disk.write("/tmp/app/node_modules/left-pad/index.js", 100);

    let found = disk.scan(&["/tmp"], &vec![node_detector()], Options::default());
    assert_eq!(found.len(), 1);
    assert_eq!(found[0].root, "/tmp/app");
}

#[test]
fn projects_are_found_at_any_depth_but_not_in_what_is_deleted() {
    let mut disk = Disk::new();
    for root in [
        "/tmp/a",
        "/tmp/a/b/c",
        "/tmp/a/b/c/d",
        // Inside what the projects above would have deleted.
        "/tmp/a/node_modules/x",
        "/tmp/a/b/c/node_modules/y/z",
        // The name means nothing where no project is.
        "/tmp/plain/node_modules/w",
    ] {
        disk.write(&format!("{root}/package.json"), 2);
        disk.write(&format!("{root}/node_modules/dep.js"), 100);
    }
    let mut roots: Vec<String> = disk
        .scan(&["/tmp"], &vec![node_detector()], Options::default())
        .into_iter()
        .map(|p| p.root)
        .collect();
    roots.sort();
    assert_eq!(
        roots,
        ["/tmp/a", "/tmp/a/b/c", "/tmp/a/b/c/d", "/tmp/plain/node_modules/w"]
    );
}

#[test]
fn dirent_detection_agrees_with_marker_matching() {
    let detectors = vec![node_detector(), python_detector()];
    let index = MarkerIndex::build(&detectors);

    let cases: [(&str, &[&str], Option<usize>); 4] = [
        ("node", &["package.json", "src"], Some(0)),
        ("py", &["requirements.txt"], Some(1)),
        ("both", &["package.json", "requirements.txt"], Some(0)),
        ("neither", &["README.md"], None),
    ];

    for (dir, files, expected) in cases {
        let names: Vec<String> = files.iter().map(|f| f.to_string()).collect();
        assert_eq!(index.detector_for(&names), expected, "{dir}");

        // And the obvious way must agree about *whether* it matched.
        let by_matching = detectors.iter().position(|det| det.matches(&names));
        assert_eq!(by_matching, expected, "{dir}: matching disagreed");
    }
}

#[test]
fn multiple_roots_are_all_scanned() {
    let mut disk = Disk::new();
    for name in ["one", "two"] {
        disk.write(&format!("/tmp/{name}/package.json"), 2);
        disk.write(&format!("/tmp/{name}/node_modules/dep.js"), 100);
    }
    let found = disk.scan(
        &["/tmp/one", "/tmp/two"],
        &vec![node_detector()],
        Options::default(),
    );
    assert_eq!(found.len(), 2);
}

#[test]
fn overlapping_roots_do_not_double_report() {
    let mut disk = Disk::new();
    disk.write("/tmp/app/package.json", 2);
    disk.write("/tmp/app/node_modules/dep.js", 100);

    let found = disk.scan(
        &["/tmp", "/tmp/app"],
        &vec![node_detector()],
        Options::default(),
    );
    assert_eq!(found.len(), 1, "{found:#?}");
}

#[test]
fn every_project_is_emitted_exactly_once() {
    let mut disk = Disk::new();
    for i in 0..12 {
        disk.write(&format!("/tmp/p{i}/package.json"), 2);
        disk.write(&format!("/tmp/p{i}/node_modules/dep.js"), 100);
    }
    let found = disk.scan(&["/tmp"], &vec![node_detector()], Options::default());
    let mut roots: Vec<_> = found.iter().map(|p| p.root.clone()).collect();
    roots.sort();
    let before = roots.len();
    roots.dedup();
    assert_eq!(before, 12);
    assert_eq!(roots.len(), 12, "a project was emitted more than once");
}

#[test]
fn sizes_a_known_tree_exactly() {
    let tree = vec![
        directory(),
        file(1000, 1, 1),
        directory(),
        file(2500, 1, 2),
        directory(),
        file(12, 1, 3),
    ];
    let m = dir_size(&tree, false);
    assert_eq!(m.bytes, 3512);
    assert_eq!(m.unreadable, 0);
}

#[test]
fn empty_target_is_dropped_but_unmeasurable_one_is_kept() {
    assert!(!is_worth_reporting(Measured::default()));
    assert!(is_worth_reporting(Measured {
        unreadable: 3,
        ..Default::default()
    }));
    assert!(is_worth_reporting(Measured {
        bytes: 10,
        ..Default::default()
    }));
}

fn target(bytes: u64, shared_bytes: u64, rebuild_seconds: u32) -> Target {
    Target {
        path: "node_modules".into(),
        bytes,
        shared_bytes,
        unreadable: 0,
        restore_command: "pnpm install".into(),
        rebuild_seconds,
    }
}

#[test]
fn hardlinked_bytes_are_not_reclaimable() {
    let t = target(1000, 900, 10);
    assert_eq!(t.reclaimable_bytes(), 100);
}

#[test]
fn reclaimable_bytes_never_underflows() {
    // A sampled estimate could in principle overshoot the apparent size.
    assert_eq!(target(100, 500, 10).reclaimable_bytes(), 0);
}

#[test]
fn efficiency_ranks_on_reclaimable_not_apparent() {
    let pnpm = target(600_000_000, 540_000_000, 45); // 600 MB, 90% shared
    let venv = target(400_000_000, 0, 60); // 400 MB, all real

    assert!(
        pnpm.bytes > venv.bytes,
        "the pnpm tree does look bigger, which is the trap"
    );
    assert!(
        venv.efficiency() > pnpm.efficiency(),
        "but the venv is the better deal and must rank first"
    );
}

#[test]
fn efficiency_is_a_quotient_in_double_precision() {
    for (bytes, secs) in [
        (600_000_000u64, 45u32),
        (1, 3),
        (0, 7),
        (u64::MAX, 1),
        (12_345, 0),
        (999, u32::MAX),
    ] {
        let t = target(bytes, 0, secs);
        let expected = bytes as f64 / secs.max(1) as f64;
        assert_eq!(t.efficiency().to_bits(), expected.to_bits());
    }
}

#[test]
fn a_link_from_outside_makes_bytes_unreclaimable() {
    // The first file has a second link in a store elsewhere.
    let m = dir_size(&vec![directory(), file(4000, 2, 1), file(1000, 1, 2)], true);
    assert_eq!(m.bytes, 5000, "apparent size counts both");
    assert_eq!(
        m.shared_bytes, 4000,
        "the externally linked file frees nothing"
    );
    assert_eq!(m.unreadable, 0);
}

#[test]
fn links_wholly_inside_the_target_are_still_reclaimable() {
    let m = dir_size(
        &vec![
            directory(),
            directory(),
            file(3000, 2, 1),
            file(3000, 2, 1),
        ],
        true,
    );

    assert_eq!(m.bytes, 6000, "apparent size sees the file twice");
    assert_eq!(
        m.shared_bytes, 3000,
        "the duplicate counting is removed, but nothing is lost to an outside link"
    );
    assert_eq!(
        m.bytes - m.shared_bytes,
        3000,
        "deleting the directory really does return 3000 bytes"
    );
}

#[test]
fn plain_tree_reports_nothing_shared() {
    let m = dir_size(&vec![directory(), file(1000, 1, 1), file(2000, 1, 2)], true);
    assert_eq!(m.bytes, 3000);
    assert_eq!(m.shared_bytes, 0);
}

#[test]
fn skipping_the_link_check_reports_apparent_size_as_reclaimable() {
    let m = dir_size(&vec![directory(), file(4000, 2, 1)], false);
    assert_eq!(m.bytes, 4000);
    assert_eq!(m.shared_bytes, 0, "opted out, so no accounting was done");
}

#[test]
fn finds_project_and_names_its_targets() {
    let mut disk = Disk::new();
    disk.write("/tmp/app/package.json", 2);
    disk.write("/tmp/app/node_modules/dep.js", 4096);

    let projects = disk.scan(&["/tmp"], &vec![node_detector()], Options::default());

    assert_eq!(projects.len(), 1);
    assert_eq!(projects[0].ecosystem, "Node.js");
    assert_eq!(projects[0].targets.len(), 1);
    assert_eq!(projects[0].targets[0].bytes, 4096);
    assert!(projects[0].targets[0].path.ends_with("node_modules"));
}

#[test]
fn project_without_any_reclaimable_directory_is_not_reported() {
    let mut disk = Disk::new();
    disk.write("/tmp/app/package.json", 2);
    assert!(disk
        .scan(&["/tmp"], &vec![node_detector()], Options::default())
        .is_empty());
}

#[test]
fn aggressive_only_targets_need_the_flag() {
    let mut detector = node_detector();
    detector.reclaimable[0].aggressive_only = true;
    let detectors = vec![detector];

    let mut disk = Disk::new();
    disk.write("/tmp/app/package.json", 2);
    disk.write("/tmp/app/node_modules/dep.js", 1024);

    let off = Options::default();
    let on = Options {
        aggressive: true,
        ..Default::default()
    };
    assert!(disk.scan(&["/tmp"], &detectors, off).is_empty());
    assert_eq!(disk.scan(&["/tmp"], &detectors, on).len(), 1);
}

#[test]
fn unreadable_entries_are_counted_not_silently_dropped() {
    let locked = Entry::Seen {
        closed: true,
        kind: Kind::Other,
    };
    let m = dir_size(&vec![directory(), file(500, 1, 1), locked], false);
    assert_eq!(m.bytes, 500, "readable part still counted");
    assert!(m.unreadable > 0, "failure must be recorded, not discarded");
    assert!(is_worth_reporting(m));
}

#[test]
fn every_kind_of_failure_counts() {
    let blind = Entry::Seen {
        closed: false,
        kind: Kind::File {
            len: 70,
            facts: None,
        },
    };
    let bare = Entry::Seen {
        closed: true,
        kind: Kind::NoMetadata,
    };
    let tree = vec![Entry::Failed, blind, bare];
    let m = dir_size(&tree, true);
    assert_eq!((m.bytes, m.shared_bytes, m.unreadable), (70, 0, 4));
    let m = dir_size(&tree, false);
    assert_eq!((m.bytes, m.shared_bytes, m.unreadable), (70, 0, 3));
}

#[test]
fn files_on_different_volumes_are_different_files() {
    let on = |volume: u64| Entry::Seen {
        closed: false,
        kind: Kind::File {
            len: 10,
            facts: Some(Facts {
                links: 2,
                id: (volume, 7),
            }),
        },
    };
    assert_eq!(dir_size(&vec![on(1), on(2)], true).shared_bytes, 20);
    assert_eq!(dir_size(&vec![on(1), on(1)], true).shared_bytes, 10);
}

#[test]
fn events_come_in_order() {
    let mut disk = Disk::new();
    disk.write("/a/package.json", 2);
    disk.write("/a/node_modules/dep.js", 100);
    disk.write("/b/requirements.txt", 2);
    let events = disk.run(
        &["/b", "/a"],
        &vec![node_detector(), python_detector()],
        Options::default(),
    );
    let told: Vec<String> = events
        .iter()
        .map(|e| match e {
            Event::Found { root, ecosystem } => format!("found {root} {ecosystem}"),
            Event::Project(p) => format!("project {} {}", p.root, p.targets.len()),
            Event::Progress(p) => format!("{} dirs {} files", p.dirs, p.files),
        })
        .collect();
    assert_eq!(
        told,
        vec![
            "found /a Node.js",
            "1 dirs 1 files",
            "project /a 1",
            "found /b Python",
            "1 dirs 2 files",
            "1 dirs 2 files",
        ]
    );
}

#[test]
fn some_directories_are_never_walked() {
    let index = MarkerIndex::build(&vec![node_detector()]);
    let child = |name: &str| {
        Some(Child {
            name: name.to_string(),
            is_dir: true,
        })
    };
    let visit = index.visit(&vec![
        child(".git"),
        child("$RECYCLE.BIN"),
        child("System Volume Information"),
        child("node_modules"),
        None,
        child("src"),
    ]);
    assert_eq!(visit.matched, None);
    assert_eq!(visit.dirs, 5);
    assert_eq!(visit.keep, vec![false, false, false, true, false, true]);
    let visit = index.visit(&vec![child("node_modules"), child("package.json")]);
    assert_eq!(visit.matched, Some(0));
    assert_eq!(visit.keep, vec![false, true]);
}

#[test]
fn nested_targets_prune_their_first_directory() {
    let mut rust = node_detector();
    rust.markers = vec!["Cargo.toml".into()];
    rust.reclaimable[0].path = "target/debug".into();
    let index = MarkerIndex::build(&vec![rust]);
    let child = |name: &str, is_dir: bool| {
        Some(Child {
            name: name.to_string(),
            is_dir,
        })
    };
    let visit = index.visit(&vec![
        child("Cargo.toml", false),
        child("target", true),
        child("debug", true),
    ]);
    assert_eq!((visit.dirs, visit.files), (2, 1));
    assert_eq!(visit.keep, vec![true, false, true]);
}

#[test]
fn roots_inside_roots_are_dropped() {
    let kept = |roots: &[&str]| -> Vec<String> {
        independent_roots(&roots.iter().map(|r| r.to_string()).collect())
    };
    assert_eq!(kept(&["/b", "/a/c", "/a", "/ab"]), vec!["/a", "/ab", "/b"]);
    assert_eq!(kept(&["/a/", "/a", "/a/."]), vec!["/a/"]);
    assert_eq!(kept(&["x", "/x", "../x", "./x"]), vec!["/x", "./x", "../x", "x"]);
    assert_eq!(kept(&["/a/b", "/a", "/a/b/c"]), vec!["/a"]);
    assert!(kept(&[]).is_empty());
}

#[test]
fn sums_over_a_project() {
    let mut a = target(1000, 900, 10);
    a.unreadable = 2;
    let p = Project {
        root: "/p".into(),
        ecosystem: "Node.js".into(),
        git_state: GitState::Clean,
        targets: vec![a, target(50, 0, 1)],
    };
    assert_eq!(p.reclaimable_bytes(), 150);
    assert_eq!(p.shared_bytes(), 900);
    assert_eq!(p.unreadable(), 2);
}
