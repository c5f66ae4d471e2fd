//! Going through with a deletion, on directories that exist only in memory.
use forcefree::chart::DEFAULT_WORTH_RATE;
use forcefree::deletion::{execute, run, Order, Reclaim, Report};
use forcefree::git::GitState;
use forcefree::reclaim::{is_agreed, is_contained, plan, Outcome};
use forcefree::report::{render, row_label};
use forcefree::scan::{Project, Target};

const MB: u64 = 1_048_576;

fn target(path: &str, mb: u64, secs: u32) -> Target {
    Target {
        path: path.to_string(),
        bytes: mb * MB,
        shared_bytes: 0,
        unreadable: 0,
        restore_command: "npm ci".into(),
        rebuild_seconds: secs,
    }
}

fn project(root: &str, state: GitState, targets: Vec<Target>) -> Project {
    Project {
        root: root.to_string(),
        ecosystem: "Node.js".into(),
        git_state: state,
        targets,
    }
}

/// Two targets worth deleting, one that is not, and one that is not backed up.
fn projects() -> Vec<Project> {
    vec![
        project(
            "/a",
            GitState::Clean,
            vec![
                target("/a/node_modules", 900, 45),
                target("/a/slow", 100, 600),
            ],
        ),
        project(
            "/b",
            GitState::Dirty,
            vec![target("/b/node_modules", 800, 45)],
        ),
        project("/c", GitState::NotARepo, vec![target("/c/venv", 400, 10)]),
    ]
}

/// A disk on which some directories lead elsewhere and some cannot be removed.
#[derive(Default)]
struct Disk {
    answer: &'static str,
    moved: Vec<(&'static str, Option<&'static str>)>,
    stuck: Vec<&'static str>,
    asked: usize,
    removed: Vec<String>,
    out: Vec<String>,
    err: Vec<String>,
}

impl Disk {
    fn resolve(&self, path: &str) -> Option<String> {
        match self.moved.iter().find(|(p, _)| *p == path) {
            Some((_, to)) => to.map(|s| s.to_string()),
            None => Some(path.to_string()),
        }
    }

    fn carry_out(&mut self, mut r: Reclaim) -> Outcome {
        let mut report = Report::Done;
        loop {
            report = match r.advance(report) {
                Order::Say { out, err } => {
                    self.out.extend(out);
                    self.err.extend(err);
                    Report::Done
                }
                Order::Ask { prompt } => {
                    assert_eq!(prompt, "\nType 'yes' to continue: ");
                    self.asked += 1;
                    Report::Answered(self.answer.to_string())
                }
                Order::Resolve { root, path } => Report::Resolved {
                    root: self.resolve(&root),
                    path: self.resolve(&path),
                },
                Order::Remove { path } => {
                    if self.stuck.iter().any(|p| *p == path) {
                        Report::Failed("in use".to_string())
                    } else {
                        self.removed.push(path);
                        Report::Removed
                    }
                }
                Order::Finished => return r.outcome(),
            };
        }
    }
}

#[test]
fn a_plan_holds_what_is_above_the_line() {
    let ps = projects();
    let paths = |all: bool| -> Vec<String> {
        plan(&ps, DEFAULT_WORTH_RATE, all)
            .iter()
            .map(|d| d.target.path.clone())
            .collect()
    };
    assert_eq!(paths(false), vec!["/a/node_modules", "/c/venv"]);
    assert_eq!(paths(true), vec!["/a/node_modules", "/a/slow", "/c/venv"]);
}

#[test]
fn consent_removes_what_was_announced() {
    let ps = projects();
    let mut disk = Disk {
        answer: " yes\n",
        ..Default::default()
    };
    let outcome = disk.carry_out(run(&ps, false, DEFAULT_WORTH_RATE, false));
    assert_eq!(disk.asked, 1);
    assert_eq!(disk.removed, vec!["/a/node_modules", "/c/venv"]);
    assert_eq!(
        disk.out,
        vec![
            "",
            "About to delete 1.3 GB across 2 project(s).",
            "Restoring all of it would cost roughly 55s.",
            "1 project(s) will be skipped: uncommitted or unpushed work.",
            "  removed /a/node_modules (900.0 MB)",
            "  removed /c/venv (400.0 MB)",
            "",
            "Freed 1.3 GB.",
        ]
    );
    assert!(disk.err.is_empty());
    assert_eq!(
        (outcome.freed, outcome.removed, outcome.failures, outcome.refused),
        (1300 * MB, 2, 0, 0)
    );
}

#[test]
fn anything_but_yes_deletes_nothing() {
    let ps = projects();
    for answer in ["", "y", "no", "YES", "yes please", "\n"] {
        let mut disk = Disk {
            answer,
            ..Default::default()
        };
        let outcome = disk.carry_out(run(&ps, false, DEFAULT_WORTH_RATE, true));
        assert!(disk.removed.is_empty(), "{answer:?} was taken for consent");
        assert_eq!(disk.out.last().unwrap(), "Aborted. Nothing was deleted.");
        assert_eq!(outcome.freed, 0);
        assert!(!is_agreed(answer));
    }
    assert!(is_agreed("\tyes \r\n"));
}

#[test]
fn the_prompt_can_be_skipped() {
    let ps = projects();
    let mut disk = Disk::default();
    disk.carry_out(run(&ps, true, DEFAULT_WORTH_RATE, true));
    assert_eq!(disk.asked, 0);
    assert_eq!(disk.removed, vec!["/a/node_modules", "/a/slow", "/c/venv"]);
}

#[test]
fn nothing_eligible_is_said() {
    let ps = vec![project(
        "/b",
        GitState::Unpushed,
        vec![target("/b/x", 1, 1)],
    )];
    let mut disk = Disk::default();
    disk.carry_out(run(&ps, true, DEFAULT_WORTH_RATE, true));
    assert_eq!(
        disk.out,
        vec![
            "Nothing eligible to reclaim.",
            "1 project(s) skipped: uncommitted or unpushed work.",
        ]
    );
    assert!(disk.removed.is_empty());

    let none = vec![];
    let mut disk = Disk::default();
    disk.carry_out(run(&none, false, DEFAULT_WORTH_RATE, false));
    assert_eq!(disk.out, vec!["Nothing eligible to reclaim."]);
    assert_eq!(disk.asked, 0);
}

#[test]
fn what_is_not_worth_it_is_not_called_ineligible() {
    let ps = vec![project(
        "/a",
        GitState::Clean,
        vec![target("/a/slow", 100, 600), target("/a/slower", 50, 600)],
    )];
    let mut disk = Disk::default();
    disk.carry_out(run(&ps, true, DEFAULT_WORTH_RATE, false));
    assert_eq!(
        disk.out,
        vec!["Nothing is worth reclaiming: 2 target(s) below the break-even line.  --all to take them."]
    );
    assert!(disk.removed.is_empty());
    let mut disk = Disk::default();
    disk.carry_out(run(&ps, true, DEFAULT_WORTH_RATE, true));
    assert_eq!(disk.removed, vec!["/a/slow", "/a/slower"]);
}

#[test]
fn failures_are_told_and_counted() {
    let ps = projects();
    let mut disk = Disk {
        stuck: vec!["/c/venv"],
        ..Default::default()
    };
    let outcome = disk.carry_out(run(&ps, true, DEFAULT_WORTH_RATE, false));
    assert_eq!(disk.removed, vec!["/a/node_modules"]);
    assert_eq!(
        disk.err,
        vec![
            "  FAILED /c/venv: in use",
            "1 target(s) could not be removed (in use, or permissions).",
        ]
    );
    assert_eq!(disk.out.last().unwrap(), "Freed 900.0 MB.");
    assert_eq!((outcome.removed, outcome.failures), (1, 1));
}

#[test]
fn what_leads_out_of_its_project_is_refused() {
    let ps = projects();
    let mut disk = Disk {
        moved: vec![
            ("/c/venv", Some("/elsewhere/venv")),
            ("/a/node_modules", None),
        ],
        ..Default::default()
    };
    let outcome = disk.carry_out(run(&ps, true, DEFAULT_WORTH_RATE, true));
    assert_eq!(disk.removed, vec!["/a/slow"]);
    assert_eq!(
        disk.err,
        vec![
            "  REFUSED /a/node_modules: did not resolve inside its project",
            "  REFUSED /c/venv: did not resolve inside its project",
            "2 target(s) refused: did not resolve inside their project.",
        ]
    );
    assert_eq!((outcome.freed, outcome.refused), (100 * MB, 2));
}

#[test]
fn a_selection_is_carried_out_without_a_prompt() {
    let ps = projects();
    let rows = plan(&ps, DEFAULT_WORTH_RATE, false);
    let mut disk = Disk::default();
    let outcome = disk.carry_out(execute(rows));
    assert_eq!(disk.asked, 0);
    assert_eq!(disk.removed, vec!["/a/node_modules", "/c/venv"]);
    assert_eq!((outcome.freed, outcome.removed), (1300 * MB, 2));
}

#[test]
fn a_lower_bound_is_announced_as_one() {
    let mut ps = projects();
    ps[0].targets[0].unreadable = 3;
    let mut disk = Disk::default();
    disk.carry_out(run(&ps, true, DEFAULT_WORTH_RATE, false));
    assert_eq!(
        disk.out[1],
        "About to delete at least 1.3 GB across 2 project(s)."
    );
}

#[test]
fn only_shared_bytes_are_not_freed() {
    let mut ps = projects();
    ps[2].targets[0].shared_bytes = 300 * MB;
    let mut disk = Disk::default();
    let outcome = disk.carry_out(run(&ps, true, DEFAULT_WORTH_RATE, false));
    assert_eq!(outcome.freed, 1000 * MB);
}

#[test]
fn containment_is_by_whole_names() {
    let some = |s: &str| Some(s.to_string());
    assert!(is_contained(&some("/a"), &some("/a/b")));
    assert!(!is_contained(&some("/a"), &some("/ab")));
    assert!(!is_contained(&some("/a"), &some("/a")));
    assert!(!is_contained(&some("/a/b"), &some("/a")));
    assert!(!is_contained(&None, &some("/a/b")));
    assert!(!is_contained(&some("/a"), &None));
}

#[test]
fn what_is_planned_was_reported() {
    let ps = projects();
    for all in [false, true] {
        let page = render(&ps, DEFAULT_WORTH_RATE, "3", all, false);
        for d in plan(&ps, DEFAULT_WORTH_RATE, all) {
            let label = row_label(d.project, d.target);
            let at = page
                .iter()
                .position(|l| l.contains(&label))
                .expect("a doomed target is not in the report");
            assert!(page[at + 1].contains("npm ci"), "{}", page[at + 1]);
        }
    }
}
