//! The trust layer.
use forcefree::git::{git_entry_candidates, Answer, GitState, Question, RepoCache, Step};

#[test]
fn unresolvable_states_are_never_reclaimable() {
    assert!(!GitState::Dirty.is_safe_to_reclaim());
    assert!(!GitState::Unpushed.is_safe_to_reclaim());
    assert!(!GitState::Unknown.is_safe_to_reclaim());
    assert!(GitState::Clean.is_safe_to_reclaim());
}

/// What git and the filesystem say about one directory.
struct Said {
    toplevel: Option<&'static str>,
    entry_above: bool,
    status: Option<&'static str>,
    unpushed: Option<&'static str>,
}

/// Answers every question and counts them.
fn inspect(cache: &mut RepoCache, said: &Said) -> (GitState, usize) {
    let mut asked = 1;
    let mut step = cache.state_for(Answer::Toplevel(said.toplevel.map(|s| s.to_string())));
    loop {
        step = match step {
            Step::Settled(s) => return (s, asked),
            Step::Ask(Question::GitEntryAbove) => {
                cache.state_for(Answer::GitEntryAbove(said.entry_above))
            }
            Step::Ask(Question::Status { toplevel }) => cache.state_for(Answer::Status {
                toplevel,
                output: said.status.map(|s| s.to_string()),
            }),
            Step::Ask(Question::Unpushed { toplevel }) => cache.state_for(Answer::Unpushed {
                toplevel,
                output: said.unpushed.map(|s| s.to_string()),
            }),
            Step::Ask(Question::Toplevel) => unreachable!(),
        };
        asked += 1;
    }
}

fn repo(status: Option<&'static str>, unpushed: Option<&'static str>) -> Said {
    Said {
        toplevel: Some("/repo\n"),
        entry_above: true,
        status,
        unpushed,
    }
}

#[test]
fn the_state_follows_from_what_git_says() {
    let fresh = |said: &Said| inspect(&mut RepoCache::default(), said);
    assert_eq!(
        fresh(&repo(Some(" M main.py\n"), Some(""))),
        (GitState::Dirty, 2)
    );
    assert_eq!(
        fresh(&repo(Some("\n"), Some("abc123 work\n"))),
        (GitState::Unpushed, 3)
    );
    assert_eq!(fresh(&repo(Some(""), Some(""))), (GitState::Clean, 3));
    assert_eq!(fresh(&repo(None, Some(""))), (GitState::Unknown, 2));
    assert_eq!(fresh(&repo(Some(""), None)), (GitState::Unknown, 3));
}

#[test]
fn without_a_worktree_the_entries_above_decide() {
    let outside = |entry_above: bool| Said {
        toplevel: None,
        entry_above,
        status: Some(""),
        unpushed: Some(""),
    };
    let fresh = |said: &Said| inspect(&mut RepoCache::default(), said).0;
    assert_eq!(fresh(&outside(true)), GitState::Unknown);
    assert_eq!(fresh(&outside(false)), GitState::NotARepo);
}

#[test]
fn a_worktree_is_asked_about_once() {
    let mut cache = RepoCache::default();
    let dirty = repo(Some("?? b.txt\n"), Some(""));
    assert_eq!(inspect(&mut cache, &dirty), (GitState::Dirty, 2));
    // The second answer comes from what is known, spelled differently or not.
    assert_eq!(inspect(&mut cache, &dirty), (GitState::Dirty, 1));
    let again = Said {
        toplevel: Some("  /repo/  "),
        entry_above: true,
        status: None,
        unpushed: None,
    };
    assert_eq!(inspect(&mut cache, &again), (GitState::Dirty, 1));
    let other = Said {
        toplevel: Some("/repo2"),
        entry_above: true,
        status: Some(""),
        unpushed: Some(""),
    };
    assert_eq!(inspect(&mut cache, &other), (GitState::Clean, 3));
}

#[test]
fn git_is_asked_with_these_arguments() {
    let top = || "/r".to_string();
    assert_eq!(
        Question::Toplevel.arguments(),
        vec!["rev-parse", "--show-toplevel"]
    );
    assert_eq!(
        Question::Status { toplevel: top() }.arguments(),
        vec!["status", "--porcelain"]
    );
    assert_eq!(
        Question::Unpushed { toplevel: top() }.arguments(),
        vec!["log", "--branches", "--not", "--remotes", "--oneline"]
    );
    assert!(Question::GitEntryAbove.arguments().is_empty());
}

#[test]
fn a_git_entry_may_stand_in_any_directory_above() {
    assert_eq!(
        git_entry_candidates("/home/me/app"),
        vec!["/home/me/app/.git", "/home/me/.git", "/home/.git", "/.git"]
    );
}

#[test]
fn states_have_their_labels() {
    assert_eq!(GitState::NotARepo.label(), "not a repo");
    assert_eq!(GitState::Dirty.label(), "uncommitted changes");
    assert_eq!(GitState::Unpushed.label(), "unpushed commits");
    assert_eq!(GitState::Clean.label(), "clean + pushed");
    assert_eq!(GitState::Unknown.label(), "git state unknown");
}

/// A worktree and what git says of it.
struct Worktree {
    toplevel: &'static str,
    status: &'static str,
    unpushed: &'static str,
}

/// The git entries of a disk, and the worktrees among them that git can read.
struct Repos {
    entries: Vec<&'static str>,
    worktrees: Vec<Worktree>,
}

impl Repos {
    fn of(worktree: Worktree) -> Self {
        Repos {
            entries: vec![],
            worktrees: vec![worktree],
        }
    }

    fn worktree(&self, toplevel: &str) -> &Worktree {
        self.worktrees.iter().find(|w| w.toplevel == toplevel).unwrap()
    }

    /// What git would print if asked for the worktree that a directory is in.
    fn toplevel(&self, dir: &str) -> Option<String> {
        self.worktrees
            .iter()
            .filter(|w| dir == w.toplevel || dir.starts_with(&format!("{}/", w.toplevel)))
            .max_by_key(|w| w.toplevel.len())
            .map(|w| format!("{}\n", w.toplevel))
    }

    fn entry_above(&self, dir: &str) -> bool {
        git_entry_candidates(dir)
            .iter()
            .any(|c| self.entries.iter().any(|e| e == c))
    }

    /// Puts the questions of a cache to git until the state is settled.
    fn ask(&self, cache: &mut RepoCache, dir: &str) -> GitState {
        let mut step = cache.state_for(Answer::Toplevel(self.toplevel(dir)));
        loop {
            let answer = match step {
                Step::Settled(state) => return state,
                Step::Ask(Question::Toplevel) => Answer::Toplevel(self.toplevel(dir)),
                Step::Ask(Question::GitEntryAbove) => {
                    Answer::GitEntryAbove(self.entry_above(dir))
                }
                Step::Ask(Question::Status { toplevel }) => {
                    let output = Some(self.worktree(&toplevel).status.to_string());
                    Answer::Status { toplevel, output }
                }
                Step::Ask(Question::Unpushed { toplevel }) => {
                    let output = Some(self.worktree(&toplevel).unpushed.to_string());
                    Answer::Unpushed { toplevel, output }
                }
            };
            step = cache.state_for(answer);
        }
    }

    /// Nothing is known beforehand.
    fn inspect(&self, dir: &str) -> GitState {
        self.ask(&mut RepoCache::default(), dir)
    }
}

/// A project below the root of a repository is as safe as the repository.
#[test]
fn nested_project_in_dirty_repo_is_blocked() {
    let repos = Repos::of(Worktree {
        toplevel: "/tmp/repo",
        status: "?? thesis.txt\n",
        unpushed: "1a2b3c4 init\n",
    });
    let state = repos.inspect("/tmp/repo/services/api");
    assert_eq!(state, GitState::Dirty);
    assert!(!state.is_safe_to_reclaim());
}

#[test]
fn nested_project_in_clean_pushed_repo_is_clean() {
    let repos = Repos::of(Worktree {
        toplevel: "/tmp/work",
        status: "",
        unpushed: "",
    });
    let state = repos.inspect("/tmp/work/services/api");
    assert_eq!(state, GitState::Clean);
    assert!(state.is_safe_to_reclaim());
}

#[test]
fn repo_root_dirty_is_blocked() {
    let repos = Repos::of(Worktree {
        toplevel: "/tmp/repo",
        status: " M main.py\n",
        unpushed: "1a2b3c4 init\n",
    });
    assert_eq!(repos.inspect("/tmp/repo"), GitState::Dirty);
}

/// There is a `.git`, and git finds no worktree.
#[test]
fn corrupt_git_dir_is_unknown_not_safe() {
    let repos = Repos {
        entries: vec!["/tmp/broken/.git"],
        worktrees: vec![],
    };
    let state = repos.inspect("/tmp/broken");
    assert_eq!(state, GitState::Unknown);
    assert!(!state.is_safe_to_reclaim());
}

#[test]
fn plain_directory_is_not_a_repo() {
    let repos = Repos {
        entries: vec!["/tmp/broken/.git"],
        worktrees: vec![],
    };
    assert_eq!(repos.inspect("/tmp/plain"), GitState::NotARepo);
}

#[test]
fn cache_agrees_with_uncached_inspection() {
    let repos = Repos::of(Worktree {
        toplevel: "/tmp/repo",
        status: "?? b.txt\n",
        unpushed: "1a2b3c4 init\n",
    });
    let nested = "/tmp/repo/services/api";
    let mut cache = RepoCache::default();
    // Asked twice, so the second answer comes from what is known already.
    assert_eq!(repos.ask(&mut cache, nested), repos.inspect(nested));
    assert_eq!(repos.ask(&mut cache, nested), GitState::Dirty);
}
