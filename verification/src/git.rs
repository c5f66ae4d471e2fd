//! Git safety. This is the trust layer.
//!
//! Nothing is ever deleted inside a repository that has uncommitted changes or
//! unpushed commits. Two rules govern everything here.
//!
//!   1. **What counts is the enclosing worktree, not the project directory.** A
//!      project below a repository's root is as safe as the whole repository.
//!   2. **Unknown is never safe.** Where the state cannot be determined, the
//!      answer is [`GitState::Unknown`] and nothing is reclaimed.
//!
//! Asking git takes a process, which is not done here. [`RepoCache::state_for`]
//! is told what was answered and says what to ask next, or what the state is.
use crate::paths;
use crate::paths::{ancestors, components, join_path, starts_with, Component, Part};
use crate::text;
use crate::text::{is_blank, trim};
use vstd::prelude::*;
use vstd::string::*;

verus! {

#[derive(Debug, Clone, Copy, PartialEq, Eq, Structural)]
pub enum GitState {
    /// Not a git repository at all.
    NotARepo,
    /// Tracked files modified, or untracked files present.
    Dirty,
    /// Clean tree, but commits exist locally that no remote has.
    Unpushed,
    /// Clean and fully pushed. Everything here can be had again.
    Clean,
    /// There is a repository here but its state could not be read.
    Unknown,
}

impl GitState {
    /// Work that is backed up, or no repository.
    pub open spec fn safe(self) -> bool {
        self is Clean || self is NotARepo
    }

    /// How the state is shown.
    pub open spec fn label_text(self) -> Seq<char> {
        match self {
            GitState::NotARepo => "not a repo"@,
            GitState::Dirty => "uncommitted changes"@,
            GitState::Unpushed => "unpushed commits"@,
            GitState::Clean => "clean + pushed"@,
            GitState::Unknown => "git state unknown"@,
        }
    }

    /// Whether reclaimable targets here may be deleted.
    pub fn is_safe_to_reclaim(self) -> (r: bool)
        ensures
            r == self.safe(),
    {
        matches!(self, GitState::Clean | GitState::NotARepo)
    }

    pub fn label(self) -> (r: &'static str)
        ensures
            r@ == self.label_text(),
    {
        match self {
            GitState::NotARepo => "not a repo",
            GitState::Dirty => "uncommitted changes",
            GitState::Unpushed => "unpushed commits",
            GitState::Clean => "clean + pushed",
            GitState::Unknown => "git state unknown",
        }
    }
}

/// Something to find out. A command of git is run in the named directory; what it
/// printed counts only if it succeeded.
#[derive(Debug)]
pub enum Question {
    /// `git rev-parse --show-toplevel` in the project.
    Toplevel,
    /// Is there an entry called `.git` in the project or in any directory above?
    GitEntryAbove,
    /// `git status --porcelain` in the worktree.
    Status { toplevel: String },
    /// `git log --branches --not --remotes --oneline` in the worktree.
    Unpushed { toplevel: String },
}

/// What was found out, by the question that it answers.
#[derive(Debug)]
pub enum Answer {
    Toplevel(Option<String>),
    GitEntryAbove(bool),
    Status { toplevel: String, output: Option<String> },
    Unpushed { toplevel: String, output: Option<String> },
}

/// What comes after an answer.
#[derive(Debug)]
pub enum Step {
    Ask(Question),
    Settled(GitState),
}

/// The content of a [`Step`].
pub enum StepView {
    AskGitEntryAbove,
    AskStatus(Seq<char>),
    AskUnpushed(Seq<char>),
    AskToplevel,
    Settled(GitState),
}

impl View for Step {
    type V = StepView;

    open spec fn view(&self) -> StepView {
        match self {
            Step::Ask(Question::Toplevel) => StepView::AskToplevel,
            Step::Ask(Question::GitEntryAbove) => StepView::AskGitEntryAbove,
            Step::Ask(Question::Status { toplevel }) => StepView::AskStatus(toplevel@),
            Step::Ask(Question::Unpushed { toplevel }) => StepView::AskUnpushed(toplevel@),
            Step::Settled(s) => StepView::Settled(*s),
        }
    }
}

/// The text of an optional output.
pub open spec fn output_text(o: Option<String>) -> Option<Seq<char>> {
    match o {
        Some(s) => Some(s@),
        None => None,
    }
}

impl Question {
    /// The arguments for git, where the question is one for git.
    pub open spec fn argument_texts(self) -> Seq<Seq<char>> {
        match self {
            Question::Toplevel => seq!["rev-parse"@, "--show-toplevel"@],
            Question::GitEntryAbove => Seq::empty(),
            Question::Status { .. } => seq!["status"@, "--porcelain"@],
            Question::Unpushed { .. } => seq![
                "log"@,
                "--branches"@,
                "--not"@,
                "--remotes"@,
                "--oneline"@,
            ],
        }
    }

    /// The arguments for git, where the question is one for git.
    pub fn arguments(&self) -> (r: Vec<&'static str>)
        ensures
            r@.map_values(|s: &'static str| s@) == self.argument_texts(),
    {
        let mut r: Vec<&'static str> = Vec::new();
        match self {
            Question::Toplevel => {
                r.push("rev-parse");
                r.push("--show-toplevel");
            },
            Question::GitEntryAbove => {},
            Question::Status { .. } => {
                r.push("status");
                r.push("--porcelain");
            },
            Question::Unpushed { .. } => {
                r.push("log");
                r.push("--branches");
                r.push("--not");
                r.push("--remotes");
                r.push("--oneline");
            },
        }
        assert(r@.map_values(|s: &'static str| s@) =~= self.argument_texts());
        r
    }
}

/// The root of the worktree, from what `rev-parse` printed.
pub fn worktree_root(output: &Option<String>) -> (r: Option<String>)
    ensures
        r is Some <==> output is Some,
        r matches Some(t) ==> t@ == text::trimmed(output->0@),
{
    match output {
        Some(s) => Some(trim(s.as_str())),
        None => None,
    }
}

/// Where an entry called `.git` would stand in a project or in any directory
/// above it. Whether one does is what tells "git says this is not a repository"
/// apart from "git could not be asked at all".
pub fn git_entry_candidates(start: &str) -> (r: Vec<String>)
    ensures
        r@.len() == paths::depth(start@),
        forall|i: int|
            0 <= i < r@.len() ==> paths::parts((#[trigger] r@[i])@) == paths::parts(start@).take(
                paths::parts(start@).len() - i,
            ).push(Part::Name(".git"@)),
{
    let dirs = ancestors(start);
    let ghost p = paths::parts(start@);
    let mut r: Vec<String> = Vec::new();
    let mut i: usize = 0;
    while i < dirs.len()
        invariant
            i <= dirs@.len(),
            r@.len() == i,
            p == paths::parts(start@),
            forall|k: int|
                0 <= k < dirs@.len() ==> paths::parts((#[trigger] dirs@[k])@) == p.take(
                    p.len() - k,
                ),
            forall|k: int|
                0 <= k < r@.len() ==> paths::parts((#[trigger] r@[k])@) == p.take(
                    p.len() - k,
                ).push(Part::Name(".git"@)),
        decreases dirs@.len() - i,
    {
        r.push(join_path(dirs[i].as_str(), ".git"));
        proof {
            reveal_strlit(".git");
            assert(paths::plain_name(".git"@)) by {
                assert(".git"@.len() != seq!['.'].len());
                assert(".git"@.len() != seq!['.', '.'].len());
            }
            paths::parts_of_plain_name(".git"@);
            paths::parts_of_joined(dirs@[i as int]@, ".git"@);
            assert(paths::parts(r@[i as int]@) =~= p.take(p.len() - i).push(
                Part::Name(".git"@),
            ));
        }
        i = i + 1;
    }
    r
}

/// The state where no worktree is known. Only a directory with no `.git` above it
/// is known not to be in a repository.
pub fn unresolved_state(has_git_entry_above: bool) -> (r: GitState)
    ensures
        r == if has_git_entry_above {
            GitState::Unknown
        } else {
            GitState::NotARepo
        },
{
    if has_git_entry_above {
        GitState::Unknown
    } else {
        GitState::NotARepo
    }
}

/// The state that the status of a worktree already settles, if it does.
pub open spec fn status_verdict(status: Option<Seq<char>>) -> Option<GitState> {
    match status {
        None => Some(GitState::Unknown),
        Some(s) => if text::blank(s) {
            None
        } else {
            Some(GitState::Dirty)
        },
    }
}

/// The state of a worktree whose status shows nothing.
pub open spec fn unpushed_verdict(log: Option<Seq<char>>) -> GitState {
    match log {
        None => GitState::Unknown,
        Some(s) => if text::blank(s) {
            GitState::Clean
        } else {
            GitState::Unpushed
        },
    }
}

/// The state of a worktree, from its status and the commits that no remote has.
pub open spec fn worktree_verdict(status: Option<Seq<char>>, log: Option<Seq<char>>) -> GitState {
    match status_verdict(status) {
        Some(s) => s,
        None => unpushed_verdict(log),
    }
}

/// What the status of a worktree settles, if it does.
pub fn state_after_status(status: &Option<String>) -> (r: Option<GitState>)
    ensures
        r == status_verdict(output_text(*status)),
{
    match status {
        None => Some(GitState::Unknown),
        Some(s) => if is_blank(s.as_str()) {
            None
        } else {
            Some(GitState::Dirty)
        },
    }
}

/// The state of a worktree, from its status and the commits that no remote has.
/// The second is only looked at where the first leaves the matter open.
pub fn state_of_worktree(status: &Option<String>, log: &Option<String>) -> (r: GitState)
    ensures
        r == worktree_verdict(output_text(*status), output_text(*log)),
{
    match state_after_status(status) {
        Some(s) => s,
        None => match log {
            None => GitState::Unknown,
            Some(s) => if is_blank(s.as_str()) {
                GitState::Clean
            } else {
                GitState::Unpushed
            },
        },
    }
}

/// What a list of entries maps each place to.
pub open spec fn table(entries: Seq<(Vec<Component>, GitState)>) -> Map<Seq<Part>, GitState>
    decreases entries.len(),
{
    if entries.len() == 0 {
        Map::empty()
    } else {
        table(entries.drop_last()).insert(paths::views(entries.last().0@), entries.last().1)
    }
}

/// Repository state by worktree root.
///
/// A repository can hold many projects and they all share one answer, so git is
/// asked about a worktree only once.
#[derive(Debug)]
pub struct RepoCache {
    by_toplevel: Vec<(Vec<Component>, GitState)>,
}

impl View for RepoCache {
    type V = Map<Seq<Part>, GitState>;

    closed spec fn view(&self) -> Map<Seq<Part>, GitState> {
        table(self.by_toplevel@)
    }
}

/// What is known and what comes next, after an answer.
pub open spec fn after_answer(
    known: Map<Seq<Part>, GitState>,
    answer: Answer,
) -> (Map<Seq<Part>, GitState>, StepView) {
    match answer {
        Answer::Toplevel(None) => (known, StepView::AskGitEntryAbove),
        Answer::Toplevel(Some(s)) => {
            let top = text::trimmed(s@);
            if known.contains_key(paths::parts(top)) {
                (known, StepView::Settled(known[paths::parts(top)]))
            } else {
                (known, StepView::AskStatus(top))
            }
        },
        Answer::GitEntryAbove(found) => (
            known,
            StepView::Settled(
                if found {
                    GitState::Unknown
                } else {
                    GitState::NotARepo
                },
            ),
        ),
        Answer::Status { toplevel, output } => match status_verdict(output_text(output)) {
            Some(s) => (known.insert(paths::parts(toplevel@), s), StepView::Settled(s)),
            None => (known, StepView::AskUnpushed(toplevel@)),
        },
        Answer::Unpushed { toplevel, output } => {
            let s = unpushed_verdict(output_text(output));
            (known.insert(paths::parts(toplevel@), s), StepView::Settled(s))
        },
    }
}

impl Default for RepoCache {
    fn default() -> (r: Self)
        ensures
            r@ == Map::<Seq<Part>, GitState>::empty(),
    {
        RepoCache { by_toplevel: Vec::new() }
    }
}

proof fn lemma_table_last(entries: Seq<(Vec<Component>, GitState)>, i: int)
    requires
        0 <= i < entries.len(),
        forall|k: int|
            i < k < entries.len() ==> paths::views(#[trigger] entries[k].0@) != paths::views(
                entries[i].0@,
            ),
    ensures
        table(entries).contains_key(paths::views(entries[i].0@)),
        table(entries)[paths::views(entries[i].0@)] == entries[i].1,
    decreases entries.len(),
{
    if i < entries.len() - 1 {
        assert(paths::views(entries[entries.len() - 1].0@) != paths::views(entries[i].0@));
        let shorter = entries.drop_last();
        assert forall|k: int| i < k < shorter.len() implies paths::views(#[trigger] shorter[k].0@)
            != paths::views(shorter[i].0@) by {
            assert(shorter[k] == entries[k]);
        }
        lemma_table_last(shorter, i);
    }
}

proof fn lemma_table_lacks(entries: Seq<(Vec<Component>, GitState)>, key: Seq<Part>)
    requires
        forall|k: int|
            0 <= k < entries.len() ==> paths::views(#[trigger] entries[k].0@) != key,
    ensures
        !table(entries).contains_key(key),
    decreases entries.len(),
{
    if entries.len() > 0 {
        assert(paths::views(entries[entries.len() - 1].0@) != key);
        let shorter = entries.drop_last();
        assert forall|k: int| 0 <= k < shorter.len() implies paths::views(#[trigger] shorter[k].0@)
            != key by {
            assert(shorter[k] == entries[k]);
        }
        lemma_table_lacks(shorter, key);
    }
}

impl RepoCache {
    fn recall(&self, place: &Vec<Component>) -> (r: Option<GitState>)
        ensures
            r is Some <==> self@.contains_key(paths::views(place@)),
            r matches Some(s) ==> s == self@[paths::views(place@)],
    {
        let ghost key = paths::views(place@);
        let mut i: usize = self.by_toplevel.len();
        while i > 0
            invariant
                i <= self.by_toplevel@.len(),
                key == paths::views(place@),
                forall|k: int|
                    i <= k < self.by_toplevel@.len() ==> paths::views(
                        #[trigger] self.by_toplevel@[k].0@,
                    ) != key,
            decreases i,
        {
            i = i - 1;
            let known = &self.by_toplevel[i].0;
            if known.len() == place.len() && starts_with(known, place) {
                proof {
                    assert(paths::views(known@).take(place@.len() as int) =~= paths::views(known@));
                    lemma_table_last(self.by_toplevel@, i as int);
                }
                return Some(self.by_toplevel[i].1);
            }
            proof {
                if paths::views(known@) == key {
                    assert(known@.len() == paths::views(known@).len());
                    assert(place@.len() == key.len());
                    assert(paths::views(known@).take(place@.len() as int) =~= key);
                }
            }
        }
        proof {
            lemma_table_lacks(self.by_toplevel@, key);
        }
        None
    }

    fn remember(&mut self, place: Vec<Component>, state: GitState)
        ensures
            final(self)@ == old(self)@.insert(paths::views(place@), state),
    {
        self.by_toplevel.push((place, state));
        assert(self.by_toplevel@.drop_last() =~= old(self).by_toplevel@);
    }

    /// Takes one answer and says what to ask next, or what the state is. The
    /// first question about a project is always [`Question::Toplevel`].
    pub fn state_for(&mut self, answer: Answer) -> (r: Step)
        ensures
            (final(self)@, r@) == after_answer(old(self)@, answer),
    {
        match answer {
            Answer::Toplevel(output) => match worktree_root(&output) {
                None => Step::Ask(Question::GitEntryAbove),
                Some(toplevel) => {
                    let place = components(toplevel.as_str());
                    match self.recall(&place) {
                        Some(s) => Step::Settled(s),
                        None => Step::Ask(Question::Status { toplevel }),
                    }
                },
            },
            Answer::GitEntryAbove(found) => Step::Settled(unresolved_state(found)),
            Answer::Status { toplevel, output } => match state_after_status(&output) {
                Some(s) => {
                    self.remember(components(toplevel.as_str()), s);
                    Step::Settled(s)
                },
                None => Step::Ask(Question::Unpushed { toplevel }),
            },
            Answer::Unpushed { toplevel, output } => {
                let quiet: Option<String> = Some(String::new());
                let s = state_of_worktree(&quiet, &output);
                self.remember(components(toplevel.as_str()), s);
                Step::Settled(s)
            },
        }
    }
}

/// What git and the filesystem would answer about one project.
pub struct World {
    pub toplevel: Option<String>,
    pub git_entry_above: bool,
    pub status: Option<String>,
    pub unpushed: Option<String>,
}

/// The answer to whatever was asked.
pub open spec fn reply(world: World, step: StepView, toplevel: String) -> Answer {
    match step {
        StepView::AskGitEntryAbove => Answer::GitEntryAbove(world.git_entry_above),
        StepView::AskStatus(_) => Answer::Status { toplevel, output: world.status },
        StepView::AskUnpushed(_) => Answer::Unpushed { toplevel, output: world.unpushed },
        _ => Answer::Toplevel(world.toplevel),
    }
}

/// Answers whatever is asked until the state is settled, at most `fuel` times.
pub open spec fn inquire(
    known: Map<Seq<Part>, GitState>,
    step: StepView,
    world: World,
    toplevel: String,
    fuel: nat,
) -> (Map<Seq<Part>, GitState>, StepView)
    decreases fuel,
{
    if fuel == 0 || step is Settled {
        (known, step)
    } else {
        let (known, step) = after_answer(known, reply(world, step, toplevel));
        inquire(known, step, world, toplevel, (fuel - 1) as nat)
    }
}

/// What the state of a project is, given what is known of worktrees already.
pub open spec fn verdict(known: Map<Seq<Part>, GitState>, world: World) -> GitState {
    match world.toplevel {
        None => if world.git_entry_above {
            GitState::Unknown
        } else {
            GitState::NotARepo
        },
        Some(s) => {
            let place = paths::parts(text::trimmed(s@));
            if known.contains_key(place) {
                known[place]
            } else {
                worktree_verdict(output_text(world.status), output_text(world.unpushed))
            }
        },
    }
}

/// Whatever git answers, at most three answers settle the state, and it is the
/// state that the answers stand for. The worktree is remembered with it.
pub proof fn inquiry_reaches_the_verdict(
    known: Map<Seq<Part>, GitState>,
    world: World,
    toplevel: String,
)
    requires
        world.toplevel matches Some(s) ==> toplevel@ == text::trimmed(s@),
    ensures
        ({
            let (after, step) = inquire(known, StepView::AskToplevel, world, toplevel, 3);
            &&& step == StepView::Settled(verdict(known, world))
            &&& world.toplevel is None ==> after == known
            &&& world.toplevel matches Some(s) ==> after == known.insert(
                paths::parts(text::trimmed(s@)),
                verdict(known, world),
            )
        }),
{
    reveal_with_fuel(inquire, 4);
    let (after, step) = inquire(known, StepView::AskToplevel, world, toplevel, 3);
    if let Some(s) = world.toplevel {
        let place = paths::parts(text::trimmed(s@));
        if known.contains_key(place) {
            assert(known.insert(place, known[place]) =~= known);
        }
    }
}

/// A worktree that is known is not asked about again: the answer to the first
/// question settles the state, and it is the one that was found before.
pub proof fn known_worktrees_are_not_asked_again(
    known: Map<Seq<Part>, GitState>,
    first: World,
    second: World,
    toplevel: String,
)
    requires
        first.toplevel is Some,
        second.toplevel is Some,
        toplevel@ == text::trimmed(first.toplevel->0@),
        paths::same_place(
            text::trimmed(first.toplevel->0@),
            text::trimmed(second.toplevel->0@),
        ),
    ensures
        ({
            let (after, step) = inquire(known, StepView::AskToplevel, first, toplevel, 3);
            after_answer(after, Answer::Toplevel(second.toplevel)) == (after, step)
        }),
{
    inquiry_reaches_the_verdict(known, first, toplevel);
}

/// A project is only ever found safe in two ways: there is no worktree and no
/// `.git` above it, or its worktree was read in full and shows neither changes
/// nor commits that no remote has.
pub proof fn safe_means_backed_up_or_no_repository(world: World)
    ensures
        verdict(Map::empty(), world).safe() <==> {
            ||| world.toplevel is None && !world.git_entry_above
            ||| world.toplevel is Some && world.status is Some && text::blank(world.status->0@)
                && world.unpushed is Some && text::blank(world.unpushed->0@)
        },
{
}

/// Some output shows something.
pub open spec fn says_something(o: Option<String>) -> bool {
    o matches Some(s) && exists|i: int| 0 <= i < s@.len() && text::visible(#[trigger] s@[i])
}

/// Some output came back and shows nothing.
pub open spec fn says_nothing(o: Option<String>) -> bool {
    o matches Some(s) && forall|i: int| 0 <= i < s@.len() ==> text::spacing(#[trigger] s@[i])
}

/// A worktree that is not known yet is judged by what git shows: anything in its status
/// makes it dirty, else anything in the log makes it unpushed, and it is clean only where
/// both came back with nothing. Where one that is needed does not come back, nothing is
/// known. Without a worktree, a `.git` above tells "unknown" from "no repository".
pub proof fn the_state_is_what_git_shows(known: Map<Seq<Part>, GitState>, world: World)
    requires
        world.toplevel matches Some(s) ==> !known.contains_key(
            paths::parts(text::trimmed(s@)),
        ),
    ensures
        world.toplevel is Some ==> {
            let state = verdict(known, world);
            &&& world.status is None ==> state == GitState::Unknown
            &&& says_something(world.status) ==> state == GitState::Dirty
            &&& says_nothing(world.status) && world.unpushed is None ==> state
                == GitState::Unknown
            &&& says_nothing(world.status) && says_something(world.unpushed) ==> state
                == GitState::Unpushed
            &&& says_nothing(world.status) && says_nothing(world.unpushed) ==> state
                == GitState::Clean
        },
        world.toplevel is None && world.git_entry_above ==> verdict(known, world)
            == GitState::Unknown,
        world.toplevel is None && !world.git_entry_above ==> verdict(known, world)
            == GitState::NotARepo,
{
    if world.status is Some {
        text::what_can_be_seen_is_not_blank(world.status->0@);
    }
    if world.unpushed is Some {
        text::what_can_be_seen_is_not_blank(world.unpushed->0@);
    }
}

/// A worktree that is known keeps its state, whatever git would show of it now.
pub proof fn a_known_worktree_keeps_its_state(known: Map<Seq<Part>, GitState>, world: World)
    requires
        world.toplevel is Some,
        known.contains_key(paths::parts(text::trimmed(world.toplevel->0@))),
    ensures
        verdict(known, world) == known[paths::parts(text::trimmed(world.toplevel->0@))],
{
}

/// Work may be touched only where all of it is somewhere else as well: there is no
/// repository, or nothing is uncommitted or unpushed.
pub proof fn only_backed_up_work_is_safe(s: GitState)
    ensures
        s.safe() <==> !(s is Dirty) && !(s is Unpushed) && !(s is Unknown),
{
}

/// What is not pushed is asked for on every branch, against every remote.
pub proof fn every_branch_is_asked_about(q: Question)
    requires
        q is Unpushed,
    ensures
        q.argument_texts()[0] == "log"@,
        q.argument_texts().contains("--branches"@),
        exists|k: int|
            0 <= k < q.argument_texts().len() - 1 && #[trigger] q.argument_texts()[k] == "--not"@
                && q.argument_texts()[k + 1] == "--remotes"@,
{
    let a = q.argument_texts();
    assert(a[1] == "--branches"@);
    assert(a[2] == "--not"@ && a[3] == "--remotes"@);
}

} // verus!
