//! Scanning: which projects there are, and what is reclaimable in them.
//!
//! Walking trees, asking git and measuring directories is done by whoever runs the
//! scan. A [`Scan`] says what to do next and is told what came of it, one
//! [`Request`] and one [`Reply`] at a time, and asks along the way for the
//! [`Event`]s to be passed on that a caller watches a scan by. A project is
//! announced before anything in it is measured, so that there is something to show
//! long before the sizes are known.
use crate::binary64;
use crate::binary64::{divide, from_u64, Binary64};
use crate::detector::{Detector, Reclaimable};
use crate::git::GitState;
use crate::paths;
use crate::paths::join_path;
use crate::roots;
use crate::roots::independent_roots;
use crate::sizing::{is_worth_reporting, Measured};
use crate::text;
use vstd::prelude::*;
use vstd::string::*;

verus! {

/// One reclaimable directory that exists on disk, with its real size.
#[derive(Debug, Clone)]
pub struct Target {
    pub path: String,
    /// Apparent size.
    pub bytes: u64,
    /// Of `bytes`, how much would survive deletion or was counted twice.
    pub shared_bytes: u64,
    /// How often something could not be read while sizing. Above zero, `bytes` is
    /// a lower bound.
    pub unreadable: u32,
    pub restore_command: String,
    pub rebuild_seconds: u32,
}

/// The content of a [`Target`].
pub struct TargetView {
    pub path: Seq<char>,
    pub bytes: u64,
    pub shared_bytes: u64,
    pub unreadable: u32,
    pub restore_command: Seq<char>,
    pub rebuild_seconds: u32,
}

impl View for Target {
    type V = TargetView;

    open spec fn view(&self) -> TargetView {
        TargetView {
            path: self.path@,
            bytes: self.bytes,
            shared_bytes: self.shared_bytes,
            unreadable: self.unreadable,
            restore_command: self.restore_command@,
            rebuild_seconds: self.rebuild_seconds,
        }
    }
}

impl TargetView {
    /// What deleting the target returns to the filesystem.
    pub open spec fn reclaimable(self) -> u64 {
        if self.bytes >= self.shared_bytes {
            (self.bytes - self.shared_bytes) as u64
        } else {
            0
        }
    }

    /// Bytes reclaimed per second of rebuild time, where a rebuild takes a second
    /// at least.
    pub open spec fn efficiency(self) -> Binary64 {
        binary64::quotient(
            binary64::of_nat(self.reclaimable() as nat),
            binary64::of_nat(
                if self.rebuild_seconds >= 1 {
                    self.rebuild_seconds as nat
                } else {
                    1
                },
            ),
        )
    }
}

impl TargetView {
    /// The efficiency of a target is a number that can be held.
    pub proof fn lemma_efficiency_is_valid(self)
        ensures
            self.efficiency().valid(),
            self.efficiency().bits() <= u64::MAX,
            self.efficiency().bits() >= 0,
    {
        let seconds = if self.rebuild_seconds >= 1 {
            self.rebuild_seconds as nat
        } else {
            1
        };
        binary64::words_can_be_held(self.reclaimable() as nat);
        binary64::words_can_be_held(seconds);
        let a = binary64::of_nat(self.reclaimable() as nat);
        let b = binary64::of_nat(seconds);
        binary64::quotients_can_be_held(a, b);
        if let Binary64::Normal { m, e } = self.efficiency() {
            assert(0 <= (e + 1074) * binary64::LEAST <= 2045 * binary64::LEAST) by (nonlinear_arith)
                requires
                    -1074 <= e <= 971,
            ;
        }
    }
}

impl Target {
    /// What deleting this returns to the filesystem. Bytes that are linked from
    /// elsewhere are not freed by it.
    pub fn reclaimable_bytes(&self) -> (r: u64)
        ensures
            r == self@.reclaimable(),
    {
        self.bytes.saturating_sub(self.shared_bytes)
    }

    /// Bytes reclaimed per second of rebuild time: what targets are ranked by.
    pub fn efficiency(&self) -> (r: Binary64)
        ensures
            r == self@.efficiency(),
            r.valid(),
    {
        let seconds: u32 = if self.rebuild_seconds >= 1 {
            self.rebuild_seconds
        } else {
            1
        };
        divide(from_u64(self.reclaimable_bytes()), from_u64(seconds as u64))
    }

    /// A copy.
    pub fn duplicate(&self) -> (r: Target)
        ensures
            r@ == self@,
    {
        Target {
            path: self.path.clone(),
            bytes: self.bytes,
            shared_bytes: self.shared_bytes,
            unreadable: self.unreadable,
            restore_command: self.restore_command.clone(),
            rebuild_seconds: self.rebuild_seconds,
        }
    }
}

/// A recognised project and everything reclaimable inside it.
#[derive(Debug, Clone)]
pub struct Project {
    pub root: String,
    pub ecosystem: String,
    pub git_state: GitState,
    pub targets: Vec<Target>,
}

/// The content of a [`Project`].
pub struct ProjectView {
    pub root: Seq<char>,
    pub ecosystem: Seq<char>,
    pub git_state: GitState,
    pub targets: Seq<TargetView>,
}

/// The contents of a list of targets.
pub open spec fn target_views(v: Seq<Target>) -> Seq<TargetView> {
    v.map_values(|t: Target| t@)
}

impl View for Project {
    type V = ProjectView;

    open spec fn view(&self) -> ProjectView {
        ProjectView {
            root: self.root@,
            ecosystem: self.ecosystem@,
            git_state: self.git_state,
            targets: target_views(self.targets@),
        }
    }
}

/// The contents of a list of projects.
pub open spec fn project_views(v: Seq<Project>) -> Seq<ProjectView> {
    v.map_values(|p: Project| p@)
}

/// What deleting all of these targets returns.
pub open spec fn reclaimable_sum(ts: Seq<TargetView>) -> nat
    decreases ts.len(),
{
    if ts.len() == 0 {
        0
    } else {
        reclaimable_sum(ts.drop_last()) + ts.last().reclaimable() as nat
    }
}

/// What in these targets would survive deletion or was counted twice.
pub open spec fn shared_sum(ts: Seq<TargetView>) -> nat
    decreases ts.len(),
{
    if ts.len() == 0 {
        0
    } else {
        shared_sum(ts.drop_last()) + ts.last().shared_bytes as nat
    }
}

/// How often something in these targets could not be read.
pub open spec fn unreadable_sum(ts: Seq<TargetView>) -> nat
    decreases ts.len(),
{
    if ts.len() == 0 {
        0
    } else {
        unreadable_sum(ts.drop_last()) + ts.last().unreadable as nat
    }
}

/// A sum over the first targets is not more than one over all of them.
pub proof fn lemma_target_sums_grow(ts: Seq<TargetView>, n: int)
    requires
        0 <= n <= ts.len(),
    ensures
        reclaimable_sum(ts.take(n)) <= reclaimable_sum(ts),
        shared_sum(ts.take(n)) <= shared_sum(ts),
        unreadable_sum(ts.take(n)) <= unreadable_sum(ts),
    decreases ts.len(),
{
    if n < ts.len() {
        lemma_target_sums_grow(ts.drop_last(), n);
        assert(ts.drop_last().take(n) =~= ts.take(n));
    } else {
        assert(ts.take(n) =~= ts);
    }
}

impl Project {
    /// What deleting every target of the project returns.
    pub fn reclaimable_bytes(&self) -> (r: u64)
        requires
            reclaimable_sum(self@.targets) <= u64::MAX,
        ensures
            r == reclaimable_sum(self@.targets),
    {
        let ghost ts = self@.targets;
        let mut sum: u64 = 0;
        let mut i: usize = 0;
        while i < self.targets.len()
            invariant
                ts == target_views(self.targets@),
                i <= self.targets@.len(),
                sum == reclaimable_sum(ts.take(i as int)),
                reclaimable_sum(ts) <= u64::MAX,
            decreases self.targets@.len() - i,
        {
            proof {
                assert(ts.take(i + 1).drop_last() =~= ts.take(i as int));
                assert(ts.take(i + 1).last() == self.targets@[i as int]@);
                lemma_target_sums_grow(ts, i + 1);
            }
            sum = sum + self.targets[i].reclaimable_bytes();
            i = i + 1;
        }
        assert(ts.take(i as int) =~= ts);
        sum
    }

    /// What in the project would survive deletion or was counted twice.
    pub fn shared_bytes(&self) -> (r: u64)
        requires
            shared_sum(self@.targets) <= u64::MAX,
        ensures
            r == shared_sum(self@.targets),
    {
        let ghost ts = self@.targets;
        let mut sum: u64 = 0;
        let mut i: usize = 0;
        while i < self.targets.len()
            invariant
                ts == target_views(self.targets@),
                i <= self.targets@.len(),
                sum == shared_sum(ts.take(i as int)),
                shared_sum(ts) <= u64::MAX,
            decreases self.targets@.len() - i,
        {
            proof {
                assert(ts.take(i + 1).drop_last() =~= ts.take(i as int));
                assert(ts.take(i + 1).last() == self.targets@[i as int]@);
                lemma_target_sums_grow(ts, i + 1);
            }
            sum = sum + self.targets[i].shared_bytes;
            i = i + 1;
        }
        assert(ts.take(i as int) =~= ts);
        sum
    }

    /// How often something in the project could not be read.
    pub fn unreadable(&self) -> (r: u32)
        requires
            unreadable_sum(self@.targets) <= u32::MAX,
        ensures
            r == unreadable_sum(self@.targets),
    {
        let ghost ts = self@.targets;
        let mut sum: u32 = 0;
        let mut i: usize = 0;
        while i < self.targets.len()
            invariant
                ts == target_views(self.targets@),
                i <= self.targets@.len(),
                sum == unreadable_sum(ts.take(i as int)),
                unreadable_sum(ts) <= u32::MAX,
            decreases self.targets@.len() - i,
        {
            proof {
                assert(ts.take(i + 1).drop_last() =~= ts.take(i as int));
                assert(ts.take(i + 1).last() == self.targets@[i as int]@);
                lemma_target_sums_grow(ts, i + 1);
            }
            sum = sum + self.targets[i].unreadable;
            i = i + 1;
        }
        assert(ts.take(i as int) =~= ts);
        sum
    }

    /// A copy.
    pub fn duplicate(&self) -> (r: Project)
        ensures
            r@ == self@,
    {
        let mut targets: Vec<Target> = Vec::new();
        let mut i: usize = 0;
        while i < self.targets.len()
            invariant
                i <= self.targets@.len(),
                targets@.len() == i,
                forall|k: int| 0 <= k < i ==> (#[trigger] targets@[k])@ == self.targets@[k]@,
            decreases self.targets@.len() - i,
        {
            targets.push(self.targets[i].duplicate());
            i = i + 1;
        }
        assert(target_views(targets@) =~= target_views(self.targets@));
        Project {
            root: self.root.clone(),
            ecosystem: self.ecosystem.clone(),
            git_state: self.git_state,
            targets,
        }
    }
}

/// How the scan is to be performed.
#[derive(Debug, Clone, Copy, PartialEq, Eq, Structural)]
pub struct Options {
    /// Take in targets that are marked as aggressive.
    pub aggressive: bool,
    /// Leave out the accounting of hard links.
    pub skip_link_check: bool,
}

impl Default for Options {
    fn default() -> (r: Self)
        ensures
            r == (Options { aggressive: false, skip_link_check: false }),
    {
        Options { aggressive: false, skip_link_check: false }
    }
}

/// Counts of what the walk has been through.
#[derive(Debug, Clone, Copy, PartialEq, Eq, Structural)]
pub struct Progress {
    pub dirs: u64,
    pub files: u64,
}

impl Default for Progress {
    fn default() -> (r: Self)
        ensures
            r == (Progress { dirs: 0, files: 0 }),
    {
        Progress { dirs: 0, files: 0 }
    }
}

/// Streamed as the scan proceeds.
#[derive(Debug)]
pub enum Event {
    /// A project root was recognised. Nothing has been measured yet.
    Found { root: String, ecosystem: String },
    /// Measured. Only for projects with something reclaimable in them.
    Project(Project),
    Progress(Progress),
}

/// The content of an [`Event`].
pub enum EventView {
    Found { root: Seq<char>, ecosystem: Seq<char> },
    Project(ProjectView),
    Progress(Progress),
}

impl View for Event {
    type V = EventView;

    open spec fn view(&self) -> EventView {
        match self {
            Event::Found { root, ecosystem } => EventView::Found {
                root: root@,
                ecosystem: ecosystem@,
            },
            Event::Project(p) => EventView::Project(p@),
            Event::Progress(p) => EventView::Progress(*p),
        }
    }
}

/// What is to be done next.
#[derive(Debug)]
pub enum Request {
    /// Walk the tree below this root, reading each directory with
    /// [`crate::markers::MarkerIndex::visit`].
    Walk { root: String },
    /// Pass an event on.
    Emit(Event),
    /// Find out the state of the worktree around this directory, with
    /// [`crate::git::RepoCache::state_for`].
    Gate { dir: String },
    /// If this is a directory, measure it with [`crate::sizing::dir_size`].
    Measure { path: String, check_links: bool },
    /// Nothing more.
    Finished,
}

/// The content of a [`Request`].
pub enum RequestView {
    Walk { root: Seq<char> },
    Emit(EventView),
    Gate { dir: Seq<char> },
    Measure { path: Seq<char>, check_links: bool },
    Finished,
}

impl View for Request {
    type V = RequestView;

    open spec fn view(&self) -> RequestView {
        match self {
            Request::Walk { root } => RequestView::Walk { root: root@ },
            Request::Emit(e) => RequestView::Emit(e@),
            Request::Gate { dir } => RequestView::Gate { dir: dir@ },
            Request::Measure { path, check_links } => RequestView::Measure {
                path: path@,
                check_links: *check_links,
            },
            Request::Finished => RequestView::Finished,
        }
    }
}

/// What came of a request.
#[derive(Debug)]
pub enum Reply {
    /// Nothing was asked for yet, or an event was passed on.
    Done,
    /// The directories that a detector claims, in the order in which they were
    /// found, and how many entries the walk has seen.
    Walked { found: Vec<(String, usize)>, counted: Progress },
    Gated(GitState),
    /// `None` where the path is not a directory.
    Sized(Option<Measured>),
}

/// A directory that a detector claims.
pub struct Claim {
    pub dir: Seq<char>,
    pub detector: usize,
}

/// The content of a list of directories that detectors claim.
pub open spec fn claim_views(v: Seq<(String, usize)>) -> Seq<Claim> {
    v.map_values(|c: (String, usize)| Claim { dir: c.0@, detector: c.1 })
}

/// The content of a [`Reply`].
pub enum ReplyView {
    Done,
    Walked { found: Seq<Claim>, counted: Progress },
    Gated(GitState),
    Sized(Option<Measured>),
}

impl View for Reply {
    type V = ReplyView;

    open spec fn view(&self) -> ReplyView {
        match self {
            Reply::Done => ReplyView::Done,
            Reply::Walked { found, counted } => ReplyView::Walked {
                found: claim_views(found@),
                counted: *counted,
            },
            Reply::Gated(s) => ReplyView::Gated(*s),
            Reply::Sized(m) => ReplyView::Sized(*m),
        }
    }
}

/// Where a scan stands: what was requested last.
#[derive(Debug)]
pub enum Phase {
    Fresh,
    Walking,
    Announced,
    Gating,
    Measuring { git_state: GitState, at: usize, targets: Vec<Target> },
    Counted { git_state: GitState, targets: Vec<Target> },
    Reported,
    Closing,
    Over,
}

/// The content of a [`Phase`].
pub enum PhaseView {
    Fresh,
    Walking,
    Announced,
    Gating,
    Measuring { git_state: GitState, at: nat, targets: Seq<TargetView> },
    Counted { git_state: GitState, targets: Seq<TargetView> },
    Reported,
    Closing,
    Over,
}

impl View for Phase {
    type V = PhaseView;

    open spec fn view(&self) -> PhaseView {
        match self {
            Phase::Fresh => PhaseView::Fresh,
            Phase::Walking => PhaseView::Walking,
            Phase::Announced => PhaseView::Announced,
            Phase::Gating => PhaseView::Gating,
            Phase::Measuring { git_state, at, targets } => PhaseView::Measuring {
                git_state: *git_state,
                at: *at as nat,
                targets: target_views(targets@),
            },
            Phase::Counted { git_state, targets } => PhaseView::Counted {
                git_state: *git_state,
                targets: target_views(targets@),
            },
            Phase::Reported => PhaseView::Reported,
            Phase::Closing => PhaseView::Closing,
            Phase::Over => PhaseView::Over,
        }
    }
}

/// A scan: what is left to do and what was requested last. The first of the
/// claims that are left is the project at hand.
pub struct ScanView {
    pub detectors: Seq<Detector>,
    pub opts: Options,
    pub roots: Seq<Seq<char>>,
    pub found: Seq<Claim>,
    pub counted: Progress,
    pub phase: PhaseView,
}

/// Whether a target is to be considered.
pub open spec fn wanted(r: Reclaimable, opts: Options) -> bool {
    opts.aggressive || !r.aggressive_only
}

/// The first target from `i` on that is to be considered, or the number of all.
pub open spec fn next_wanted(rs: Seq<Reclaimable>, opts: Options, i: nat) -> nat
    decreases rs.len() - i,
{
    if i >= rs.len() || wanted(rs[i as int], opts) {
        i
    } else {
        next_wanted(rs, opts, i + 1)
    }
}

/// The target that a measurement makes, if it is worth reporting.
pub open spec fn target_of(dir: Seq<char>, r: Reclaimable, m: Option<Measured>) -> Option<
    TargetView,
> {
    match m {
        Some(m) => if m.bytes > 0 || m.unreadable > 0 {
            Some(
                TargetView {
                    path: paths::joined_path(dir, r.path@),
                    bytes: m.bytes,
                    shared_bytes: m.shared_bytes,
                    unreadable: m.unreadable,
                    restore_command: r.restore_command@,
                    rebuild_seconds: r.rebuild_seconds,
                },
            )
        } else {
            None
        },
        None => None,
    }
}

/// Both counts together. They start over where a machine word is exceeded.
pub open spec fn both_counted(a: Progress, b: Progress) -> Progress {
    Progress { dirs: a.dirs.wrapping_add(b.dirs), files: a.files.wrapping_add(b.files) }
}

impl ScanView {
    /// The detector that claims the project at hand.
    pub open spec fn detector(self) -> Detector {
        self.detectors[self.found[0].detector as int]
    }

    /// Every claim is by one of the detectors, and where a project is at hand there
    /// is one.
    pub open spec fn valid(self) -> bool {
        &&& forall|i: int|
            0 <= i < self.found.len() ==> (#[trigger] self.found[i]).detector
                < self.detectors.len()
        &&& (self.phase is Announced || self.phase is Gating || self.phase is Measuring
            || self.phase is Counted || self.phase is Reported) ==> self.found.len() > 0
        &&& self.phase matches PhaseView::Measuring { at, .. } ==> at
            < self.detector().reclaimable@.len()
    }

    /// A reply to what was requested last.
    pub open spec fn expects(self, reply: ReplyView) -> bool {
        match self.phase {
            PhaseView::Walking => reply matches ReplyView::Walked { found, .. } && forall|i: int|
                0 <= i < found.len() ==> (#[trigger] found[i]).detector < self.detectors.len(),
            PhaseView::Gating => reply is Gated,
            PhaseView::Measuring { .. } => reply is Sized,
            _ => reply is Done,
        }
    }

    /// On to the next root, or to the end.
    pub open spec fn to_next_root(self) -> (ScanView, RequestView) {
        if self.roots.len() > 0 {
            (
                ScanView {
                    roots: self.roots.drop_first(),
                    found: Seq::empty(),
                    phase: PhaseView::Walking,
                    ..self
                },
                RequestView::Walk { root: self.roots[0] },
            )
        } else {
            (
                ScanView { found: Seq::empty(), phase: PhaseView::Closing, ..self },
                RequestView::Emit(EventView::Progress(self.counted)),
            )
        }
    }

    /// On to the first of the claims that are left, or to the next root.
    pub open spec fn to_next_project(self) -> (ScanView, RequestView) {
        if self.found.len() > 0 {
            (
                ScanView { phase: PhaseView::Announced, ..self },
                RequestView::Emit(
                    EventView::Found {
                        root: self.found[0].dir,
                        ecosystem: self.detector().name@,
                    },
                ),
            )
        } else {
            self.to_next_root()
        }
    }

    /// On to the next target from `i` on, or to the count when all are measured.
    pub open spec fn to_next_target(
        self,
        git_state: GitState,
        i: nat,
        targets: Seq<TargetView>,
    ) -> (ScanView, RequestView) {
        let rs = self.detector().reclaimable@;
        let at = next_wanted(rs, self.opts, i);
        if at < rs.len() {
            (
                ScanView { phase: PhaseView::Measuring { git_state, at, targets }, ..self },
                RequestView::Measure {
                    path: paths::joined_path(self.found[0].dir, rs[at as int].path@),
                    check_links: !self.opts.skip_link_check,
                },
            )
        } else {
            (
                ScanView { phase: PhaseView::Counted { git_state, targets }, ..self },
                RequestView::Emit(EventView::Progress(self.counted)),
            )
        }
    }

    /// The project at hand is done.
    pub open spec fn past_project(self) -> ScanView {
        ScanView { found: self.found.drop_first(), ..self }
    }

    /// Where the scan stands after a reply, and what is to be done next.
    pub open spec fn after(self, reply: ReplyView) -> (ScanView, RequestView) {
        match (self.phase, reply) {
            (PhaseView::Fresh, _) => self.to_next_root(),
            (PhaseView::Walking, ReplyView::Walked { found, counted }) => (ScanView {
                found,
                counted: both_counted(self.counted, counted),
                ..self
            }).to_next_project(),
            (PhaseView::Announced, _) => (
                ScanView { phase: PhaseView::Gating, ..self },
                RequestView::Gate { dir: self.found[0].dir },
            ),
            (PhaseView::Gating, ReplyView::Gated(git_state)) => self.to_next_target(
                git_state,
                0,
                Seq::empty(),
            ),
            (
                PhaseView::Measuring { git_state, at, targets },
                ReplyView::Sized(m),
            ) => self.to_next_target(
                git_state,
                at + 1,
                match target_of(self.found[0].dir, self.detector().reclaimable@[at as int], m) {
                    Some(t) => targets.push(t),
                    None => targets,
                },
            ),
            (PhaseView::Counted { git_state, targets }, _) => if targets.len() > 0 {
                (
                    ScanView { phase: PhaseView::Reported, ..self },
                    RequestView::Emit(
                        EventView::Project(
                            ProjectView {
                                root: self.found[0].dir,
                                ecosystem: self.detector().name@,
                                git_state,
                                targets,
                            },
                        ),
                    ),
                )
            } else {
                self.past_project().to_next_project()
            },
            (PhaseView::Reported, _) => self.past_project().to_next_project(),
            _ => (ScanView { phase: PhaseView::Over, ..self }, RequestView::Finished),
        }
    }
}

/// A scan in progress.
#[derive(Debug)]
pub struct Scan<'a> {
    detectors: &'a Vec<Detector>,
    opts: Options,
    roots: Vec<String>,
    next_root: usize,
    found: Vec<(String, usize)>,
    next_found: usize,
    counted: Progress,
    phase: Phase,
}

impl<'a> View for Scan<'a> {
    type V = ScanView;

    closed spec fn view(&self) -> ScanView {
        ScanView {
            detectors: self.detectors@,
            opts: self.opts,
            roots: text::texts(self.roots@).skip(self.next_root as int),
            found: claim_views(self.found@).skip(self.next_found as int),
            counted: self.counted,
            phase: self.phase@,
        }
    }
}


impl<'a> Scan<'a> {
    /// What is left lies within what there is.
    spec fn in_bounds(&self) -> bool {
        self.next_root <= self.roots@.len() && self.next_found <= self.found@.len()
    }

    /// The scan is one that [`Scan::new`] has begun and [`scan_with`] has taken on.
    pub closed spec fn begun(&self) -> bool {
        self.in_bounds() && self@.valid()
    }

    /// Begins a scan of the roots that do not lie inside one another.
    pub fn new(roots: &Vec<String>, detectors: &'a Vec<Detector>, opts: Options) -> (r: Self)
        ensures
            r.begun(),
            r@ == (ScanView {
                detectors: detectors@,
                opts,
                roots: r@.roots,
                found: Seq::empty(),
                counted: Progress { dirs: 0, files: 0 },
                phase: PhaseView::Fresh,
            }),
            roots::independent(text::texts(roots@), r@.roots),
    {
        let r = Scan {
            detectors,
            opts,
            roots: independent_roots(roots),
            next_root: 0,
            found: Vec::new(),
            next_found: 0,
            counted: Progress::default(),
            phase: Phase::Fresh,
        };
        assert(r@.roots =~= text::texts(r.roots@));
        assert(r@.found =~= Seq::<Claim>::empty());
        r
    }

    fn go_to_next_root(&mut self) -> (r: Request)
        requires
            old(self).in_bounds(),
        ensures
            final(self).in_bounds(),
            (final(self)@, r@) == old(self)@.to_next_root(),
    {
        let ghost before = self@;
        self.found = Vec::new();
        self.next_found = 0;
        assert(self@.found =~= Seq::<Claim>::empty());
        if self.next_root < self.roots.len() {
            let root = self.roots[self.next_root].clone();
            assert(before.roots[0] == root@);
            self.next_root = self.next_root + 1;
            assert(self@.roots =~= before.roots.drop_first());
            self.phase = Phase::Walking;
            Request::Walk { root }
        } else {
            self.phase = Phase::Closing;
            assert(self@.roots =~= before.roots);
            Request::Emit(Event::Progress(self.counted))
        }
    }

    fn go_to_next_project(&mut self) -> (r: Request)
        requires
            old(self).in_bounds(),
            forall|i: int|
                0 <= i < old(self)@.found.len() ==> (#[trigger] old(self)@.found[i]).detector
                    < old(self)@.detectors.len(),
        ensures
            final(self).in_bounds(),
            (final(self)@, r@) == old(self)@.to_next_project(),
    {
        if self.next_found < self.found.len() {
            assert(self@.found[0] == (Claim {
                dir: self.found@[self.next_found as int].0@,
                detector: self.found@[self.next_found as int].1,
            }));
            let root = self.found[self.next_found].0.clone();
            let ecosystem = self.detectors[self.found[self.next_found].1].name.clone();
            self.phase = Phase::Announced;
            Request::Emit(Event::Found { root, ecosystem })
        } else {
            self.go_to_next_root()
        }
    }

    fn leave_project(&mut self)
        requires
            old(self).in_bounds(),
            old(self)@.found.len() > 0,
        ensures
            final(self).in_bounds(),
            final(self)@ == old(self)@.past_project(),
    {
        assert(self.next_found < self.found.len());
        self.next_found = self.next_found + 1;
        assert(self@.found =~= old(self)@.found.drop_first());
    }

    fn go_to_next_target(&mut self, git_state: GitState, i: usize, targets: Vec<Target>) -> (r:
        Request)
        requires
            old(self).in_bounds(),
            old(self)@.found.len() > 0,
            old(self)@.found[0].detector < old(self)@.detectors.len(),
            i <= old(self)@.detector().reclaimable@.len(),
        ensures
            final(self).in_bounds(),
            (final(self)@, r@) == old(self)@.to_next_target(
                git_state,
                i as nat,
                target_views(targets@),
            ),
    {
        let ghost before = self@;
        assert(self@.found[0] == (Claim {
            dir: self.found@[self.next_found as int].0@,
            detector: self.found@[self.next_found as int].1,
        }));
        let detector = &self.detectors[self.found[self.next_found].1];
        let rs = &detector.reclaimable;
        let mut at: usize = i;
        while at < rs.len() && !(self.opts.aggressive || !rs[at].aggressive_only)
            invariant
                at <= rs@.len(),
                next_wanted(rs@, self.opts, i as nat) == next_wanted(rs@, self.opts, at as nat),
            decreases rs@.len() - at,
        {
            at = at + 1;
        }
        if at < rs.len() {
            let path = join_path(self.found[self.next_found].0.as_str(), rs[at].path.as_str());
            self.phase = Phase::Measuring { git_state, at, targets };
            Request::Measure { path, check_links: !self.opts.skip_link_check }
        } else {
            self.phase = Phase::Counted { git_state, targets };
            Request::Emit(Event::Progress(self.counted))
        }
    }

    fn take_size(&self, at: usize, m: Option<Measured>) -> (r: Option<Target>)
        requires
            self.in_bounds(),
            self@.found.len() > 0,
            self@.found[0].detector < self@.detectors.len(),
            at < self@.detector().reclaimable@.len(),
        ensures
            r is Some <==> target_of(
                self@.found[0].dir,
                self@.detector().reclaimable@[at as int],
                m,
            ) is Some,
            r matches Some(t) ==> target_of(
                self@.found[0].dir,
                self@.detector().reclaimable@[at as int],
                m,
            ) == Some(t@),
    {
        assert(self@.found[0] == (Claim {
            dir: self.found@[self.next_found as int].0@,
            detector: self.found@[self.next_found as int].1,
        }));
        let reclaimable = &self.detectors[self.found[self.next_found].1].reclaimable[at];
        match m {
            Some(m) => if is_worth_reporting(m) {
                Some(
                    Target {
                        path: join_path(
                            self.found[self.next_found].0.as_str(),
                            reclaimable.path.as_str(),
                        ),
                        bytes: m.bytes,
                        shared_bytes: m.shared_bytes,
                        unreadable: m.unreadable,
                        restore_command: reclaimable.restore_command.clone(),
                        rebuild_seconds: reclaimable.rebuild_seconds,
                    },
                )
            } else {
                None
            },
            None => None,
        }
    }
}

/// Whatever the replies, a project is at hand whenever one is worked on, and it is
/// claimed by one of the detectors.
pub proof fn a_scan_stays_valid(s: ScanView, reply: ReplyView)
    requires
        s.valid(),
        s.expects(reply),
    ensures
        s.after(reply).0.valid(),
{
    let past = s.past_project();
    if s.found.len() > 0 {
        assert forall|i: int| 0 <= i < past.found.len() implies (#[trigger] past.found[i]).detector
            < past.detectors.len() by {
            assert(past.found[i] == s.found[i + 1]);
        }
    }
}

/// Takes the reply to what was requested last and says what to do next. The first
/// reply is [`Reply::Done`].
pub fn scan_with(scan: &mut Scan, reply: Reply) -> (r: Request)
    requires
        old(scan).begun(),
        old(scan)@.expects(reply@),
    ensures
        final(scan).begun(),
        (final(scan)@, r@) == old(scan)@.after(reply@),
{
    let ghost before = scan@;
    let ghost told = reply@;
    proof {
        a_scan_stays_valid(before, told);
    }
    let mut phase = Phase::Over;
    std::mem::swap(&mut phase, &mut scan.phase);
    match (phase, reply) {
        (Phase::Fresh, _) => scan.go_to_next_root(),
        (Phase::Walking, Reply::Walked { found, counted }) => {
            let ghost claims = claim_views(found@);
            scan.found = found;
            scan.next_found = 0;
            scan.counted = Progress {
                dirs: scan.counted.dirs.wrapping_add(counted.dirs),
                files: scan.counted.files.wrapping_add(counted.files),
            };
            scan.phase = Phase::Walking;
            assert(told == (ReplyView::Walked { found: claims, counted }));
            assert(before.phase is Walking);
            assert(before.expects(told));
            assert(scan@.found =~= claims);
            assert(scan@.roots =~= before.roots);
            scan.go_to_next_project()
        },
        (Phase::Announced, _) => {
            assert(before.found[0].dir == scan.found@[scan.next_found as int].0@);
            let dir = scan.found[scan.next_found].0.clone();
            scan.phase = Phase::Gating;
            Request::Gate { dir }
        },
        (Phase::Gating, Reply::Gated(git_state)) => {
            let targets: Vec<Target> = Vec::new();
            assert(target_views(targets@) =~= Seq::<TargetView>::empty());
            scan.go_to_next_target(git_state, 0, targets)
        },
        (Phase::Measuring { git_state, at, targets }, Reply::Sized(m)) => {
            let mut targets = targets;
            assert(at < before.detector().reclaimable.len());
            let ghost views = target_views(targets@);
            if let Some(t) = scan.take_size(at, m) {
                targets.push(t);
                assert(target_views(targets@) =~= views.push(t@));
            }
            scan.go_to_next_target(git_state, at + 1, targets)
        },
        (Phase::Counted { git_state, targets }, _) => {
            assert(target_views(targets@).len() == targets@.len());
            if targets.len() > 0 {
                assert(before.found[0] == (Claim {
                    dir: scan.found@[scan.next_found as int].0@,
                    detector: scan.found@[scan.next_found as int].1,
                }));
                let root = scan.found[scan.next_found].0.clone();
                let ecosystem = scan.detectors[scan.found[scan.next_found].1].name.clone();
                scan.phase = Phase::Reported;
                Request::Emit(Event::Project(Project { root, ecosystem, git_state, targets }))
            } else {
                scan.leave_project();
                scan.phase = Phase::Counted { git_state, targets };
                scan.go_to_next_project()
            }
        },
        (Phase::Reported, _) => {
            scan.leave_project();
            scan.phase = Phase::Reported;
            scan.go_to_next_project()
        },
        _ => {
            scan.phase = Phase::Over;
            Request::Finished
        },
    }
}

/// The contents of a list of events.
pub open spec fn event_views(v: Seq<Event>) -> Seq<EventView> {
    v.map_values(|e: Event| e@)
}

/// The projects among some events.
pub open spec fn projects_in(events: Seq<EventView>) -> Seq<ProjectView>
    decreases events.len(),
{
    if events.len() == 0 {
        Seq::empty()
    } else {
        match events.last() {
            EventView::Project(p) => projects_in(events.drop_last()).push(p),
            _ => projects_in(events.drop_last()),
        }
    }
}

/// Every project that a scan has passed on, in the order of the events.
pub fn scan(events: Vec<Event>) -> (r: Vec<Project>)
    ensures
        project_views(r@) == projects_in(event_views(events@)),
{
    let ghost all = event_views(events@);
    let ghost given = events@;
    let mut r: Vec<Project> = Vec::new();
    assert(all.take(0) =~= Seq::<EventView>::empty());
    assert(project_views(r@) =~= projects_in(all.take(0)));
    for e in it: events
        invariant
            it.seq() == given,
            all == event_views(given),
            project_views(r@) == projects_in(all.take(it.index())),
    {
        proof {
            let i = it.index() as int;
            assert(all.take(i + 1).drop_last() =~= all.take(i));
            assert(all.take(i + 1).last() == e@);
        }
        let ghost before = project_views(r@);
        if let Event::Project(p) = e {
            r.push(p);
            assert(project_views(r@) =~= before.push(p@));
        }
    }
    assert(all.take(given.len() as int) =~= all);
    r
}


/// What a walk of one tree comes to.
pub struct Walk {
    pub found: Seq<Claim>,
    pub counted: Progress,
}

/// What walking, asking git and measuring would come to.
pub struct World {
    pub walk: spec_fn(Seq<char>) -> Walk,
    pub gate: spec_fn(Seq<char>) -> GitState,
    pub size: spec_fn(Seq<char>, bool) -> Option<Measured>,
}

impl World {
    /// Walks only come across directories that one of `n` detectors claims.
    pub open spec fn claimed_by(self, n: nat) -> bool {
        forall|root: Seq<char>, i: int|
            0 <= i < ((self.walk)(root)).found.len() ==> (#[trigger] ((self.walk)(
                root,
            )).found[i]).detector < n
    }

    /// The reply to a request.
    pub open spec fn reply(self, request: RequestView) -> ReplyView {
        match request {
            RequestView::Walk { root } => ReplyView::Walked {
                found: ((self.walk)(root)).found,
                counted: ((self.walk)(root)).counted,
            },
            RequestView::Gate { dir } => ReplyView::Gated((self.gate)(dir)),
            RequestView::Measure { path, check_links } => ReplyView::Sized(
                (self.size)(path, check_links),
            ),
            _ => ReplyView::Done,
        }
    }
}

/// What a request passes on.
pub open spec fn emitted(request: RequestView) -> Seq<EventView> {
    match request {
        RequestView::Emit(e) => seq![e],
        _ => Seq::empty(),
    }
}

/// The events that a scan passes on from a request on, when it is run to its end
/// with at most `fuel` replies. `None` where it does not come to its end.
pub open spec fn run(at: (ScanView, RequestView), world: World, fuel: nat) -> Option<Seq<EventView>>
    decreases fuel,
{
    if at.1 is Finished {
        Some(Seq::empty())
    } else if fuel == 0 {
        None
    } else {
        match run(at.0.after(world.reply(at.1)), world, (fuel - 1) as nat) {
            Some(rest) => Some(emitted(at.1) + rest),
            None => None,
        }
    }
}

/// What is reclaimable in a directory that a detector claims, from its target `i`
/// on.
pub open spec fn targets_from(
    world: World,
    dir: Seq<char>,
    rs: Seq<Reclaimable>,
    opts: Options,
    i: nat,
) -> Seq<TargetView>
    decreases rs.len() - i,
{
    if i >= rs.len() {
        Seq::empty()
    } else {
        let rest = targets_from(world, dir, rs, opts, i + 1);
        if !wanted(rs[i as int], opts) {
            rest
        } else {
            match target_of(
                dir,
                rs[i as int],
                (world.size)(
                    paths::joined_path(dir, rs[i as int].path@),
                    !opts.skip_link_check,
                ),
            ) {
                Some(t) => seq![t] + rest,
                None => rest,
            }
        }
    }
}

/// What is passed on about one project: that it was found, then the counts, then
/// what is reclaimable in it, if anything is.
pub open spec fn project_events(
    world: World,
    detectors: Seq<Detector>,
    opts: Options,
    claim: Claim,
    counted: Progress,
) -> Seq<EventView> {
    let d = detectors[claim.detector as int];
    let targets = targets_from(world, claim.dir, d.reclaimable@, opts, 0);
    let announced = seq![
        EventView::Found { root: claim.dir, ecosystem: d.name@ },
        EventView::Progress(counted),
    ];
    if targets.len() > 0 {
        announced.push(
            EventView::Project(
                ProjectView {
                    root: claim.dir,
                    ecosystem: d.name@,
                    git_state: (world.gate)(claim.dir),
                    targets,
                },
            ),
        )
    } else {
        announced
    }
}

/// What is passed on about the projects that one walk found.
pub open spec fn claim_events(
    world: World,
    detectors: Seq<Detector>,
    opts: Options,
    found: Seq<Claim>,
    counted: Progress,
) -> Seq<EventView>
    decreases found.len(),
{
    if found.len() == 0 {
        Seq::empty()
    } else {
        project_events(world, detectors, opts, found[0], counted) + claim_events(
            world,
            detectors,
            opts,
            found.drop_first(),
            counted,
        )
    }
}

/// What is passed on about the trees below some roots, and the counts at the end.
pub open spec fn scan_events(
    world: World,
    detectors: Seq<Detector>,
    opts: Options,
    roots: Seq<Seq<char>>,
    counted: Progress,
) -> Seq<EventView>
    decreases roots.len(),
{
    if roots.len() == 0 {
        seq![EventView::Progress(counted)]
    } else {
        let walk = (world.walk)(roots[0]);
        let now = both_counted(counted, walk.counted);
        claim_events(world, detectors, opts, walk.found, now) + scan_events(
            world,
            detectors,
            opts,
            roots.drop_first(),
            now,
        )
    }
}

proof fn lemma_next_wanted(world: World, dir: Seq<char>, rs: Seq<Reclaimable>, opts: Options, i: nat)
    requires
        i <= rs.len(),
    ensures
        i <= next_wanted(rs, opts, i) <= rs.len(),
        next_wanted(rs, opts, i) < rs.len() ==> wanted(rs[next_wanted(rs, opts, i) as int], opts),
        targets_from(world, dir, rs, opts, i) == targets_from(
            world,
            dir,
            rs,
            opts,
            next_wanted(rs, opts, i),
        ),
    decreases rs.len() - i,
{
    if i < rs.len() && !wanted(rs[i as int], opts) {
        lemma_next_wanted(world, dir, rs, opts, i + 1);
    }
}

proof fn lemma_run_targets(
    s: ScanView,
    world: World,
    git_state: GitState,
    i: nat,
    targets: Seq<TargetView>,
    rest: Seq<EventView>,
    fuel: nat,
) -> (more: nat)
    requires
        i <= s.detector().reclaimable@.len(),
        ({
            let all = targets + targets_from(
                world,
                s.found[0].dir,
                s.detector().reclaimable@,
                s.opts,
                i,
            );
            run(
                (
                    ScanView { phase: PhaseView::Counted { git_state, targets: all }, ..s },
                    RequestView::Emit(EventView::Progress(s.counted)),
                ),
                world,
                fuel,
            ) == Some(rest)
        }),
    ensures
        run(s.to_next_target(git_state, i, targets), world, more) == Some(rest),
    decreases s.detector().reclaimable@.len() - i,
{
    let rs = s.detector().reclaimable@;
    let dir = s.found[0].dir;
    let at = next_wanted(rs, s.opts, i);
    lemma_next_wanted(world, dir, rs, s.opts, i);
    if at < rs.len() {
        let m = (world.size)(paths::joined_path(dir, rs[at as int].path@), !s.opts.skip_link_check);
        let longer = match target_of(dir, rs[at as int], m) {
            Some(t) => targets.push(t),
            None => targets,
        };
        assert(targets + targets_from(world, dir, rs, s.opts, at) =~= longer + targets_from(
            world,
            dir,
            rs,
            s.opts,
            at + 1,
        ));
        let f = lemma_run_targets(s, world, git_state, at + 1, longer, rest, fuel);
        let (next, request) = s.to_next_target(git_state, i, targets);
        assert(next.after(world.reply(request)) == s.to_next_target(git_state, at + 1, longer));
        assert(emitted(request) + rest =~= rest);
        f + 1
    } else {
        assert(targets + targets_from(world, dir, rs, s.opts, at) =~= targets);
        fuel
    }
}

proof fn lemma_run_project(s: ScanView, world: World, rest: Seq<EventView>, fuel: nat) -> (more: nat)
    requires
        s.found.len() > 0,
        run(s.past_project().to_next_project(), world, fuel) == Some(rest),
    ensures
        run(s.to_next_project(), world, more) == Some(
            project_events(world, s.detectors, s.opts, s.found[0], s.counted) + rest,
        ),
{
    let claim = s.found[0];
    let d = s.detector();
    let git_state = (world.gate)(claim.dir);
    let targets = targets_from(world, claim.dir, d.reclaimable@, s.opts, 0);
    let found = EventView::Found { root: claim.dir, ecosystem: d.name@ };
    let count = EventView::Progress(s.counted);
    let whole = EventView::Project(
        ProjectView { root: claim.dir, ecosystem: d.name@, git_state, targets },
    );
    let counted = ScanView { phase: PhaseView::Counted { git_state, targets }, ..s };
    let reported = ScanView { phase: PhaseView::Reported, ..s };
    let (tail, f): (Seq<EventView>, nat) = if targets.len() > 0 {
        assert(reported.after(ReplyView::Done) == s.past_project().to_next_project());
        assert(run((reported, RequestView::Emit(whole)), world, fuel + 1) == Some(
            seq![whole] + rest,
        ));
        assert(counted.after(ReplyView::Done) == (reported, RequestView::Emit(whole)));
        (seq![whole] + rest, fuel + 1)
    } else {
        assert(counted.after(ReplyView::Done) == s.past_project().to_next_project());
        (rest, fuel)
    };
    assert(run((counted, RequestView::Emit(count)), world, f + 1) == Some(seq![count] + tail));
    assert(Seq::<TargetView>::empty() + targets =~= targets);
    let g = lemma_run_targets(
        s,
        world,
        git_state,
        0,
        Seq::empty(),
        seq![count] + tail,
        f + 1,
    );
    let gating = ScanView { phase: PhaseView::Gating, ..s };
    let gate = RequestView::Gate { dir: claim.dir };
    assert(gating.after(world.reply(gate)) == s.to_next_target(git_state, 0, Seq::empty()));
    assert(emitted(gate) + (seq![count] + tail) =~= seq![count] + tail);
    assert(run((gating, gate), world, g + 1) == Some(seq![count] + tail));
    let announced = ScanView { phase: PhaseView::Announced, ..s };
    assert(announced.after(ReplyView::Done) == (gating, gate));
    assert(run((announced, RequestView::Emit(found)), world, g + 2) == Some(
        seq![found] + (seq![count] + tail),
    ));
    assert(seq![found] + (seq![count] + tail) =~= project_events(
        world,
        s.detectors,
        s.opts,
        claim,
        s.counted,
    ) + rest);
    g + 2
}

proof fn lemma_run_claims(s: ScanView, world: World, rest: Seq<EventView>, fuel: nat) -> (more: nat)
    requires
        run(s.to_next_root(), world, fuel) == Some(rest),
    ensures
        run(s.to_next_project(), world, more) == Some(
            claim_events(world, s.detectors, s.opts, s.found, s.counted) + rest,
        ),
    decreases s.found.len(),
{
    if s.found.len() == 0 {
        assert(Seq::<EventView>::empty() + rest =~= rest);
        fuel
    } else {
        let past = s.past_project();
        assert(past.to_next_root() == s.to_next_root());
        let f = lemma_run_claims(past, world, rest, fuel);
        let later = claim_events(world, s.detectors, s.opts, past.found, s.counted);
        let g = lemma_run_project(s, world, later + rest, f);
        let first = project_events(world, s.detectors, s.opts, s.found[0], s.counted);
        assert(first + (later + rest) =~= (first + later) + rest);
        g
    }
}

proof fn lemma_run_roots(s: ScanView, world: World) -> (fuel: nat)
    ensures
        run(s.to_next_root(), world, fuel) == Some(
            scan_events(world, s.detectors, s.opts, s.roots, s.counted),
        ),
    decreases s.roots.len(),
{
    if s.roots.len() == 0 {
        let (closing, last) = s.to_next_root();
        let over = closing.after(ReplyView::Done);
        assert(run(over, world, 0) == Some(Seq::<EventView>::empty()));
        assert(run((closing, last), world, 1) == Some(emitted(last) + Seq::<EventView>::empty()));
        assert(emitted(last) + Seq::<EventView>::empty() =~= seq![
            EventView::Progress(s.counted),
        ]);
        1
    } else {
        let (walking, request) = s.to_next_root();
        let walk = (world.walk)(s.roots[0]);
        let walked = ScanView {
            found: walk.found,
            counted: both_counted(s.counted, walk.counted),
            ..walking
        };
        let f = lemma_run_roots(walked, world);
        let rest = scan_events(world, s.detectors, s.opts, walked.roots, walked.counted);
        let g = lemma_run_claims(walked, world, rest, f);
        let all = claim_events(world, s.detectors, s.opts, walk.found, walked.counted) + rest;
        assert(walking.after(world.reply(request)) == walked.to_next_project());
        assert(emitted(request) + all =~= all);
        g + 1
    }
}

/// However walking, asking git and measuring turn out, a scan comes to its end,
/// and what it passes on is this: for each root in turn and each project found
/// below it, that it was found, the counts, and what is reclaimable in it if
/// anything is; and the counts once more at the end.
pub proof fn a_scan_reports_what_there_is(s: ScanView, world: World)
    requires
        s.phase is Fresh,
    ensures
        exists|fuel: nat| #[trigger]
            run(s.after(ReplyView::Done), world, fuel) == Some(
                scan_events(world, s.detectors, s.opts, s.roots, s.counted),
            ),
{
    let fuel = lemma_run_roots(s, world);
    assert(run(s.after(ReplyView::Done), world, fuel) == Some(
        scan_events(world, s.detectors, s.opts, s.roots, s.counted),
    ));
}

/// Answering a request always gives the reply that the scan expects.
pub proof fn replies_are_expected(s: ScanView, reply: ReplyView, world: World)
    requires
        s.valid(),
        s.expects(reply),
        world.claimed_by(s.detectors.len()),
        !(s.after(reply).1 is Finished),
    ensures
        s.after(reply).0.expects(world.reply(s.after(reply).1)),
{
}

/// A target that a scan reports is one that the project's detector names by its
/// exact path, and an aggressive one only where that was asked for. Its size is
/// the one measured there, and how to get it back and how long that takes is what the
/// detector states for it.
pub proof fn only_named_targets_are_reported(
    world: World,
    dir: Seq<char>,
    rs: Seq<Reclaimable>,
    opts: Options,
    i: nat,
    k: int,
)
    requires
        0 <= k < targets_from(world, dir, rs, opts, i).len(),
    ensures
        exists|j: int|
            0 <= j < rs.len() && wanted(#[trigger] rs[j], opts) && {
                let t = targets_from(world, dir, rs, opts, i)[k];
                let path = paths::joined_path(dir, rs[j].path@);
                &&& t.path == path
                &&& t.restore_command == rs[j].restore_command@
                &&& t.rebuild_seconds == rs[j].rebuild_seconds
                &&& (world.size)(path, !opts.skip_link_check) matches Some(m) && t.bytes == m.bytes
                    && t.shared_bytes == m.shared_bytes && t.unreadable == m.unreadable
            },
    decreases rs.len() - i,
{
    if i < rs.len() {
        let r = rs[i as int];
        let rest = targets_from(world, dir, rs, opts, i + 1);
        let all = targets_from(world, dir, rs, opts, i);
        let m = (world.size)(paths::joined_path(dir, r.path@), !opts.skip_link_check);
        if wanted(r, opts) && target_of(dir, r, m) is Some {
            if k > 0 {
                only_named_targets_are_reported(world, dir, rs, opts, i + 1, k - 1);
                assert(all[k] == rest[k - 1]);
            } else {
                assert(all[0] == target_of(dir, r, m)->0);
                assert(wanted(rs[i as int], opts));
            }
        } else {
            only_named_targets_are_reported(world, dir, rs, opts, i + 1, k);
        }
    }
}

proof fn lemma_projects_in_both(a: Seq<EventView>, b: Seq<EventView>)
    ensures
        projects_in(a + b) == projects_in(a) + projects_in(b),
    decreases b.len(),
{
    if b.len() == 0 {
        assert(a + b =~= a);
        assert(projects_in(a) + Seq::<ProjectView>::empty() =~= projects_in(a));
    } else {
        lemma_projects_in_both(a, b.drop_last());
        assert((a + b).drop_last() =~= a + b.drop_last());
        assert(projects_in(a + b) =~= projects_in(a) + projects_in(b));
    }
}

/// The projects below one root, those with nothing reclaimable left out.
pub open spec fn reported(
    world: World,
    detectors: Seq<Detector>,
    opts: Options,
    found: Seq<Claim>,
) -> Seq<ProjectView>
    decreases found.len(),
{
    if found.len() == 0 {
        Seq::empty()
    } else {
        let d = detectors[found[0].detector as int];
        let targets = targets_from(world, found[0].dir, d.reclaimable@, opts, 0);
        let rest = reported(world, detectors, opts, found.drop_first());
        if targets.len() > 0 {
            seq![
                ProjectView {
                    root: found[0].dir,
                    ecosystem: d.name@,
                    git_state: (world.gate)(found[0].dir),
                    targets,
                },
            ] + rest
        } else {
            rest
        }
    }
}

/// Each directory found with something reclaimable in it is reported exactly once,
/// in the order of discovery, with the state of its own worktree.
pub proof fn every_project_is_reported_once(
    world: World,
    detectors: Seq<Detector>,
    opts: Options,
    found: Seq<Claim>,
    counted: Progress,
)
    ensures
        projects_in(claim_events(world, detectors, opts, found, counted)) == reported(
            world,
            detectors,
            opts,
            found,
        ),
    decreases found.len(),
{
    reveal_with_fuel(projects_in, 4);
    if found.len() > 0 {
        let first = project_events(world, detectors, opts, found[0], counted);
        let later = claim_events(world, detectors, opts, found.drop_first(), counted);
        every_project_is_reported_once(world, detectors, opts, found.drop_first(), counted);
        lemma_projects_in_both(first, later);
        let d = detectors[found[0].detector as int];
        let targets = targets_from(world, found[0].dir, d.reclaimable@, opts, 0);
        let announced = seq![
            EventView::Found { root: found[0].dir, ecosystem: d.name@ },
            EventView::Progress(counted),
        ];
        assert(announced.drop_last().drop_last() =~= Seq::<EventView>::empty());
        assert(projects_in(announced) =~= Seq::<ProjectView>::empty());
        if targets.len() > 0 {
            assert(first.drop_last() =~= announced);
        }
        assert(projects_in(first) + reported(world, detectors, opts, found.drop_first())
            =~= reported(world, detectors, opts, found));
    }
}

/// No two projects are in the same place.
pub open spec fn apart(ps: Seq<ProjectView>) -> bool {
    forall|i: int, j: int|
        0 <= i < j < ps.len() ==> !paths::same_place(
            (#[trigger] ps[i]).root,
            (#[trigger] ps[j]).root,
        )
}

/// A walk names directories at or below its root, and none of them twice.
pub open spec fn distinct_below(found: Seq<Claim>, root: Seq<char>) -> bool {
    &&& forall|i: int| 0 <= i < found.len() ==> paths::within((#[trigger] found[i]).dir, root)
    &&& forall|i: int, j: int|
        0 <= i < j < found.len() ==> !paths::same_place(
            (#[trigger] found[i]).dir,
            (#[trigger] found[j]).dir,
        )
}

proof fn lemma_reported_is_found(
    world: World,
    detectors: Seq<Detector>,
    opts: Options,
    found: Seq<Claim>,
    k: int,
) -> (i: int)
    requires
        0 <= k < reported(world, detectors, opts, found).len(),
    ensures
        0 <= i < found.len(),
        reported(world, detectors, opts, found)[k].root == found[i].dir,
    decreases found.len(),
{
    let d = detectors[found[0].detector as int];
    let targets = targets_from(world, found[0].dir, d.reclaimable@, opts, 0);
    let rest = found.drop_first();
    if targets.len() > 0 && k == 0 {
        0
    } else {
        let l = if targets.len() > 0 {
            k - 1
        } else {
            k
        };
        let i = lemma_reported_is_found(world, detectors, opts, rest, l);
        assert(rest[i] == found[i + 1]);
        i + 1
    }
}

proof fn lemma_reported_apart(
    world: World,
    detectors: Seq<Detector>,
    opts: Options,
    found: Seq<Claim>,
    root: Seq<char>,
)
    requires
        distinct_below(found, root),
    ensures
        apart(reported(world, detectors, opts, found)),
        forall|k: int|
            0 <= k < reported(world, detectors, opts, found).len() ==> paths::within(
                (#[trigger] reported(world, detectors, opts, found)[k]).root,
                root,
            ),
    decreases found.len(),
{
    let all = reported(world, detectors, opts, found);
    assert forall|k: int| 0 <= k < all.len() implies paths::within(
        (#[trigger] all[k]).root,
        root,
    ) by {
        let i = lemma_reported_is_found(world, detectors, opts, found, k);
        assert(paths::within(found[i].dir, root));
    }
    if found.len() > 0 {
        let rest = found.drop_first();
        assert(distinct_below(rest, root)) by {
            assert forall|i: int| 0 <= i < rest.len() implies paths::within(
                (#[trigger] rest[i]).dir,
                root,
            ) by {
                assert(rest[i] == found[i + 1]);
            }
            assert forall|i: int, j: int| 0 <= i < j < rest.len() implies !paths::same_place(
                (#[trigger] rest[i]).dir,
                (#[trigger] rest[j]).dir,
            ) by {
                assert(rest[i] == found[i + 1] && rest[j] == found[j + 1]);
            }
        }
        lemma_reported_apart(world, detectors, opts, rest, root);
        let later = reported(world, detectors, opts, rest);
        let d = detectors[found[0].detector as int];
        let targets = targets_from(world, found[0].dir, d.reclaimable@, opts, 0);
        if targets.len() > 0 {
            assert forall|i: int, j: int| 0 <= i < j < all.len() implies !paths::same_place(
                (#[trigger] all[i]).root,
                (#[trigger] all[j]).root,
            ) by {
                assert(all[j] == later[j - 1]);
                if i == 0 {
                    let l = lemma_reported_is_found(world, detectors, opts, rest, j - 1);
                    assert(rest[l] == found[l + 1]);
                    assert(!paths::same_place(found[0].dir, found[l + 1].dir));
                } else {
                    assert(all[i] == later[i - 1]);
                }
            }
        }
    }
}

/// The projects of a whole scan.
pub open spec fn all_reported(
    world: World,
    detectors: Seq<Detector>,
    opts: Options,
    roots: Seq<Seq<char>>,
) -> Seq<ProjectView>
    decreases roots.len(),
{
    if roots.len() == 0 {
        Seq::empty()
    } else {
        reported(world, detectors, opts, ((world.walk)(roots[0])).found) + all_reported(
            world,
            detectors,
            opts,
            roots.drop_first(),
        )
    }
}

/// The projects that a scan passes on are those below its roots, root by root, in the
/// order of discovery.
pub proof fn projects_come_root_by_root(
    world: World,
    detectors: Seq<Detector>,
    opts: Options,
    roots: Seq<Seq<char>>,
    counted: Progress,
)
    ensures
        projects_in(scan_events(world, detectors, opts, roots, counted)) == all_reported(
            world,
            detectors,
            opts,
            roots,
        ),
    decreases roots.len(),
{
    reveal_with_fuel(projects_in, 2);
    if roots.len() == 0 {
        let last = seq![EventView::Progress(counted)];
        assert(last.drop_last() =~= Seq::<EventView>::empty());
        assert(projects_in(last) =~= Seq::<ProjectView>::empty());
    } else {
        let walk = (world.walk)(roots[0]);
        let now = both_counted(counted, walk.counted);
        let rest = roots.drop_first();
        projects_come_root_by_root(world, detectors, opts, rest, now);
        every_project_is_reported_once(world, detectors, opts, walk.found, now);
        lemma_projects_in_both(
            claim_events(world, detectors, opts, walk.found, now),
            scan_events(world, detectors, opts, rest, now),
        );
    }
}

proof fn lemma_below_different_roots(a: Seq<char>, b: Seq<char>, r: Seq<char>, s: Seq<char>)
    requires
        paths::within(a, r),
        paths::within(b, s),
        !paths::within(r, s),
        !paths::within(s, r),
    ensures
        !paths::same_place(a, b),
{
    if paths::same_place(a, b) {
        let p = paths::parts(a);
        let x = paths::parts(r);
        let y = paths::parts(s);
        if x.len() <= y.len() {
            assert(y.take(x.len() as int) =~= p.take(y.len() as int).take(x.len() as int));
            assert(p.take(y.len() as int).take(x.len() as int) =~= p.take(x.len() as int));
        } else {
            assert(x.take(y.len() as int) =~= p.take(x.len() as int).take(y.len() as int));
            assert(p.take(x.len() as int).take(y.len() as int) =~= p.take(y.len() as int));
        }
    }
}

/// No root lies inside another.
pub open spec fn separate(roots: Seq<Seq<char>>) -> bool {
    forall|k: int, l: int|
        0 <= k < roots.len() && 0 <= l < roots.len() && k != l ==> !paths::within(
            #[trigger] roots[k],
            #[trigger] roots[l],
        )
}

proof fn lemma_all_reported_apart(
    world: World,
    detectors: Seq<Detector>,
    opts: Options,
    roots: Seq<Seq<char>>,
)
    requires
        separate(roots),
        forall|k: int|
            0 <= k < roots.len() ==> distinct_below(
                ((world.walk)(#[trigger] roots[k])).found,
                roots[k],
            ),
    ensures
        apart(all_reported(world, detectors, opts, roots)),
        forall|i: int|
            0 <= i < all_reported(world, detectors, opts, roots).len() ==> exists|k: int|
                0 <= k < roots.len() && paths::within(
                    (#[trigger] all_reported(world, detectors, opts, roots)[i]).root,
                    #[trigger] roots[k],
                ),
    decreases roots.len(),
{
    if roots.len() > 0 {
        let rest = roots.drop_first();
        let first = reported(world, detectors, opts, ((world.walk)(roots[0])).found);
        let later = all_reported(world, detectors, opts, rest);
        let all = all_reported(world, detectors, opts, roots);
        assert forall|k: int| 0 <= k < rest.len() implies distinct_below(
            ((world.walk)(#[trigger] rest[k])).found,
            rest[k],
        ) by {
            assert(rest[k] == roots[k + 1]);
        }
        assert forall|k: int, l: int|
            0 <= k < rest.len() && 0 <= l < rest.len() && k != l implies !paths::within(
            #[trigger] rest[k],
            #[trigger] rest[l],
        ) by {
            assert(rest[k] == roots[k + 1] && rest[l] == roots[l + 1]);
        }
        lemma_all_reported_apart(world, detectors, opts, rest);
        assert(distinct_below(((world.walk)(roots[0])).found, roots[0]));
        lemma_reported_apart(
            world,
            detectors,
            opts,
            ((world.walk)(roots[0])).found,
            roots[0],
        );
        assert forall|i: int| 0 <= i < all.len() implies exists|k: int|
            0 <= k < roots.len() && paths::within(
                (#[trigger] all[i]).root,
                #[trigger] roots[k],
            ) by {
            if i < first.len() {
                assert(all[i] == first[i]);
                assert(paths::within(all[i].root, roots[0]));
            } else {
                assert(all[i] == later[i - first.len()]);
                let k = choose|k: int|
                    0 <= k < rest.len() && paths::within(
                        later[i - first.len()].root,
                        #[trigger] rest[k],
                    );
                assert(rest[k] == roots[k + 1]);
                assert(paths::within(all[i].root, roots[k + 1]));
            }
        }
        assert forall|i: int, j: int| 0 <= i < j < all.len() implies !paths::same_place(
            (#[trigger] all[i]).root,
            (#[trigger] all[j]).root,
        ) by {
            if j < first.len() {
                assert(all[i] == first[i] && all[j] == first[j]);
            } else if i >= first.len() {
                assert(all[i] == later[i - first.len()] && all[j] == later[j - first.len()]);
            } else {
                assert(all[i] == first[i] && all[j] == later[j - first.len()]);
                let k = choose|k: int|
                    0 <= k < rest.len() && paths::within(
                        later[j - first.len()].root,
                        #[trigger] rest[k],
                    );
                assert(rest[k] == roots[k + 1]);
                lemma_below_different_roots(all[i].root, all[j].root, roots[0], roots[k + 1]);
            }
        }
    }
}

/// No two projects of a scan share a root, as long as each walk names distinct
/// directories at or below its own: the roots that are walked do not lie inside one
/// another, however those that were given did.
pub proof fn distinct_walks_report_no_project_twice(
    world: World,
    detectors: Seq<Detector>,
    opts: Options,
    given: Seq<Seq<char>>,
    roots: Seq<Seq<char>>,
    counted: Progress,
)
    requires
        roots::independent(given, roots),
        forall|k: int|
            0 <= k < roots.len() ==> distinct_below(
                ((world.walk)(#[trigger] roots[k])).found,
                roots[k],
            ),
    ensures
        apart(projects_in(scan_events(world, detectors, opts, roots, counted))),
{
    assert(separate(roots));
    lemma_all_reported_apart(world, detectors, opts, roots);
    projects_come_root_by_root(world, detectors, opts, roots, counted);
}

/// How many directories the walks below some roots see together.
pub open spec fn dirs_seen(world: World, roots: Seq<Seq<char>>) -> nat
    decreases roots.len(),
{
    if roots.len() == 0 {
        0
    } else {
        ((world.walk)(roots[0])).counted.dirs as nat + dirs_seen(world, roots.drop_first())
    }
}

/// How many files the walks below some roots see together.
pub open spec fn files_seen(world: World, roots: Seq<Seq<char>>) -> nat
    decreases roots.len(),
{
    if roots.len() == 0 {
        0
    } else {
        ((world.walk)(roots[0])).counted.files as nat + files_seen(world, roots.drop_first())
    }
}

proof fn lemma_claims_count_alike(
    world: World,
    detectors: Seq<Detector>,
    opts: Options,
    found: Seq<Claim>,
    counted: Progress,
    i: int,
)
    requires
        0 <= i < claim_events(world, detectors, opts, found, counted).len(),
    ensures
        claim_events(world, detectors, opts, found, counted)[i] matches EventView::Progress(p)
            ==> p == counted,
    decreases found.len(),
{
    let first = project_events(world, detectors, opts, found[0], counted);
    let rest = found.drop_first();
    if i >= first.len() {
        let later = claim_events(world, detectors, opts, rest, counted);
        lemma_claims_count_alike(world, detectors, opts, rest, counted, i - first.len());
        assert((first + later)[i] == later[i - first.len()]);
    }
}

proof fn lemma_counts_start_from(
    world: World,
    detectors: Seq<Detector>,
    opts: Options,
    roots: Seq<Seq<char>>,
    counted: Progress,
    i: int,
)
    requires
        counted.dirs + dirs_seen(world, roots) <= u64::MAX,
        counted.files + files_seen(world, roots) <= u64::MAX,
        0 <= i < scan_events(world, detectors, opts, roots, counted).len(),
    ensures
        scan_events(world, detectors, opts, roots, counted)[i] matches EventView::Progress(p)
            ==> counted.dirs <= p.dirs && counted.files <= p.files,
    decreases roots.len(),
{
    if roots.len() > 0 {
        let walk = (world.walk)(roots[0]);
        let now = both_counted(counted, walk.counted);
        let rest = roots.drop_first();
        let first = claim_events(world, detectors, opts, walk.found, now);
        let later = scan_events(world, detectors, opts, rest, now);
        if i < first.len() {
            lemma_claims_count_alike(world, detectors, opts, walk.found, now, i);
        } else {
            lemma_counts_start_from(world, detectors, opts, rest, now, i - first.len());
            assert((first + later)[i] == later[i - first.len()]);
        }
    }
}

/// The counts that a scan passes on never go down, as long as a machine word holds
/// what is seen below all roots together.
pub proof fn counts_never_go_down(
    world: World,
    detectors: Seq<Detector>,
    opts: Options,
    roots: Seq<Seq<char>>,
    counted: Progress,
    i: int,
    j: int,
)
    requires
        counted.dirs + dirs_seen(world, roots) <= u64::MAX,
        counted.files + files_seen(world, roots) <= u64::MAX,
        0 <= i <= j < scan_events(world, detectors, opts, roots, counted).len(),
    ensures
        ({
            let events = scan_events(world, detectors, opts, roots, counted);
            match (events[i], events[j]) {
                (EventView::Progress(p), EventView::Progress(q)) => p.dirs <= q.dirs && p.files
                    <= q.files,
                _ => true,
            }
        }),
    decreases roots.len(),
{
    if roots.len() > 0 {
        let walk = (world.walk)(roots[0]);
        let now = both_counted(counted, walk.counted);
        let rest = roots.drop_first();
        let first = claim_events(world, detectors, opts, walk.found, now);
        let later = scan_events(world, detectors, opts, rest, now);
        if i < first.len() {
            lemma_claims_count_alike(world, detectors, opts, walk.found, now, i);
            if j < first.len() {
                lemma_claims_count_alike(world, detectors, opts, walk.found, now, j);
            } else {
                lemma_counts_start_from(world, detectors, opts, rest, now, j - first.len());
                assert((first + later)[j] == later[j - first.len()]);
            }
        } else {
            counts_never_go_down(
                world,
                detectors,
                opts,
                rest,
                now,
                i - first.len(),
                j - first.len(),
            );
            assert((first + later)[i] == later[i - first.len()]);
            assert((first + later)[j] == later[j - first.len()]);
        }
    }
}

/// The counts at the end are those of all walks together.
pub proof fn the_last_counts_are_the_totals(
    world: World,
    detectors: Seq<Detector>,
    opts: Options,
    roots: Seq<Seq<char>>,
    counted: Progress,
)
    requires
        counted.dirs + dirs_seen(world, roots) <= u64::MAX,
        counted.files + files_seen(world, roots) <= u64::MAX,
    ensures
        ({
            let events = scan_events(world, detectors, opts, roots, counted);
            events.len() > 0 && (events.last() matches EventView::Progress(p) && p.dirs
                == counted.dirs + dirs_seen(world, roots) && p.files == counted.files
                + files_seen(world, roots))
        }),
    decreases roots.len(),
{
    if roots.len() > 0 {
        let walk = (world.walk)(roots[0]);
        let now = both_counted(counted, walk.counted);
        let rest = roots.drop_first();
        the_last_counts_are_the_totals(world, detectors, opts, rest, now);
    }
}

} // verus!
