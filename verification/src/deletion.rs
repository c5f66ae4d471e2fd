//! Going through with a deletion, step by step.
//!
//! A [`Reclaim`] says what to do next and is told what came of it. Nothing is
//! removed before it was announced and agreed to, and no target before it was seen
//! to lie inside its project with all links followed.
use crate::deals;
use crate::deals::{blocked_projects, eligible_rows};
use crate::ranking;
use crate::reclaim;
use crate::reclaim::{
    announce, is_agreed, is_contained, plan, say_failed, say_freed, say_left, say_nothing,
    say_refused, say_removed, Doomed, DoomedView, Outcome,
};
use crate::scan;
use crate::scan::Project;
use crate::text;
use vstd::prelude::*;
use vstd::string::*;

verus! {

/// What is to be done next.
#[derive(Debug)]
pub enum Order {
    /// Print lines, and complain about some.
    Say { out: Vec<String>, err: Vec<String> },
    /// Print a prompt and read one line.
    Ask { prompt: String },
    /// Find out where both paths lead with all links followed.
    Resolve { root: String, path: String },
    /// Remove a directory and all that is in it.
    Remove { path: String },
    /// Nothing more.
    Finished,
}

/// The content of an [`Order`].
pub enum OrderView {
    Say { out: Seq<Seq<char>>, err: Seq<Seq<char>> },
    Ask { prompt: Seq<char> },
    Resolve { root: Seq<char>, path: Seq<char> },
    Remove { path: Seq<char> },
    Finished,
}

impl View for Order {
    type V = OrderView;

    open spec fn view(&self) -> OrderView {
        match self {
            Order::Say { out, err } => OrderView::Say {
                out: text::texts(out@),
                err: text::texts(err@),
            },
            Order::Ask { prompt } => OrderView::Ask { prompt: prompt@ },
            Order::Resolve { root, path } => OrderView::Resolve { root: root@, path: path@ },
            Order::Remove { path } => OrderView::Remove { path: path@ },
            Order::Finished => OrderView::Finished,
        }
    }
}

/// What came of it.
#[derive(Debug)]
pub enum Report {
    Done,
    Answered(String),
    /// `None` where a path leads nowhere.
    Resolved { root: Option<String>, path: Option<String> },
    Removed,
    /// Why the directory could not be removed.
    Failed(String),
}

/// The content of a [`Report`].
pub enum ReportView {
    Done,
    Answered(Seq<char>),
    Resolved { root: Option<Seq<char>>, path: Option<Seq<char>> },
    Removed,
    Failed(Seq<char>),
}

impl View for Report {
    type V = ReportView;

    open spec fn view(&self) -> ReportView {
        match self {
            Report::Done => ReportView::Done,
            Report::Answered(s) => ReportView::Answered(s@),
            Report::Resolved { root, path } => ReportView::Resolved {
                root: reclaim::place_of(*root),
                path: reclaim::place_of(*path),
            },
            Report::Removed => ReportView::Removed,
            Report::Failed(s) => ReportView::Failed(s@),
        }
    }
}

/// Where a deletion stands: what was ordered last. The number is that of the
/// target at hand.
#[derive(Debug, Clone, Copy, PartialEq, Eq, Structural)]
pub enum Stage {
    Fresh,
    Announced,
    Asking,
    Agreed,
    Resolving(usize),
    Removing(usize),
    Told(usize),
    Over,
}

/// The content of a [`Reclaim`].
pub struct ReclaimView {
    pub plan: Seq<DoomedView>,
    pub held_back: nat,
    /// How many targets could be deleted and are not in the plan.
    pub below: nat,
    pub skip_prompt: bool,
    pub outcome: Outcome,
    pub stage: Stage,
}

/// The text of the prompt.
pub open spec fn prompt_text() -> Seq<char> {
    "\nType 'yes' to continue: "@
}

/// An order to print.
pub open spec fn say(out: Seq<Seq<char>>, err: Seq<Seq<char>>) -> OrderView {
    OrderView::Say { out, err }
}

impl ReclaimView {
    /// How many targets have been dealt with.
    pub open spec fn dealt_with(self) -> nat {
        match self.stage {
            Stage::Resolving(i) => i as nat,
            Stage::Removing(i) => i as nat,
            Stage::Told(i) => i as nat + 1,
            Stage::Over => self.plan.len(),
            _ => 0,
        }
    }

    /// The target at hand is one of the plan, the sums over the plan fit, and the
    /// outcome covers the targets that have been dealt with.
    pub open spec fn valid(self) -> bool {
        &&& self.plan.len() <= usize::MAX
        &&& reclaim::rows_fit(self.plan)
        &&& match self.stage {
            Stage::Resolving(i) => i < self.plan.len(),
            Stage::Removing(i) => i < self.plan.len(),
            Stage::Told(i) => i < self.plan.len(),
            _ => true,
        }
        &&& self.dealt_with() <= self.plan.len()
        &&& self.outcome.freed <= ranking::total(
            reclaim::bytes_of(self.plan).take(self.dealt_with() as int),
        )
        &&& self.outcome.removed + self.outcome.failures + self.outcome.refused
            <= self.dealt_with()
    }

    /// A report on what was ordered last.
    pub open spec fn expects(self, report: ReportView) -> bool {
        match self.stage {
            Stage::Asking => report is Answered,
            Stage::Resolving(_) => report is Resolved,
            Stage::Removing(_) => report is Removed || report is Failed,
            _ => report is Done,
        }
    }

    /// On to target `i`, or to the end.
    pub open spec fn to_target(self, i: nat) -> (ReclaimView, OrderView) {
        if i < self.plan.len() {
            (
                ReclaimView { stage: Stage::Resolving(i as usize), ..self },
                OrderView::Resolve {
                    root: self.plan[i as int].project.root,
                    path: self.plan[i as int].target.path,
                },
            )
        } else {
            (
                ReclaimView { stage: Stage::Over, ..self },
                say(reclaim::closing_out(self.outcome), reclaim::closing_err(self.outcome)),
            )
        }
    }

    /// The outcome with one more target that is gone.
    pub open spec fn with_removed(self, i: int) -> Outcome {
        Outcome {
            freed: (self.outcome.freed + self.plan[i].target.reclaimable()) as u64,
            removed: (self.outcome.removed + 1) as usize,
            ..self.outcome
        }
    }

    /// Where the deletion stands after a report, and what is to be done next.
    pub open spec fn after(self, report: ReportView) -> (ReclaimView, OrderView) {
        match (self.stage, report) {
            (Stage::Fresh, _) => if self.plan.len() == 0 {
                (
                    ReclaimView { stage: Stage::Over, ..self },
                    say(reclaim::nothing_lines(self.held_back, self.below), Seq::empty()),
                )
            } else {
                (
                    ReclaimView { stage: Stage::Announced, ..self },
                    say(reclaim::announcement(self.plan, self.held_back), Seq::empty()),
                )
            },
            (Stage::Announced, _) => if self.skip_prompt {
                self.to_target(0)
            } else {
                (
                    ReclaimView { stage: Stage::Asking, ..self },
                    OrderView::Ask { prompt: prompt_text() },
                )
            },
            (Stage::Asking, ReportView::Answered(answer)) => if reclaim::agreed(answer) {
                self.to_target(0)
            } else {
                (
                    ReclaimView { stage: Stage::Over, ..self },
                    say(seq!["Aborted. Nothing was deleted."@], Seq::empty()),
                )
            },
            (Stage::Agreed, _) => self.to_target(0),
            (Stage::Resolving(i), ReportView::Resolved { root, path }) => if reclaim::contained(
                root,
                path,
            ) {
                (
                    ReclaimView { stage: Stage::Removing(i), ..self },
                    OrderView::Remove { path: self.plan[i as int].target.path },
                )
            } else {
                (
                    ReclaimView {
                        stage: Stage::Told(i),
                        outcome: Outcome {
                            refused: (self.outcome.refused + 1) as usize,
                            ..self.outcome
                        },
                        ..self
                    },
                    say(
                        Seq::empty(),
                        seq![reclaim::refused_text(self.plan[i as int].target)],
                    ),
                )
            },
            (Stage::Removing(i), ReportView::Removed) => (
                ReclaimView {
                    stage: Stage::Told(i),
                    outcome: self.with_removed(i as int),
                    ..self
                },
                say(seq![reclaim::removed_text(self.plan[i as int].target)], Seq::empty()),
            ),
            (Stage::Removing(i), ReportView::Failed(why)) => (
                ReclaimView {
                    stage: Stage::Told(i),
                    outcome: Outcome {
                        failures: (self.outcome.failures + 1) as usize,
                        ..self.outcome
                    },
                    ..self
                },
                say(
                    Seq::empty(),
                    seq![reclaim::failed_text(self.plan[i as int].target, why)],
                ),
            ),
            (Stage::Told(i), _) => self.to_target(i as nat + 1),
            _ => (ReclaimView { stage: Stage::Over, ..self }, OrderView::Finished),
        }
    }
}

/// Whatever is reported, the outcome covers what has been dealt with and its sums
/// fit.
pub proof fn a_deletion_stays_valid(s: ReclaimView, report: ReportView)
    requires
        s.valid(),
        s.expects(report),
    ensures
        s.after(report).0.valid(),
{
    let values = reclaim::bytes_of(s.plan);
    let next = s.after(report).0;
    let i = s.dealt_with() as int;
    let j = next.dealt_with() as int;
    ranking::lemma_total_grows(values, i);
    ranking::lemma_total_grows(values, j);
    if i <= j {
        ranking::lemma_total_grows(values.take(j), i);
        assert(values.take(j).take(i) =~= values.take(i));
    }
    match s.stage {
        Stage::Removing(k) => {
            assert(values.take(k + 1).drop_last() =~= values.take(k as int));
            assert(values.take(k + 1).last() == s.plan[k as int].target.reclaimable());
        },
        _ => {},
    }
}

/// A deletion in progress.
#[derive(Debug)]
pub struct Reclaim<'a> {
    plan: Vec<Doomed<'a>>,
    held_back: usize,
    below: usize,
    skip_prompt: bool,
    outcome: Outcome,
    stage: Stage,
}

impl<'a> View for Reclaim<'a> {
    type V = ReclaimView;

    closed spec fn view(&self) -> ReclaimView {
        ReclaimView {
            plan: reclaim::doomed_views(self.plan@),
            held_back: self.held_back as nat,
            below: self.below as nat,
            skip_prompt: self.skip_prompt,
            outcome: self.outcome,
            stage: self.stage,
        }
    }
}

/// Nothing done yet.
pub open spec fn no_outcome() -> Outcome {
    Outcome { freed: 0, removed: 0, failures: 0, refused: 0 }
}

/// Begins a deletion of what is worth it in some projects, or of all that can be
/// deleted. It is announced first, and agreed to unless the prompt is skipped.
pub fn run<'a>(projects: &'a Vec<Project>, skip_prompt: bool, rate: u64, all: bool) -> (r: Reclaim<
    'a,
>)
    requires
        deals::totals_fit(scan::project_views(projects@)),
    ensures
        r@ == (ReclaimView {
            plan: reclaim::plan_of(scan::project_views(projects@), rate, all),
            held_back: deals::blocked(scan::project_views(projects@)).len(),
            below: (deals::eligible(scan::project_views(projects@)).len() - reclaim::plan_of(
                scan::project_views(projects@),
                rate,
                all,
            ).len()) as nat,
            skip_prompt,
            outcome: no_outcome(),
            stage: Stage::Fresh,
        }),
        r@.valid(),
{
    let ghost ps = scan::project_views(projects@);
    let plan = plan(projects, rate, all);
    let blocked = blocked_projects(projects);
    let eligible = eligible_rows(projects);
    proof {
        assert(reclaim::doomed_views(eligible@).len() == eligible.len());
        assert(reclaim::doomed_views(plan@).len() == plan.len());
        assert(deals::blocked(ps).len() == blocked@.len());
        reclaim::lemma_plan_fits(ps, rate, all);
    }
    let below = eligible.len() - plan.len();
    let r = Reclaim {
        plan,
        held_back: blocked.len(),
        below,
        skip_prompt,
        outcome: Outcome { freed: 0, removed: 0, failures: 0, refused: 0 },
        stage: Stage::Fresh,
    };
    assert(reclaim::bytes_of(r@.plan).take(0) =~= Seq::<nat>::empty());
    r
}

/// Begins a deletion that has been announced and agreed to already.
pub fn execute<'a>(plan: Vec<Doomed<'a>>) -> (r: Reclaim<'a>)
    requires
        reclaim::rows_fit(reclaim::doomed_views(plan@)),
    ensures
        r@ == (ReclaimView {
            plan: reclaim::doomed_views(plan@),
            held_back: 0,
            below: 0,
            skip_prompt: true,
            outcome: no_outcome(),
            stage: Stage::Agreed,
        }),
        r@.valid(),
{
    assert(reclaim::doomed_views(plan@).len() == plan.len());
    assert(reclaim::bytes_of(reclaim::doomed_views(plan@)).take(0) =~= Seq::<nat>::empty());
    Reclaim {
        plan,
        held_back: 0,
        below: 0,
        skip_prompt: true,
        outcome: Outcome { freed: 0, removed: 0, failures: 0, refused: 0 },
        stage: Stage::Agreed,
    }
}

fn one_line(s: String) -> (r: Vec<String>)
    ensures
        text::texts(r@) == seq![s@],
{
    let mut r: Vec<String> = Vec::new();
    r.push(s);
    assert(text::texts(r@) =~= seq![s@]);
    r
}

fn no_lines() -> (r: Vec<String>)
    ensures
        text::texts(r@) == Seq::<Seq<char>>::empty(),
{
    let r: Vec<String> = Vec::new();
    assert(text::texts(r@) =~= Seq::<Seq<char>>::empty());
    r
}

impl<'a> Reclaim<'a> {
    fn go_to_target(&mut self, i: usize) -> (r: Order)
        ensures
            (final(self)@, r@) == old(self)@.to_target(i as nat),
    {
        if i < self.plan.len() {
            self.stage = Stage::Resolving(i);
            let d = self.plan[i];
            Order::Resolve { root: d.project.root.clone(), path: d.target.path.clone() }
        } else {
            self.stage = Stage::Over;
            Order::Say { out: say_freed(self.outcome), err: say_left(self.outcome) }
        }
    }

    /// What has come of the deletion so far.
    pub fn outcome(&self) -> (r: Outcome)
        ensures
            r == self@.outcome,
    {
        self.outcome
    }

    /// Takes the report on what was ordered last and says what to do next. The
    /// first report is [`Report::Done`].
    pub fn advance(&mut self, report: Report) -> (r: Order)
        requires
            old(self)@.valid(),
            old(self)@.expects(report@),
        ensures
            (final(self)@, r@) == old(self)@.after(report@),
            final(self)@.valid(),
    {
        let ghost before = self@;
        proof {
            a_deletion_stays_valid(before, report@);
            ranking::lemma_total_grows(
                reclaim::bytes_of(before.plan),
                before.dealt_with() as int,
            );
        }
        match (self.stage, report) {
            (Stage::Fresh, _) => {
                assert(before.plan.len() == self.plan@.len());
                if self.plan.len() == 0 {
                    self.stage = Stage::Over;
                    Order::Say { out: say_nothing(self.held_back, self.below), err: no_lines() }
                } else {
                    self.stage = Stage::Announced;
                    Order::Say { out: announce(&self.plan, self.held_back), err: no_lines() }
                }
            },
            (Stage::Announced, _) => if self.skip_prompt {
                self.go_to_target(0)
            } else {
                self.stage = Stage::Asking;
                Order::Ask { prompt: "\nType 'yes' to continue: ".to_owned() }
            },
            (Stage::Asking, Report::Answered(answer)) => if is_agreed(answer.as_str()) {
                self.go_to_target(0)
            } else {
                self.stage = Stage::Over;
                Order::Say {
                    out: one_line("Aborted. Nothing was deleted.".to_owned()),
                    err: no_lines(),
                }
            },
            (Stage::Agreed, _) => self.go_to_target(0),
            (Stage::Resolving(i), Report::Resolved { root, path }) => {
                assert(before.plan[i as int] == self.plan@[i as int]@);
                if is_contained(&root, &path) {
                    self.stage = Stage::Removing(i);
                    Order::Remove { path: self.plan[i].target.path.clone() }
                } else {
                    self.stage = Stage::Told(i);
                    self.outcome.refused = self.outcome.refused + 1;
                    Order::Say {
                        out: no_lines(),
                        err: one_line(say_refused(self.plan[i].target)),
                    }
                }
            },
            (Stage::Removing(i), Report::Removed) => {
                assert(before.plan[i as int] == self.plan@[i as int]@);
                proof {
                    let values = reclaim::bytes_of(before.plan);
                    ranking::lemma_total_grows(values, i + 1);
                    assert(values.take(i + 1).drop_last() =~= values.take(i as int));
                }
                self.stage = Stage::Told(i);
                self.outcome.freed = self.outcome.freed + self.plan[i].target.reclaimable_bytes();
                self.outcome.removed = self.outcome.removed + 1;
                Order::Say { out: one_line(say_removed(self.plan[i].target)), err: no_lines() }
            },
            (Stage::Removing(i), Report::Failed(why)) => {
                assert(before.plan[i as int] == self.plan@[i as int]@);
                self.stage = Stage::Told(i);
                self.outcome.failures = self.outcome.failures + 1;
                Order::Say {
                    out: no_lines(),
                    err: one_line(say_failed(self.plan[i].target, why.as_str())),
                }
            },
            (Stage::Told(i), _) => {
                assert(i < self.plan.len());
                self.go_to_target(i + 1)
            },
            _ => {
                self.stage = Stage::Over;
                Order::Finished
            },
        }
    }
}

/// What the user would answer, where paths lead, and whether removing them works.
pub struct World {
    pub answer: Seq<char>,
    pub resolve: spec_fn(Seq<char>) -> Option<Seq<char>>,
    /// Why a directory could not be removed, if it could not.
    pub remove: spec_fn(Seq<char>) -> Option<Seq<char>>,
}

impl World {
    /// The report on an order.
    pub open spec fn report(self, order: OrderView) -> ReportView {
        match order {
            OrderView::Ask { .. } => ReportView::Answered(self.answer),
            OrderView::Resolve { root, path } => ReportView::Resolved {
                root: (self.resolve)(root),
                path: (self.resolve)(path),
            },
            OrderView::Remove { path } => match (self.remove)(path) {
                Some(why) => ReportView::Failed(why),
                None => ReportView::Removed,
            },
            _ => ReportView::Done,
        }
    }

    /// Whether a row of a plan really lies inside its project.
    pub open spec fn is_inside(self, d: DoomedView) -> bool {
        reclaim::contained((self.resolve)(d.project.root), (self.resolve)(d.target.path))
    }
}

/// The directories whose removal is ordered from an order on, and what comes of it,
/// when a deletion is run to its end with at most `fuel` reports.
pub open spec fn carried_out(at: (ReclaimView, OrderView), world: World, fuel: nat) -> Option<
    (Seq<Seq<char>>, Outcome),
>
    decreases fuel,
{
    if at.1 is Finished {
        Some((Seq::empty(), at.0.outcome))
    } else if fuel == 0 {
        None
    } else {
        match carried_out(at.0.after(world.report(at.1)), world, (fuel - 1) as nat) {
            Some((rest, outcome)) => Some(
                (
                    (match at.1 {
                        OrderView::Remove { path } => seq![path],
                        _ => Seq::<Seq<char>>::empty(),
                    }) + rest,
                    outcome,
                ),
            ),
            None => None,
        }
    }
}

/// The directories of a plan, from row `i` on, that really lie inside their
/// projects.
pub open spec fn inside_from(plan: Seq<DoomedView>, world: World, i: nat) -> Seq<Seq<char>>
    decreases plan.len() - i,
{
    if i >= plan.len() {
        Seq::empty()
    } else {
        let rest = inside_from(plan, world, i + 1);
        if world.is_inside(plan[i as int]) {
            seq![plan[i as int].target.path] + rest
        } else {
            rest
        }
    }
}

/// What one row of a plan adds to the outcome.
pub open spec fn outcome_with(o: Outcome, d: DoomedView, world: World) -> Outcome {
    if !world.is_inside(d) {
        Outcome { refused: (o.refused + 1) as usize, ..o }
    } else {
        match (world.remove)(d.target.path) {
            Some(_) => Outcome { failures: (o.failures + 1) as usize, ..o },
            None => Outcome {
                freed: (o.freed + d.target.reclaimable()) as u64,
                removed: (o.removed + 1) as usize,
                ..o
            },
        }
    }
}

/// What the rows of a plan from `i` on add to the outcome.
pub open spec fn outcome_from(
    o: Outcome,
    plan: Seq<DoomedView>,
    world: World,
    i: nat,
) -> Outcome
    decreases plan.len() - i,
{
    if i >= plan.len() {
        o
    } else {
        outcome_from(outcome_with(o, plan[i as int], world), plan, world, i + 1)
    }
}

proof fn lemma_carry_out(s: ReclaimView, world: World, i: nat) -> (fuel: nat)
    requires
        i <= s.plan.len() <= usize::MAX,
    ensures
        carried_out(s.to_target(i), world, fuel) == Some(
            (inside_from(s.plan, world, i), outcome_from(s.outcome, s.plan, world, i)),
        ),
    decreases s.plan.len() - i,
{
    if i < s.plan.len() {
        let d = s.plan[i as int];
        let k = i as usize;
        let told = ReclaimView {
            stage: Stage::Told(k),
            outcome: outcome_with(s.outcome, d, world),
            ..s
        };
        let f = lemma_carry_out(told, world, i + 1);
        let rest = inside_from(s.plan, world, i + 1);
        let (resolving, order) = s.to_target(i);
        assert(told.after(ReportView::Done) == told.to_target(i + 1));
        if world.is_inside(d) {
            let removing = ReclaimView { stage: Stage::Removing(k), ..s };
            let remove = OrderView::Remove { path: d.target.path };
            let (t, said) = removing.after(world.report(remove));
            assert(t == told);
            assert(carried_out((t, said), world, f + 1) == Some(
                (Seq::<Seq<char>>::empty() + rest, outcome_from(told.outcome, s.plan, world, i + 1)),
            ));
            assert(Seq::<Seq<char>>::empty() + rest =~= rest);
            assert(carried_out((removing, remove), world, f + 2) == Some(
                (seq![d.target.path] + rest, outcome_from(told.outcome, s.plan, world, i + 1)),
            ));
            assert(resolving.after(world.report(order)) == (removing, remove));
            assert(Seq::<Seq<char>>::empty() + (seq![d.target.path] + rest) =~= seq![d.target.path]
                + rest);
            f + 3
        } else {
            let (t, said) = resolving.after(world.report(order));
            assert(t == told);
            assert(carried_out((t, said), world, f + 1) == Some(
                (Seq::<Seq<char>>::empty() + rest, outcome_from(told.outcome, s.plan, world, i + 1)),
            ));
            assert(Seq::<Seq<char>>::empty() + rest =~= rest);
            f + 2
        }
    } else {
        let (over, said) = s.to_target(i);
        let last = over.after(ReportView::Done);
        assert(carried_out(last, world, 0) == Some((Seq::<Seq<char>>::empty(), s.outcome)));
        assert(carried_out((over, said), world, 1) == Some(
            (Seq::<Seq<char>>::empty() + Seq::<Seq<char>>::empty(), s.outcome),
        ));
        assert(Seq::<Seq<char>>::empty() + Seq::<Seq<char>>::empty() =~= Seq::<
            Seq<char>,
        >::empty());
        1
    }
}

/// Nothing is removed unless the prompt was skipped or answered with `yes`. What is
/// removed then is exactly what the plan names and really lies inside its project,
/// each directory once and in the order of the plan. What counts as freed is what
/// was really removed.
pub proof fn only_what_was_agreed_to_is_removed(s: ReclaimView, world: World)
    requires
        s.stage == Stage::Fresh,
        s.plan.len() <= usize::MAX,
    ensures
        exists|fuel: nat| #[trigger]
            carried_out(s.after(ReportView::Done), world, fuel) == Some(
                if s.skip_prompt || reclaim::agreed(world.answer) {
                    (inside_from(s.plan, world, 0), outcome_from(s.outcome, s.plan, world, 0))
                } else {
                    (Seq::<Seq<char>>::empty(), s.outcome)
                },
            ),
{
    let none = Seq::<Seq<char>>::empty();
    let ended = ReclaimView { stage: Stage::Over, ..s };
    let (first, said) = s.after(ReportView::Done);
    assert(none + none =~= none);
    assert(carried_out(ended.after(ReportView::Done), world, 0) == Some((none, s.outcome)));
    if s.plan.len() == 0 {
        assert(carried_out((first, said), world, 1) == Some((none + none, s.outcome)));
    } else if s.skip_prompt {
        let f = lemma_carry_out(first, world, 0);
        let all = inside_from(s.plan, world, 0);
        assert(none + all =~= all);
        assert(carried_out((first, said), world, f + 1) == Some(
            (none + all, outcome_from(s.outcome, s.plan, world, 0)),
        ));
    } else {
        let asking = ReclaimView { stage: Stage::Asking, ..s };
        let ask = OrderView::Ask { prompt: prompt_text() };
        assert(first.after(ReportView::Done) == (asking, ask));
        if reclaim::agreed(world.answer) {
            let f = lemma_carry_out(asking, world, 0);
            let all = inside_from(s.plan, world, 0);
            assert(none + all =~= all);
            assert(carried_out((asking, ask), world, f + 1) == Some(
                (none + all, outcome_from(s.outcome, s.plan, world, 0)),
            ));
            assert(carried_out((first, said), world, f + 2) == Some(
                (none + all, outcome_from(s.outcome, s.plan, world, 0)),
            ));
        } else {
            let aborted = asking.after(world.report(ask));
            assert(carried_out(aborted, world, 1) == Some((none + none, s.outcome)));
            assert(carried_out((asking, ask), world, 2) == Some((none + none, s.outcome)));
            assert(carried_out((first, said), world, 3) == Some((none + none, s.outcome)));
        }
    }
}

/// A deletion that was agreed to before it began removes exactly what the plan names
/// and really lies inside its project, each directory once and in the order of the plan.
pub proof fn what_was_agreed_to_before_is_removed(s: ReclaimView, world: World)
    requires
        s.stage == Stage::Agreed,
        s.plan.len() <= usize::MAX,
    ensures
        exists|fuel: nat| #[trigger]
            carried_out(s.after(ReportView::Done), world, fuel) == Some(
                (inside_from(s.plan, world, 0), outcome_from(s.outcome, s.plan, world, 0)),
            ),
{
    let f = lemma_carry_out(s, world, 0);
    assert(carried_out(s.after(ReportView::Done), world, f) == Some(
        (inside_from(s.plan, world, 0), outcome_from(s.outcome, s.plan, world, 0)),
    ));
}

/// Whatever a deletion in some projects removes belongs to a project whose work is
/// backed up, and is above the break-even line unless all was asked for.
pub proof fn a_plan_holds_only_backed_up_work(
    ps: Seq<scan::ProjectView>,
    rate: u64,
    all: bool,
    k: int,
)
    requires
        deals::eligible(ps).len() <= usize::MAX,
        0 <= k < reclaim::plan_of(ps, rate, all).len(),
    ensures
        reclaim::plan_of(ps, rate, all)[k].project.git_state.safe(),
        exists|j: int|
            0 <= j < deals::ranked(ps).len() && #[trigger] deals::ranked(ps)[j]
                == reclaim::plan_of(ps, rate, all)[k] && (all || j < deals::worthwhile(
                deals::ranked(ps),
                rate,
                reclaim::PLAN_FIELD,
            )),
{
    let j = reclaim::lemma_planned_is_ranked(ps, rate, all, k);
    deals::only_backed_up_work_is_listed(ps, j);
}

} // verus!
