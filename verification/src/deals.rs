//! The rows that can be acted on: every target of a project whose work is backed
//! up, ranked by what it returns per second of rebuild. One flat list across all
//! projects, because what to delete first does not respect project boundaries.
use crate::chart;
use crate::chart::{draw, units, Bars, Units};
use crate::ranking;
use crate::ranking::rank;
use crate::reclaim;
use crate::reclaim::{Doomed, DoomedView};
use crate::scan;
use crate::scan::{Project, ProjectView, TargetView};
use vstd::prelude::*;

verus! {

/// One row for each target of a project.
pub open spec fn rows_of(p: ProjectView) -> Seq<DoomedView> {
    Seq::new(p.targets.len(), |i: int| DoomedView { project: p, target: p.targets[i] })
}

/// Every target of the projects that are safe to reclaim.
pub open spec fn eligible(ps: Seq<ProjectView>) -> Seq<DoomedView>
    decreases ps.len(),
{
    if ps.len() == 0 {
        Seq::empty()
    } else {
        let before = eligible(ps.drop_last());
        if ps.last().git_state.safe() {
            before + rows_of(ps.last())
        } else {
            before
        }
    }
}

/// The projects that are not safe to reclaim.
pub open spec fn blocked(ps: Seq<ProjectView>) -> Seq<ProjectView>
    decreases ps.len(),
{
    if ps.len() == 0 {
        Seq::empty()
    } else {
        let before = blocked(ps.drop_last());
        if ps.last().git_state.safe() {
            before
        } else {
            before.push(ps.last())
        }
    }
}

/// What rows are ranked by.
pub open spec fn keys_of(rows: Seq<DoomedView>) -> Seq<u128> {
    rows.map_values(|d: DoomedView| d.target.efficiency().bits() as u128)
}

/// Rows in the order of a list of indices.
pub open spec fn arranged(rows: Seq<DoomedView>, order: Seq<usize>) -> Seq<DoomedView> {
    Seq::new(order.len(), |k: int| rows[order[k] as int])
}

/// The rows that can be acted on, best first.
pub open spec fn ranked(ps: Seq<ProjectView>) -> Seq<DoomedView> {
    arranged(eligible(ps), ranking::ranking(keys_of(eligible(ps))))
}

/// Every row that can be acted on, in the order of the projects.
pub fn eligible_rows<'a>(projects: &'a Vec<Project>) -> (r: Vec<Doomed<'a>>)
    ensures
        reclaim::doomed_views(r@) == eligible(scan::project_views(projects@)),
{
    let ghost ps = scan::project_views(projects@);
    let mut r: Vec<Doomed<'a>> = Vec::new();
    assert(ps.take(0) =~= Seq::<ProjectView>::empty());
    assert(reclaim::doomed_views(r@) =~= eligible(ps.take(0)));
    let mut i: usize = 0;
    while i < projects.len()
        invariant
            i <= projects@.len(),
            ps == scan::project_views(projects@),
            reclaim::doomed_views(r@) == eligible(ps.take(i as int)),
        decreases projects@.len() - i,
    {
        let p = &projects[i];
        let ghost before = reclaim::doomed_views(r@);
        proof {
            assert(ps.take(i + 1).drop_last() =~= ps.take(i as int));
            assert(ps.take(i + 1).last() == p@);
        }
        if p.git_state.is_safe_to_reclaim() {
            let mut j: usize = 0;
            assert(before + rows_of(p@).take(0) =~= before);
            while j < p.targets.len()
                invariant
                    j <= p.targets@.len(),
                    reclaim::doomed_views(r@) == before + rows_of(p@).take(j as int),
                decreases p.targets@.len() - j,
            {
                let d = Doomed { project: p, target: &p.targets[j] };
                let ghost so_far = reclaim::doomed_views(r@);
                r.push(d);
                proof {
                    assert(reclaim::doomed_views(r@) =~= so_far.push(d@));
                    assert(rows_of(p@)[j as int] == d@);
                    assert(rows_of(p@).take(j + 1) =~= rows_of(p@).take(j as int).push(d@));
                    assert(before + rows_of(p@).take(j + 1) =~= so_far.push(d@));
                }
                j = j + 1;
            }
            assert(rows_of(p@).take(j as int) =~= rows_of(p@));
        }
        i = i + 1;
    }
    assert(ps.take(i as int) =~= ps);
    r
}

/// The projects that are not safe to reclaim, in their order.
pub fn blocked_projects<'a>(projects: &'a Vec<Project>) -> (r: Vec<&'a Project>)
    ensures
        r@.map_values(|p: &'a Project| p@) == blocked(scan::project_views(projects@)),
{
    let ghost ps = scan::project_views(projects@);
    let mut r: Vec<&'a Project> = Vec::new();
    assert(ps.take(0) =~= Seq::<ProjectView>::empty());
    assert(r@.map_values(|p: &'a Project| p@) =~= blocked(ps.take(0)));
    let mut i: usize = 0;
    while i < projects.len()
        invariant
            i <= projects@.len(),
            ps == scan::project_views(projects@),
            r@.map_values(|p: &'a Project| p@) == blocked(ps.take(i as int)),
        decreases projects@.len() - i,
    {
        let p = &projects[i];
        let ghost before = r@.map_values(|p: &'a Project| p@);
        proof {
            assert(ps.take(i + 1).drop_last() =~= ps.take(i as int));
            assert(ps.take(i + 1).last() == p@);
        }
        if !p.git_state.is_safe_to_reclaim() {
            r.push(p);
            assert(r@.map_values(|p: &'a Project| p@) =~= before.push(p@));
        }
        i = i + 1;
    }
    assert(ps.take(i as int) =~= ps);
    r
}

/// How some rows are ranked.
pub fn rank_rows(rows: &Vec<Doomed>) -> (r: Vec<usize>)
    ensures
        r@ == ranking::ranking(keys_of(reclaim::doomed_views(rows@))),
        ranking::is_ranking(keys_of(reclaim::doomed_views(rows@)), r@),
{
    let ghost views = reclaim::doomed_views(rows@);
    let mut keys: Vec<u128> = Vec::new();
    let mut i: usize = 0;
    while i < rows.len()
        invariant
            i <= rows@.len(),
            views == reclaim::doomed_views(rows@),
            keys@.len() == i,
            forall|k: int| 0 <= k < i ==> #[trigger] keys@[k] == keys_of(views)[k],
        decreases rows@.len() - i,
    {
        keys.push(rows[i].target.efficiency().to_bits() as u128);
        i = i + 1;
    }
    assert(keys@ =~= keys_of(views));
    rank(&keys)
}

/// Some rows in another order.
pub fn arrange<'a>(rows: &Vec<Doomed<'a>>, order: &Vec<usize>) -> (r: Vec<Doomed<'a>>)
    requires
        ranking::all_once(order@, rows@.len()),
    ensures
        reclaim::doomed_views(r@) == arranged(reclaim::doomed_views(rows@), order@),
{
    let ghost views = reclaim::doomed_views(rows@);
    let mut r: Vec<Doomed<'a>> = Vec::new();
    let mut k: usize = 0;
    while k < order.len()
        invariant
            k <= order@.len(),
            views == reclaim::doomed_views(rows@),
            ranking::all_once(order@, rows@.len()),
            r@.len() == k,
            forall|j: int| 0 <= j < k ==> (#[trigger] r@[j])@ == views[order@[j] as int],
        decreases order@.len() - k,
    {
        assert(order@[k as int] < rows@.len());
        r.push(rows[order[k]]);
        k = k + 1;
    }
    assert(reclaim::doomed_views(r@) =~= arranged(views, order@));
    r
}

/// The rows that can be acted on, best first.
pub fn ranked_rows<'a>(projects: &'a Vec<Project>) -> (r: Vec<Doomed<'a>>)
    ensures
        reclaim::doomed_views(r@) == ranked(scan::project_views(projects@)),
        r@.len() == eligible(scan::project_views(projects@)).len(),
        eligible(scan::project_views(projects@)).len() <= usize::MAX,
{
    let rows = eligible_rows(projects);
    assert(reclaim::doomed_views(rows@).len() == rows.len());
    let order = rank_rows(&rows);
    let r = arrange(&rows, &order);
    assert(reclaim::doomed_views(r@).len() == r@.len());
    r
}

/// The magnitudes of some rows.
pub open spec fn units_of(rows: Seq<DoomedView>, rate: u64) -> Seq<Units> {
    rows.map_values(
        |d: DoomedView|
            chart::units_of(d.target.reclaimable(), d.target.rebuild_seconds, rate),
    )
}

/// The bars of some rows.
pub open spec fn bars_of(rows: Seq<DoomedView>, rate: u64, field: usize) -> Seq<Bars> {
    chart::drawn(units_of(rows, rate), field)
}

/// How many of the rows are worth reclaiming: those before the first that does not
/// lean left.
pub open spec fn worthwhile(rows: Seq<DoomedView>, rate: u64, field: usize) -> nat {
    match chart::first_not_leaning(bars_of(rows, rate, field), 0) {
        Some(i) => i as nat,
        None => rows.len(),
    }
}

/// At most all rows are worth reclaiming, and each that is leans left.
pub proof fn lemma_worthwhile(rows: Seq<DoomedView>, rate: u64, field: usize)
    requires
        rows.len() <= usize::MAX,
    ensures
        worthwhile(rows, rate, field) <= rows.len(),
        forall|k: int|
            0 <= k < worthwhile(rows, rate, field) ==> (#[trigger] bars_of(
                rows,
                rate,
                field,
            )[k]).leans(),
{
    chart::lemma_first_not_leaning(bars_of(rows, rate, field), 0);
}

/// The bars of some rows.
pub fn draw_rows(rows: &Vec<Doomed>, rate: u64, field: usize) -> (r: Vec<Bars>)
    ensures
        r@ == bars_of(reclaim::doomed_views(rows@), rate, field),
{
    let ghost views = reclaim::doomed_views(rows@);
    let mut us: Vec<Units> = Vec::new();
    let mut i: usize = 0;
    while i < rows.len()
        invariant
            i <= rows@.len(),
            views == reclaim::doomed_views(rows@),
            us@.len() == i,
            forall|k: int| 0 <= k < i ==> (#[trigger] us@[k]).valid(),
            forall|k: int| 0 <= k < i ==> #[trigger] us@[k] == units_of(views, rate)[k],
        decreases rows@.len() - i,
    {
        us.push(units(rows[i].target.reclaimable_bytes(), rows[i].target.rebuild_seconds, rate));
        i = i + 1;
    }
    assert(us@ =~= units_of(views, rate));
    draw(&us, field)
}

/// What the targets of each project return together.
pub open spec fn project_bytes(ps: Seq<ProjectView>) -> Seq<nat> {
    ps.map_values(|p: ProjectView| scan::reclaimable_sum(p.targets))
}

/// What in each project would survive deletion or was counted twice.
pub open spec fn project_shared(ps: Seq<ProjectView>) -> Seq<nat> {
    ps.map_values(|p: ProjectView| scan::shared_sum(p.targets))
}

/// How often something in each project could not be read.
pub open spec fn project_unreadable(ps: Seq<ProjectView>) -> Seq<nat> {
    ps.map_values(|p: ProjectView| scan::unreadable_sum(p.targets))
}

/// How long the targets of a project take to rebuild together.
pub open spec fn seconds_sum(ts: Seq<TargetView>) -> nat
    decreases ts.len(),
{
    if ts.len() == 0 {
        0
    } else {
        seconds_sum(ts.drop_last()) + ts.last().rebuild_seconds as nat
    }
}

/// How long the targets of each project take to rebuild together.
pub open spec fn project_seconds(ps: Seq<ProjectView>) -> Seq<nat> {
    ps.map_values(|p: ProjectView| seconds_sum(p.targets))
}

/// The totals over all projects can be held in machine words.
pub open spec fn totals_fit(ps: Seq<ProjectView>) -> bool {
    &&& ranking::total(project_bytes(ps)) <= u64::MAX
    &&& ranking::total(project_seconds(ps)) <= u64::MAX
    &&& ranking::total(project_shared(ps)) <= u64::MAX
    &&& ranking::total(project_unreadable(ps)) <= u32::MAX
}

proof fn lemma_bytes_of_rows(p: ProjectView, n: int)
    requires
        0 <= n <= p.targets.len(),
    ensures
        ranking::total(reclaim::bytes_of(rows_of(p)).take(n)) == scan::reclaimable_sum(
            p.targets.take(n),
        ),
        ranking::total(reclaim::seconds_of(rows_of(p)).take(n)) == seconds_sum(p.targets.take(n)),
        ranking::total(reclaim::unreadable_of(rows_of(p)).take(n)) == scan::unreadable_sum(
            p.targets.take(n),
        ),
    decreases n,
{
    let b = reclaim::bytes_of(rows_of(p));
    let s = reclaim::seconds_of(rows_of(p));
    let u = reclaim::unreadable_of(rows_of(p));
    if n > 0 {
        lemma_bytes_of_rows(p, n - 1);
        assert(b.take(n).drop_last() =~= b.take(n - 1));
        assert(s.take(n).drop_last() =~= s.take(n - 1));
        assert(u.take(n).drop_last() =~= u.take(n - 1));
        assert(p.targets.take(n).drop_last() =~= p.targets.take(n - 1));
    }
}

/// The eligible rows return no more than all projects do.
pub proof fn lemma_eligible_fits(ps: Seq<ProjectView>)
    ensures
        ranking::total(reclaim::bytes_of(eligible(ps))) <= ranking::total(project_bytes(ps)),
        ranking::total(reclaim::seconds_of(eligible(ps))) <= ranking::total(project_seconds(ps)),
        ranking::total(reclaim::unreadable_of(eligible(ps))) <= ranking::total(
            project_unreadable(ps),
        ),
        ranking::total(project_bytes(blocked(ps))) <= ranking::total(project_bytes(ps)),
    decreases ps.len(),
{
    if ps.len() > 0 {
        let before = ps.drop_last();
        let p = ps.last();
        lemma_eligible_fits(before);
        assert(project_bytes(ps).drop_last() =~= project_bytes(before));
        assert(project_seconds(ps).drop_last() =~= project_seconds(before));
        assert(project_unreadable(ps).drop_last() =~= project_unreadable(before));
        if p.git_state.safe() {
            let a = eligible(before);
            let b = rows_of(p);
            let n = a.len() as int;
            lemma_bytes_of_rows(p, b.len() as int);
            assert(p.targets.take(b.len() as int) =~= p.targets);
            assert(reclaim::bytes_of(b).take(b.len() as int) =~= reclaim::bytes_of(b));
            assert(reclaim::seconds_of(b).take(b.len() as int) =~= reclaim::seconds_of(b));
            ranking::lemma_total_grows(reclaim::bytes_of(a + b), n);
            ranking::lemma_total_grows(reclaim::seconds_of(a + b), n);
            assert(reclaim::unreadable_of(b).take(b.len() as int) =~= reclaim::unreadable_of(b));
            ranking::lemma_total_grows(reclaim::unreadable_of(a + b), n);
            assert(reclaim::unreadable_of(a + b).take(n) =~= reclaim::unreadable_of(a));
            assert(reclaim::unreadable_of(a + b).skip(n) =~= reclaim::unreadable_of(b));
            assert(reclaim::bytes_of(a + b).take(n) =~= reclaim::bytes_of(a));
            assert(reclaim::bytes_of(a + b).skip(n) =~= reclaim::bytes_of(b));
            assert(reclaim::seconds_of(a + b).take(n) =~= reclaim::seconds_of(a));
            assert(reclaim::seconds_of(a + b).skip(n) =~= reclaim::seconds_of(b));
        } else {
            let a = blocked(before);
            assert(project_bytes(a.push(p)).drop_last() =~= project_bytes(a));
        }
    }
}

/// Ranking does not change the totals.
pub proof fn ranking_keeps_the_totals(ps: Seq<ProjectView>)
    requires
        eligible(ps).len() <= usize::MAX,
    ensures
        ranked(ps).len() == eligible(ps).len(),
        ranking::total(reclaim::bytes_of(ranked(ps))) == ranking::total(
            reclaim::bytes_of(eligible(ps)),
        ),
        ranking::total(reclaim::seconds_of(ranked(ps))) == ranking::total(
            reclaim::seconds_of(eligible(ps)),
        ),
        ranking::total(reclaim::unreadable_of(ranked(ps))) == ranking::total(
            reclaim::unreadable_of(eligible(ps)),
        ),
{
    let rows = eligible(ps);
    let order = ranking::ranking(keys_of(rows));
    ranking::ranking_exists(keys_of(rows));
    ranking::totals_do_not_depend_on_order(reclaim::bytes_of(rows), order);
    ranking::totals_do_not_depend_on_order(reclaim::seconds_of(rows), order);
    ranking::totals_do_not_depend_on_order(reclaim::unreadable_of(rows), order);
    assert(reclaim::unreadable_of(ranked(ps)) =~= ranking::in_order(
        reclaim::unreadable_of(rows),
        order,
    )) by {
        assert forall|k: int| 0 <= k < order.len() implies reclaim::unreadable_of(ranked(ps))[k]
            == ranking::in_order(reclaim::unreadable_of(rows), order)[k] by {
            assert(order[k] < rows.len());
        }
    }
    assert(reclaim::bytes_of(ranked(ps)) =~= ranking::in_order(reclaim::bytes_of(rows), order)) by {
        assert forall|k: int| 0 <= k < order.len() implies reclaim::bytes_of(ranked(ps))[k]
            == ranking::in_order(reclaim::bytes_of(rows), order)[k] by {
            assert(order[k] < rows.len());
        }
    }
    assert(reclaim::seconds_of(ranked(ps)) =~= ranking::in_order(
        reclaim::seconds_of(rows),
        order,
    )) by {
        assert forall|k: int| 0 <= k < order.len() implies reclaim::seconds_of(ranked(ps))[k]
            == ranking::in_order(reclaim::seconds_of(rows), order)[k] by {
            assert(order[k] < rows.len());
        }
    }
}

proof fn lemma_eligible_is_safe(ps: Seq<ProjectView>, k: int)
    requires
        0 <= k < eligible(ps).len(),
    ensures
        eligible(ps)[k].project.git_state.safe(),
        exists|i: int, j: int|
            0 <= i < ps.len() && 0 <= j < ps[i].targets.len() && eligible(ps)[k].project
                == #[trigger] ps[i] && eligible(ps)[k].target == #[trigger] ps[i].targets[j],
    decreases ps.len(),
{
    let before = eligible(ps.drop_last());
    if k < before.len() {
        lemma_eligible_is_safe(ps.drop_last(), k);
        let (i, j) = choose|i: int, j: int|
            0 <= i < ps.drop_last().len() && 0 <= j < ps.drop_last()[i].targets.len()
                && before[k].project == #[trigger] ps.drop_last()[i] && before[k].target
                == #[trigger] ps.drop_last()[i].targets[j];
        assert(ps[i] == ps.drop_last()[i]);
        assert(ps[i].targets[j] == before[k].target);
    } else {
        let i = ps.len() - 1;
        let j = k - before.len();
        assert(eligible(ps)[k].target == ps[i].targets[j]);
    }
}

/// Nothing in a repository with work that is not backed up is ever listed, and
/// whatever is listed is a target of one of the projects.
pub proof fn only_backed_up_work_is_listed(ps: Seq<ProjectView>, k: int)
    requires
        eligible(ps).len() <= usize::MAX,
        0 <= k < ranked(ps).len(),
    ensures
        ranked(ps)[k].project.git_state.safe(),
        exists|i: int, j: int|
            0 <= i < ps.len() && 0 <= j < ps[i].targets.len() && ranked(ps)[k].project
                == #[trigger] ps[i] && ranked(ps)[k].target == #[trigger] ps[i].targets[j],
{
    let order = ranking::ranking(keys_of(eligible(ps)));
    ranking::ranking_exists(keys_of(eligible(ps)));
    assert(order[k] < eligible(ps).len());
    lemma_eligible_is_safe(ps, order[k] as int);
}

/// Better deals come first: the bytes per second never increase down the list.
pub proof fn better_deals_come_first(ps: Seq<ProjectView>, k: int, l: int)
    requires
        eligible(ps).len() <= usize::MAX,
        0 <= k < l < ranked(ps).len(),
    ensures
        ranked(ps)[k].target.efficiency().bits() >= ranked(ps)[l].target.efficiency().bits(),
{
    let rows = eligible(ps);
    let order = ranking::ranking(keys_of(rows));
    ranking::ranking_exists(keys_of(rows));
    let a = order[k] as int;
    let b = order[l] as int;
    assert(ranking::outranks(keys_of(rows), a, b));
    rows[a].target.lemma_efficiency_is_valid();
    rows[b].target.lemma_efficiency_is_valid();
}

/// Every target of a project that is safe to reclaim is listed.
pub proof fn every_safe_target_is_listed(ps: Seq<ProjectView>, i: int, j: int)
    requires
        eligible(ps).len() <= usize::MAX,
        0 <= i < ps.len(),
        0 <= j < ps[i].targets.len(),
        ps[i].git_state.safe(),
    ensures
        exists|k: int|
            0 <= k < ranked(ps).len() && #[trigger] ranked(ps)[k] == (DoomedView {
                project: ps[i],
                target: ps[i].targets[j],
            }),
{
    let rows = eligible(ps);
    let order = ranking::ranking(keys_of(rows));
    ranking::ranking_exists(keys_of(rows));
    let at = lemma_is_eligible(ps, i, j);
    ranking::lemma_all_occur(order, rows.len(), at);
    let k = choose|k: int| 0 <= k < order.len() && #[trigger] order[k] == at;
    assert(ranked(ps)[k] == rows[at]);
}

proof fn lemma_is_eligible(ps: Seq<ProjectView>, i: int, j: int) -> (k: int)
    requires
        0 <= i < ps.len(),
        0 <= j < ps[i].targets.len(),
        ps[i].git_state.safe(),
    ensures
        0 <= k < eligible(ps).len(),
        eligible(ps)[k] == (DoomedView { project: ps[i], target: ps[i].targets[j] }),
    decreases ps.len(),
{
    let before = eligible(ps.drop_last());
    if i < ps.len() - 1 {
        assert(ps.drop_last()[i] == ps[i]);
        lemma_is_eligible(ps.drop_last(), i, j)
    } else {
        before.len() as int + j
    }
}

fn checked_sum(a: Option<u64>, b: u64) -> (r: Option<u64>)
    ensures
        a is None ==> r is None,
        a matches Some(x) ==> r == if x + b <= u64::MAX {
            Some((x + b) as u64)
        } else {
            None
        },
{
    match a {
        None => None,
        Some(x) => x.checked_add(b),
    }
}

/// What has been summed up so far, or that it does not fit.
spec fn summed(sum: Option<u64>, total: nat) -> bool {
    match sum {
        Some(x) => x == total,
        None => total > u64::MAX,
    }
}

/// The sums over the targets of one project, each `None` where it does not fit.
#[derive(Debug, Clone, Copy)]
struct Sums {
    bytes: Option<u64>,
    seconds: Option<u64>,
    shared: Option<u64>,
    unreadable: Option<u64>,
}

impl Sums {
    spec fn are(self, bytes: nat, seconds: nat, shared: nat, unreadable: nat) -> bool {
        &&& summed(self.bytes, bytes)
        &&& summed(self.seconds, seconds)
        &&& summed(self.shared, shared)
        &&& summed(self.unreadable, unreadable)
    }
}

fn target_sums(p: &Project) -> (r: Sums)
    ensures
        r.are(
            scan::reclaimable_sum(p@.targets),
            seconds_sum(p@.targets),
            scan::shared_sum(p@.targets),
            scan::unreadable_sum(p@.targets),
        ),
{
    let ghost ts = p@.targets;
    let mut r = Sums { bytes: Some(0), seconds: Some(0), shared: Some(0), unreadable: Some(0) };
    let mut i: usize = 0;
    while i < p.targets.len()
        invariant
            i <= p.targets@.len(),
            ts == scan::target_views(p.targets@),
            r.are(
                scan::reclaimable_sum(ts.take(i as int)),
                seconds_sum(ts.take(i as int)),
                scan::shared_sum(ts.take(i as int)),
                scan::unreadable_sum(ts.take(i as int)),
            ),
        decreases p.targets@.len() - i,
    {
        let t = &p.targets[i];
        proof {
            assert(ts.take(i + 1).drop_last() =~= ts.take(i as int));
            assert(ts.take(i + 1).last() == t@);
        }
        r = Sums {
            bytes: checked_sum(r.bytes, t.reclaimable_bytes()),
            seconds: checked_sum(r.seconds, t.rebuild_seconds as u64),
            shared: checked_sum(r.shared, t.shared_bytes),
            unreadable: checked_sum(r.unreadable, t.unreadable as u64),
        };
        i = i + 1;
    }
    assert(ts.take(i as int) =~= ts);
    r
}

fn both(a: Option<u64>, b: Option<u64>) -> (r: Option<u64>)
    ensures
        forall|x: nat, y: nat| summed(a, x) && summed(b, y) ==> #[trigger] summed(r, x + y),
{
    match (a, b) {
        (Some(x), Some(y)) => x.checked_add(y),
        _ => None,
    }
}

/// Can the totals over all projects be held in machine words?
pub fn do_totals_fit(projects: &Vec<Project>) -> (r: bool)
    ensures
        r == totals_fit(scan::project_views(projects@)),
{
    let ghost ps = scan::project_views(projects@);
    let mut all = Sums { bytes: Some(0), seconds: Some(0), shared: Some(0), unreadable: Some(0) };
    let mut i: usize = 0;
    while i < projects.len()
        invariant
            i <= projects@.len(),
            ps == scan::project_views(projects@),
            all.are(
                ranking::total(project_bytes(ps.take(i as int))),
                ranking::total(project_seconds(ps.take(i as int))),
                ranking::total(project_shared(ps.take(i as int))),
                ranking::total(project_unreadable(ps.take(i as int))),
            ),
        decreases projects@.len() - i,
    {
        let one = target_sums(&projects[i]);
        proof {
            let longer = ps.take(i + 1);
            assert(longer.last() == projects@[i as int]@);
            assert(project_bytes(longer).drop_last() =~= project_bytes(ps.take(i as int)));
            assert(project_seconds(longer).drop_last() =~= project_seconds(ps.take(i as int)));
            assert(project_shared(longer).drop_last() =~= project_shared(ps.take(i as int)));
            assert(project_unreadable(longer).drop_last() =~= project_unreadable(
                ps.take(i as int),
            ));
        }
        all = Sums {
            bytes: both(all.bytes, one.bytes),
            seconds: both(all.seconds, one.seconds),
            shared: both(all.shared, one.shared),
            unreadable: both(all.unreadable, one.unreadable),
        };
        i = i + 1;
    }
    assert(ps.take(i as int) =~= ps);
    match all.unreadable {
        None => false,
        Some(n) => all.bytes.is_some() && all.seconds.is_some() && all.shared.is_some() && n
            <= u32::MAX as u64,
    }
}

} // verus!
