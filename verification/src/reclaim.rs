//! Deletion: what is deleted, and what is said about it. Deliberately boring and
//! deliberately hard to trigger by accident.
use crate::chart::break_even_at;
use crate::deals;
use crate::deals::{arrange, draw_rows, eligible_rows, rank_rows};
use crate::figures;
use crate::figures::{bytes, duration};
use crate::paths;
use crate::paths::{components, is_same_place, starts_with};
use crate::prose;
use crate::prose::lower_bound_warning;
use crate::ranking;
use crate::ranking::sum_of;
use crate::scan;
use crate::scan::{Project, ProjectView, Target, TargetView};
use crate::text;
use crate::text::{push_decimal, push_line, trim};
use vstd::prelude::*;
use vstd::string::*;

verus! {

/// One target that is up for deletion, with the project that it belongs to.
#[derive(Debug, Clone, Copy)]
pub struct Doomed<'a> {
    pub project: &'a Project,
    pub target: &'a Target,
}

/// The content of a [`Doomed`].
pub struct DoomedView {
    pub project: ProjectView,
    pub target: TargetView,
}

impl<'a> View for Doomed<'a> {
    type V = DoomedView;

    open spec fn view(&self) -> DoomedView {
        DoomedView { project: self.project@, target: self.target@ }
    }
}

/// The contents of a list.
pub open spec fn doomed_views(v: Seq<Doomed>) -> Seq<DoomedView> {
    v.map_values(|d: Doomed| d@)
}

/// What each of these returns.
pub open spec fn bytes_of(rows: Seq<DoomedView>) -> Seq<nat> {
    rows.map_values(|d: DoomedView| d.target.reclaimable() as nat)
}

/// How long each of these takes to rebuild.
pub open spec fn seconds_of(rows: Seq<DoomedView>) -> Seq<nat> {
    rows.map_values(|d: DoomedView| d.target.rebuild_seconds as nat)
}

/// How often something in each of these could not be read.
pub open spec fn unreadable_of(rows: Seq<DoomedView>) -> Seq<nat> {
    rows.map_values(|d: DoomedView| d.target.unreadable as nat)
}

/// What the rows from `from` on return together.
pub fn bytes_from(rows: &Vec<Doomed>, from: usize) -> (r: u64)
    requires
        from <= rows@.len(),
        ranking::total(bytes_of(doomed_views(rows@)).skip(from as int)) <= u64::MAX,
    ensures
        r == ranking::total(bytes_of(doomed_views(rows@)).skip(from as int)),
{
    let value = |i: usize| -> (n: u64)
        requires
            i < rows@.len(),
        ensures
            n == rows@[i as int].target@.reclaimable(),
        { rows[i].target.reclaimable_bytes() };
    sum_of(from, rows.len(), value, Ghost(bytes_of(doomed_views(rows@)).skip(from as int)))
}

/// How long the rows from `from` on take to rebuild together.
pub fn seconds_from(rows: &Vec<Doomed>, from: usize) -> (r: u64)
    requires
        from <= rows@.len(),
        ranking::total(seconds_of(doomed_views(rows@)).skip(from as int)) <= u64::MAX,
    ensures
        r == ranking::total(seconds_of(doomed_views(rows@)).skip(from as int)),
{
    let value = |i: usize| -> (n: u64)
        requires
            i < rows@.len(),
        ensures
            n == rows@[i as int].target@.rebuild_seconds,
        { rows[i].target.rebuild_seconds as u64 };
    sum_of(from, rows.len(), value, Ghost(seconds_of(doomed_views(rows@)).skip(from as int)))
}

/// The field by which rows are judged worth reclaiming.
pub const PLAN_FIELD: usize = 16;

/// Row `i` is among the first `n` of an order.
pub open spec fn among_first(order: Seq<usize>, n: nat, i: int) -> bool {
    exists|k: int| 0 <= k < n && k < order.len() && #[trigger] order[k] == i
}

/// Those of the first `m` rows, as they come, that are among the first `n` of an order.
pub open spec fn picked(rows: Seq<DoomedView>, order: Seq<usize>, n: nat, m: int) -> Seq<DoomedView>
    decreases m,
{
    if m <= 0 {
        Seq::empty()
    } else {
        let before = picked(rows, order, n, m - 1);
        if among_first(order, n, m - 1) {
            before.push(rows[m - 1])
        } else {
            before
        }
    }
}

/// What is up for deletion, project by project: the rows that can be acted on and are
/// worth it, or all that can be acted on.
pub open spec fn plan_of(ps: Seq<ProjectView>, rate: u64, all: bool) -> Seq<DoomedView> {
    let rows = deals::eligible(ps);
    if all {
        rows
    } else {
        picked(
            rows,
            ranking::ranking(deals::keys_of(rows)),
            deals::worthwhile(deals::ranked(ps), rate, PLAN_FIELD),
            rows.len() as int,
        )
    }
}

/// Which of `len` rows are among the first `n` of an order.
fn mark_first(order: &Vec<usize>, n: usize, len: usize) -> (r: Vec<bool>)
    requires
        n <= order@.len(),
        ranking::all_once(order@, len as nat),
    ensures
        r@.len() == len,
        forall|i: int| 0 <= i < len ==> #[trigger] r@[i] == among_first(order@, n as nat, i),
{
    let mut r: Vec<bool> = Vec::new();
    let mut i: usize = 0;
    while i < len
        invariant
            i <= len,
            r@.len() == i,
            forall|j: int| 0 <= j < i ==> !(#[trigger] r@[j]),
        decreases len - i,
    {
        r.push(false);
        i = i + 1;
    }
    let mut k: usize = 0;
    while k < n
        invariant
            k <= n <= order@.len(),
            ranking::all_once(order@, len as nat),
            r@.len() == len,
            forall|i: int| 0 <= i < len ==> #[trigger] r@[i] == among_first(order@, k as nat, i),
        decreases n - k,
    {
        let ghost before = r@;
        let at = order[k];
        assert(order@[k as int] < len);
        r.set(at, true);
        assert forall|i: int| 0 <= i < len implies #[trigger] r@[i] == among_first(
            order@,
            (k + 1) as nat,
            i,
        ) by {
            assert(before[i] == among_first(order@, k as nat, i));
            if i == at {
                assert(order@[k as int] == i);
            } else if among_first(order@, (k + 1) as nat, i) {
                let l = choose|l: int|
                    0 <= l < k + 1 && l < order@.len() && #[trigger] order@[l] == i;
                assert(l < k);
                assert(among_first(order@, k as nat, i));
            } else if among_first(order@, k as nat, i) {
                let l = choose|l: int| 0 <= l < k && l < order@.len() && #[trigger] order@[l] == i;
                assert(among_first(order@, (k + 1) as nat, i));
            }
        }
        k = k + 1;
    }
    r
}

/// What is up for deletion, in the order of the projects.
pub fn plan<'a>(projects: &'a Vec<Project>, rate: u64, all: bool) -> (r: Vec<Doomed<'a>>)
    ensures
        doomed_views(r@) == plan_of(scan::project_views(projects@), rate, all),
        deals::eligible(scan::project_views(projects@)).len() <= usize::MAX,
{
    let rows = eligible_rows(projects);
    let ghost views = doomed_views(rows@);
    assert(views.len() == rows.len());
    if all {
        return rows;
    }
    let order = rank_rows(&rows);
    let best = arrange(&rows, &order);
    assert(doomed_views(best@).len() == best.len());
    let drawn = draw_rows(&best, rate, PLAN_FIELD);
    assert(drawn@.len() == best@.len());
    let n = match break_even_at(&drawn) {
        Some(i) => i,
        None => best.len(),
    };
    let first = mark_first(&order, n, rows.len());
    let mut r: Vec<Doomed<'a>> = Vec::new();
    assert(doomed_views(r@) =~= Seq::<DoomedView>::empty());
    let mut i: usize = 0;
    while i < rows.len()
        invariant
            i <= rows@.len(),
            views == doomed_views(rows@),
            first@.len() == rows@.len(),
            forall|j: int|
                0 <= j < first@.len() ==> #[trigger] first@[j] == among_first(order@, n as nat, j),
            doomed_views(r@) == picked(views, order@, n as nat, i as int),
        decreases rows@.len() - i,
    {
        if first[i] {
            let ghost before = doomed_views(r@);
            r.push(rows[i]);
            assert(doomed_views(r@) =~= before.push(views[i as int]));
        }
        i = i + 1;
    }
    r
}

/// A picked row is one of the first of the order.
pub proof fn lemma_picked(rows: Seq<DoomedView>, order: Seq<usize>, n: nat, m: int, k: int) -> (j: int)
    requires
        0 <= k < picked(rows, order, n, m).len(),
        m <= rows.len(),
    ensures
        0 <= j < n,
        j < order.len(),
        order[j] < rows.len(),
        picked(rows, order, n, m)[k] == rows[order[j] as int],
    decreases m,
{
    let before = picked(rows, order, n, m - 1);
    if k < before.len() {
        lemma_picked(rows, order, n, m - 1, k)
    } else {
        choose|j: int| 0 <= j < n && j < order.len() && #[trigger] order[j] == m - 1
    }
}

proof fn lemma_picked_is_less(rows: Seq<DoomedView>, order: Seq<usize>, n: nat, m: int)
    requires
        0 <= m <= rows.len(),
    ensures
        picked(rows, order, n, m).len() <= m,
        ranking::total(bytes_of(picked(rows, order, n, m))) <= ranking::total(
            bytes_of(rows).take(m),
        ),
        ranking::total(seconds_of(picked(rows, order, n, m))) <= ranking::total(
            seconds_of(rows).take(m),
        ),
        ranking::total(unreadable_of(picked(rows, order, n, m))) <= ranking::total(
            unreadable_of(rows).take(m),
        ),
    decreases m,
{
    let all = picked(rows, order, n, m);
    if m > 0 {
        lemma_picked_is_less(rows, order, n, m - 1);
        assert(bytes_of(rows).take(m).drop_last() =~= bytes_of(rows).take(m - 1));
        assert(seconds_of(rows).take(m).drop_last() =~= seconds_of(rows).take(m - 1));
        assert(unreadable_of(rows).take(m).drop_last() =~= unreadable_of(rows).take(m - 1));
        if among_first(order, n, m - 1) {
            let before = picked(rows, order, n, m - 1);
            assert(bytes_of(all).drop_last() =~= bytes_of(before));
            assert(seconds_of(all).drop_last() =~= seconds_of(before));
            assert(unreadable_of(all).drop_last() =~= unreadable_of(before));
        }
    } else {
        assert(bytes_of(all) =~= bytes_of(rows).take(m));
        assert(seconds_of(all) =~= seconds_of(rows).take(m));
        assert(unreadable_of(all) =~= unreadable_of(rows).take(m));
    }
}

proof fn lemma_one_more(order: Seq<usize>, n: nat, i: int)
    requires
        n < order.len(),
        ranking::all_once(order, order.len()),
    ensures
        among_first(order, n + 1, i) <==> among_first(order, n, i) || i == order[n as int],
        !among_first(order, n, order[n as int] as int),
{
    if among_first(order, n, i) {
        let k = choose|k: int| 0 <= k < n && k < order.len() && #[trigger] order[k] == i;
        assert(among_first(order, n + 1, i));
    }
    if i == order[n as int] {
        assert(among_first(order, n + 1, i));
    }
    if among_first(order, n + 1, i) && i != order[n as int] {
        let k = choose|k: int| 0 <= k < n + 1 && k < order.len() && #[trigger] order[k] == i;
        assert(k < n);
    }
}

/// One more of the order adds its row, wherever that comes.
proof fn lemma_pick_one_more(rows: Seq<DoomedView>, order: Seq<usize>, n: nat, m: int)
    requires
        n < order.len() == rows.len(),
        ranking::all_once(order, rows.len()),
        0 <= m <= rows.len(),
    ensures
        picked(rows, order, n + 1, m).to_multiset() == if order[n as int] < m {
            picked(rows, order, n, m).to_multiset().insert(rows[order[n as int] as int])
        } else {
            picked(rows, order, n, m).to_multiset()
        },
    decreases m,
{
    broadcast use vstd::seq_lib::group_to_multiset_ensures;

    if m > 0 {
        lemma_pick_one_more(rows, order, n, m - 1);
        lemma_one_more(order, n, m - 1);
        let x = rows[m - 1];
        let y = rows[order[n as int] as int];
        let s = picked(rows, order, n, m - 1).to_multiset();
        assert(s.insert(x).insert(y) =~= s.insert(y).insert(x));
    }
}

/// What is picked, in whatever order it comes, is the front of the ranking.
pub proof fn lemma_picked_is_the_front(rows: Seq<DoomedView>, order: Seq<usize>, n: nat)
    requires
        n <= order.len() == rows.len(),
        ranking::all_once(order, rows.len()),
    ensures
        picked(rows, order, n, rows.len() as int).to_multiset() == deals::arranged(rows, order).take(
            n as int,
        ).to_multiset(),
    decreases n,
{
    broadcast use vstd::seq_lib::group_to_multiset_ensures;

    let m = rows.len() as int;
    let front = deals::arranged(rows, order);
    if n > 0 {
        let k = (n - 1) as nat;
        lemma_picked_is_the_front(rows, order, k);
        lemma_pick_one_more(rows, order, k, m);
        assert(order[k as int] < rows.len());
        assert(front.take(n as int) =~= front.take(k as int).push(rows[order[k as int] as int]));
    } else {
        lemma_nothing_is_picked(rows, order, m);
        assert(front.take(0) =~= Seq::<DoomedView>::empty());
    }
}

proof fn lemma_nothing_is_picked(rows: Seq<DoomedView>, order: Seq<usize>, m: int)
    ensures
        picked(rows, order, 0, m) == Seq::<DoomedView>::empty(),
    decreases m,
{
    if m > 0 {
        lemma_nothing_is_picked(rows, order, m - 1);
    }
}

/// A plan holds what the chart recommends, each row once: those in front of the
/// break-even line, or all that can be acted on. Only their order is another.
pub proof fn a_plan_holds_what_is_recommended(ps: Seq<ProjectView>, rate: u64, all: bool)
    requires
        deals::eligible(ps).len() <= usize::MAX,
    ensures
        plan_of(ps, rate, all).to_multiset() == (if all {
            deals::ranked(ps)
        } else {
            deals::ranked(ps).take(
                deals::worthwhile(deals::ranked(ps), rate, PLAN_FIELD) as int,
            )
        }).to_multiset(),
{
    let rows = deals::eligible(ps);
    let order = ranking::ranking(deals::keys_of(rows));
    ranking::ranking_exists(deals::keys_of(rows));
    deals::lemma_worthwhile(deals::ranked(ps), rate, PLAN_FIELD);
    if all {
        lemma_picked_is_the_front(rows, order, rows.len());
        lemma_all_are_picked(rows, order, rows.len() as int);
        assert(rows.take(rows.len() as int) =~= rows);
        assert(deals::ranked(ps).take(rows.len() as int) =~= deals::ranked(ps));
    } else {
        lemma_picked_is_the_front(
            rows,
            order,
            deals::worthwhile(deals::ranked(ps), rate, PLAN_FIELD),
        );
    }
}

proof fn lemma_all_are_picked(rows: Seq<DoomedView>, order: Seq<usize>, m: int)
    requires
        ranking::all_once(order, rows.len()),
        0 <= m <= rows.len(),
    ensures
        picked(rows, order, rows.len(), m) == rows.take(m),
    decreases m,
{
    if m > 0 {
        lemma_all_are_picked(rows, order, m - 1);
        ranking::lemma_all_occur(order, rows.len(), m - 1);
        let k = choose|k: int| 0 <= k < order.len() && #[trigger] order[k] == m - 1;
        assert(among_first(order, rows.len(), m - 1));
        assert(rows.take(m) =~= rows.take(m - 1).push(rows[m - 1]));
    } else {
        assert(rows.take(m) =~= Seq::<DoomedView>::empty());
    }
}

/// How many different projects some rows belong to.
pub open spec fn projects_among(rows: Seq<DoomedView>) -> nat
    decreases rows.len(),
{
    if rows.len() == 0 {
        0
    } else {
        projects_among(rows.drop_last()) + (if is_new_project(rows, rows.len() - 1) {
            1nat
        } else {
            0nat
        })
    }
}

/// Row `i` is the first of its project.
pub open spec fn is_new_project(rows: Seq<DoomedView>, i: int) -> bool {
    forall|j: int|
        0 <= j < i ==> !paths::same_place((#[trigger] rows[j]).project.root, rows[i].project.root)
}

fn count_projects(rows: &Vec<Doomed>) -> (r: usize)
    ensures
        r == projects_among(doomed_views(rows@)),
{
    let ghost views = doomed_views(rows@);
    let mut n: usize = 0;
    let mut i: usize = 0;
    while i < rows.len()
        invariant
            i <= rows@.len(),
            n <= i,
            views == doomed_views(rows@),
            n == projects_among(views.take(i as int)),
        decreases rows@.len() - i,
    {
        let mut j: usize = 0;
        let mut fresh = true;
        while j < i
            invariant
                j <= i < rows@.len(),
                views == doomed_views(rows@),
                fresh <==> forall|k: int|
                    0 <= k < j ==> !paths::same_place(
                        (#[trigger] views[k]).project.root,
                        views[i as int].project.root,
                    ),
            decreases i - j,
        {
            assert(views[j as int] == rows@[j as int]@ && views[i as int] == rows@[i as int]@);
            if is_same_place(rows[j].project.root.as_str(), rows[i].project.root.as_str()) {
                fresh = false;
            }
            j = j + 1;
        }
        proof {
            let longer = views.take(i + 1);
            assert(longer.drop_last() =~= views.take(i as int));
            assert(is_new_project(longer, i as int) == fresh) by {
                if fresh {
                    assert forall|k: int| 0 <= k < i implies !paths::same_place(
                        (#[trigger] longer[k]).project.root,
                        longer[i as int].project.root,
                    ) by {
                        assert(longer[k] == views[k]);
                    }
                } else {
                    let k = choose|k: int|
                        0 <= k < i && paths::same_place(
                            (#[trigger] views[k]).project.root,
                            views[i as int].project.root,
                        );
                    assert(longer[k] == views[k]);
                }
            }
        }
        if fresh {
            n = n + 1;
        }
        i = i + 1;
    }
    assert(views.take(i as int) =~= views);
    n
}

/// Why nothing is up for deletion: there is nothing to delete, or what there is lies
/// below the break-even line.
pub open spec fn nothing_text(below: nat) -> Seq<char> {
    if below > 0 {
        "Nothing is worth reclaiming: "@ + text::decimal(below)
            + " target(s) below the break-even line.  --all to take them."@
    } else {
        "Nothing eligible to reclaim."@
    }
}

/// What is said where nothing is up for deletion.
pub open spec fn nothing_lines(held_back: nat, below: nat) -> Seq<Seq<char>> {
    if held_back > 0 {
        seq![
            nothing_text(below),
            text::decimal(held_back) + " project(s) skipped: uncommitted or unpushed work."@,
        ]
    } else {
        seq![nothing_text(below)]
    }
}

pub(crate) fn say_nothing(held_back: usize, below: usize) -> (r: Vec<String>)
    ensures
        text::texts(r@) == nothing_lines(held_back as nat, below as nat),
{
    let mut r: Vec<String> = Vec::new();
    let mut first = String::new();
    if below > 0 {
        first.append("Nothing is worth reclaiming: ");
        push_decimal(&mut first, below as u64);
        first.append(" target(s) below the break-even line.  --all to take them.");
    } else {
        first.append("Nothing eligible to reclaim.");
    }
    assert(first@ =~= nothing_text(below as nat));
    push_line(&mut r, first);
    if held_back > 0 {
        let mut s = String::new();
        push_decimal(&mut s, held_back as u64);
        s.append(" project(s) skipped: uncommitted or unpushed work.");
        assert(s@ =~= text::decimal(held_back as nat)
            + " project(s) skipped: uncommitted or unpushed work."@);
        push_line(&mut r, s);
    }
    assert(text::texts(r@) =~= nothing_lines(held_back as nat, below as nat));
    r
}

/// How much is about to be deleted.
pub open spec fn about_text(rows: Seq<DoomedView>) -> Seq<char> {
    "About to delete "@ + (if ranking::total(unreadable_of(rows)) > 0 {
        "at least "@
    } else {
        Seq::empty()
    }) + figures::bytes_text(ranking::total(bytes_of(rows))) + " across "@ + text::decimal(
        projects_among(rows),
    ) + " project(s)."@
}

/// What restoring it costs.
pub open spec fn cost_text(rows: Seq<DoomedView>) -> Seq<char> {
    "Restoring all of it would cost roughly "@ + figures::duration_text(
        ranking::total(seconds_of(rows)),
    ) + "."@
}

/// What is said before anything is deleted.
pub open spec fn announcement(rows: Seq<DoomedView>, held_back: nat) -> Seq<Seq<char>> {
    let unreadable = ranking::total(unreadable_of(rows));
    seq![Seq::<char>::empty(), about_text(rows), cost_text(rows)] + (if unreadable > 0 {
        seq![prose::unreadable_text(unreadable)]
    } else {
        Seq::empty()
    }) + (if held_back > 0 {
        seq![
            text::decimal(held_back)
                + " project(s) will be skipped: uncommitted or unpushed work."@,
        ]
    } else {
        Seq::empty()
    })
}

/// The totals over some rows can be held in machine words.
pub open spec fn rows_fit(rows: Seq<DoomedView>) -> bool {
    &&& ranking::total(bytes_of(rows)) <= u64::MAX
    &&& ranking::total(seconds_of(rows)) <= u64::MAX
    &&& ranking::total(unreadable_of(rows)) <= u32::MAX
}

fn unreadable_total(rows: &Vec<Doomed>) -> (r: u32)
    requires
        rows_fit(doomed_views(rows@)),
    ensures
        r == ranking::total(unreadable_of(doomed_views(rows@))),
{
    let value = |i: usize| -> (n: u64)
        requires
            i < rows@.len(),
        ensures
            n == rows@[i as int].target@.unreadable,
        { rows[i].target.unreadable as u64 };
    sum_of(0, rows.len(), value, Ghost(unreadable_of(doomed_views(rows@)))) as u32
}

pub(crate) fn announce(rows: &Vec<Doomed>, held_back: usize) -> (r: Vec<String>)
    requires
        rows_fit(doomed_views(rows@)),
    ensures
        text::texts(r@) == announcement(doomed_views(rows@), held_back as nat),
{
    let ghost views = doomed_views(rows@);
    assert(bytes_of(views).skip(0) =~= bytes_of(views));
    assert(seconds_of(views).skip(0) =~= seconds_of(views));
    let unreadable = unreadable_total(rows);
    let mut about = String::new();
    about.append("About to delete ");
    if unreadable > 0 {
        about.append("at least ");
    }
    about.append(bytes(bytes_from(rows, 0)).as_str());
    about.append(" across ");
    push_decimal(&mut about, count_projects(rows) as u64);
    about.append(" project(s).");
    assert(about@ =~= about_text(views));
    let mut cost = String::new();
    cost.append("Restoring all of it would cost roughly ");
    cost.append(duration(seconds_from(rows, 0)).as_str());
    cost.append(".");
    assert(cost@ =~= cost_text(views));
    let mut r: Vec<String> = Vec::new();
    push_line(&mut r, String::new());
    push_line(&mut r, about);
    push_line(&mut r, cost);
    assert(text::texts(r@) =~= seq![Seq::<char>::empty(), about_text(views), cost_text(views)]);
    if let Some(w) = lower_bound_warning(unreadable) {
        push_line(&mut r, w);
    }
    if held_back > 0 {
        let mut s = String::new();
        push_decimal(&mut s, held_back as u64);
        s.append(" project(s) will be skipped: uncommitted or unpushed work.");
        assert(s@ =~= text::decimal(held_back as nat)
            + " project(s) will be skipped: uncommitted or unpushed work."@);
        push_line(&mut r, s);
    }
    assert(text::texts(r@) =~= announcement(views, held_back as nat));
    r
}

/// Whether an answer to the prompt is a yes.
pub open spec fn agreed(answer: Seq<char>) -> bool {
    text::trimmed(answer) == "yes"@
}

/// Anything but `yes` is a no.
pub fn is_agreed(answer: &str) -> (r: bool)
    ensures
        r == agreed(answer@),
{
    trim(answer) == "yes".to_owned()
}

/// Where a path leads with all links followed, if anywhere.
pub open spec fn place_of(p: Option<String>) -> Option<Seq<char>> {
    match p {
        Some(s) => Some(s@),
        None => None,
    }
}

/// A target that really lies below its project. What cannot be resolved does not.
pub open spec fn contained(root: Option<Seq<char>>, path: Option<Seq<char>>) -> bool {
    match (root, path) {
        (Some(r), Some(p)) => paths::within(p, r) && !paths::same_place(p, r),
        _ => false,
    }
}

/// Does a target really lie below its project, once all links are followed?
pub fn is_contained(root: &Option<String>, path: &Option<String>) -> (b: bool)
    ensures
        b == contained(place_of(*root), place_of(*path)),
{
    match (root, path) {
        (Some(r), Some(p)) => {
            let x = components(p.as_str());
            let y = components(r.as_str());
            let b = starts_with(&x, &y) && x.len() != y.len();
            proof {
                assert(paths::views(x@).len() == x@.len() && paths::views(y@).len() == y@.len());
                if x@.len() == y@.len() {
                    assert(paths::views(x@).take(y@.len() as int) =~= paths::views(x@));
                }
            }
            b
        },
        _ => false,
    }
}

/// What came of a deletion.
#[derive(Debug, Clone, Copy, PartialEq, Eq, Structural)]
pub struct Outcome {
    /// Bytes returned to the filesystem.
    pub freed: u64,
    /// Targets that are gone.
    pub removed: usize,
    /// Targets that could not be removed.
    pub failures: usize,
    /// Targets that did not resolve inside their project and were left alone.
    pub refused: usize,
}

/// What is said at the end.
pub open spec fn closing_out(o: Outcome) -> Seq<Seq<char>> {
    seq![Seq::<char>::empty(), "Freed "@ + figures::bytes_text(o.freed as nat) + "."@]
}

/// What is complained about at the end.
pub open spec fn closing_err(o: Outcome) -> Seq<Seq<char>> {
    (if o.failures > 0 {
        seq![
            text::decimal(o.failures as nat)
                + " target(s) could not be removed (in use, or permissions)."@,
        ]
    } else {
        Seq::<Seq<char>>::empty()
    }) + (if o.refused > 0 {
        seq![
            text::decimal(o.refused as nat)
                + " target(s) refused: did not resolve inside their project."@,
        ]
    } else {
        Seq::<Seq<char>>::empty()
    })
}

pub(crate) fn say_freed(o: Outcome) -> (r: Vec<String>)
    ensures
        text::texts(r@) == closing_out(o),
{
    let mut s = String::new();
    s.append("Freed ");
    s.append(bytes(o.freed).as_str());
    s.append(".");
    assert(s@ =~= "Freed "@ + figures::bytes_text(o.freed as nat) + "."@);
    let mut r: Vec<String> = Vec::new();
    push_line(&mut r, String::new());
    push_line(&mut r, s);
    assert(text::texts(r@) =~= closing_out(o));
    r
}

pub(crate) fn say_left(o: Outcome) -> (r: Vec<String>)
    ensures
        text::texts(r@) == closing_err(o),
{
    let mut r: Vec<String> = Vec::new();
    if o.failures > 0 {
        let mut s = String::new();
        push_decimal(&mut s, o.failures as u64);
        s.append(" target(s) could not be removed (in use, or permissions).");
        assert(s@ =~= text::decimal(o.failures as nat)
            + " target(s) could not be removed (in use, or permissions)."@);
        push_line(&mut r, s);
    }
    if o.refused > 0 {
        let mut s = String::new();
        push_decimal(&mut s, o.refused as u64);
        s.append(" target(s) refused: did not resolve inside their project.");
        assert(s@ =~= text::decimal(o.refused as nat)
            + " target(s) refused: did not resolve inside their project."@);
        push_line(&mut r, s);
    }
    assert(text::texts(r@) =~= closing_err(o));
    r
}

/// What is said about a target that is gone.
pub open spec fn removed_text(t: TargetView) -> Seq<char> {
    "  removed "@ + t.path + " ("@ + figures::bytes_text(t.reclaimable() as nat) + ")"@
}

/// What is said about a target that could not be removed.
pub open spec fn failed_text(t: TargetView, why: Seq<char>) -> Seq<char> {
    "  FAILED "@ + t.path + ": "@ + why
}

/// What is said about a target that was left alone.
pub open spec fn refused_text(t: TargetView) -> Seq<char> {
    "  REFUSED "@ + t.path + ": did not resolve inside its project"@
}

pub(crate) fn say_removed(t: &Target) -> (r: String)
    ensures
        r@ == removed_text(t@),
{
    let mut r = String::new();
    r.append("  removed ");
    r.append(t.path.as_str());
    r.append(" (");
    r.append(bytes(t.reclaimable_bytes()).as_str());
    r.append(")");
    assert(r@ =~= removed_text(t@));
    r
}

pub(crate) fn say_failed(t: &Target, why: &str) -> (r: String)
    ensures
        r@ == failed_text(t@, why@),
{
    let mut r = String::new();
    r.append("  FAILED ");
    r.append(t.path.as_str());
    r.append(": ");
    r.append(why);
    assert(r@ =~= failed_text(t@, why@));
    r
}

pub(crate) fn say_refused(t: &Target) -> (r: String)
    ensures
        r@ == refused_text(t@),
{
    let mut r = String::new();
    r.append("  REFUSED ");
    r.append(t.path.as_str());
    r.append(": did not resolve inside its project");
    assert(r@ =~= refused_text(t@));
    r
}

/// Where the totals over all projects fit, so do those over a plan, and it has no more
/// rows than there are.
pub proof fn lemma_plan_fits(ps: Seq<ProjectView>, rate: u64, all: bool)
    requires
        deals::totals_fit(ps),
    ensures
        rows_fit(plan_of(ps, rate, all)),
        plan_of(ps, rate, all).len() <= deals::eligible(ps).len(),
{
    let rows = deals::eligible(ps);
    deals::lemma_eligible_fits(ps);
    if !all {
        let m = rows.len() as int;
        lemma_picked_is_less(
            rows,
            ranking::ranking(deals::keys_of(rows)),
            deals::worthwhile(deals::ranked(ps), rate, PLAN_FIELD),
            m,
        );
        assert(bytes_of(rows).take(m) =~= bytes_of(rows));
        assert(seconds_of(rows).take(m) =~= seconds_of(rows));
        assert(unreadable_of(rows).take(m) =~= unreadable_of(rows));
    }
}

/// Each row of a plan is one of the ranked ones, and above the line unless all of them
/// were asked for.
pub proof fn lemma_planned_is_ranked(ps: Seq<ProjectView>, rate: u64, all: bool, k: int) -> (j: int)
    requires
        deals::eligible(ps).len() <= usize::MAX,
        0 <= k < plan_of(ps, rate, all).len(),
    ensures
        0 <= j < deals::ranked(ps).len(),
        plan_of(ps, rate, all)[k] == deals::ranked(ps)[j],
        all || j < deals::worthwhile(deals::ranked(ps), rate, PLAN_FIELD),
{
    let rows = deals::eligible(ps);
    let order = ranking::ranking(deals::keys_of(rows));
    ranking::ranking_exists(deals::keys_of(rows));
    if all {
        ranking::lemma_all_occur(order, rows.len(), k);
        choose|j: int| 0 <= j < order.len() && #[trigger] order[j] == k
    } else {
        lemma_picked(
            rows,
            order,
            deals::worthwhile(deals::ranked(ps), rate, PLAN_FIELD),
            rows.len() as int,
            k,
        )
    }
}

} // verus!
