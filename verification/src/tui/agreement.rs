//! The interface and the command line agree: on the same scan, what the interface
//! selects above the line is what a deletion from the command line would take.
use crate::deals;
use crate::detector::Detector;
use crate::discovery;
use crate::discovery::Tree;
use crate::paths;
use crate::ranking;
use crate::reclaim;
use crate::reclaim::DoomedView;
use crate::roots;
use crate::scan;
use crate::scan::{EventView, Options, ProjectView, Progress, World};
use crate::sorting;
use crate::tui::app;
use crate::tui::app::{AppView, RowView};
use crate::tui::promises;
use vstd::prelude::*;

verus! {

/// The interface after some events of a scan.
pub open spec fn after_events(v: AppView, events: Seq<EventView>) -> AppView
    decreases events.len(),
{
    if events.len() == 0 {
        v
    } else {
        after_events(v, events.drop_last()).after_event(events.last())
    }
}

/// One row for each target of a project, not selected.
pub open spec fn fresh(p: ProjectView) -> Seq<RowView> {
    Seq::new(
        p.targets.len(),
        |i: int| RowView { project: p, target: Some(i as usize), selected: false },
    )
}

/// One row for each target of some projects.
pub open spec fn all_fresh(ps: Seq<ProjectView>) -> Seq<RowView>
    decreases ps.len(),
{
    if ps.len() == 0 {
        Seq::empty()
    } else {
        all_fresh(ps.drop_last()) + fresh(ps.last())
    }
}

spec fn doomed_key() -> spec_fn(DoomedView) -> u128 {
    |d: DoomedView| d.target.efficiency().bits() as u128
}

spec fn is_measured() -> spec_fn(RowView) -> bool {
    |r: RowView| r.measured() is Some
}

spec fn can_be_selected() -> spec_fn(RowView) -> bool {
    |r: RowView| r.selectable()
}

spec fn is_not_selected() -> spec_fn(RowView) -> bool {
    |r: RowView| !r.selected
}

spec fn is_outside(root: Seq<char>) -> spec_fn(RowView) -> bool {
    |r: RowView| !paths::same_place(r.project.root, root)
}

spec fn belongs_to(ps: Seq<ProjectView>) -> spec_fn(RowView) -> bool {
    |r: RowView| ps.contains(r.project)
}

spec fn doomed_from() -> spec_fn(RowView) -> DoomedView {
    |r: RowView| app::as_doomed(r)
}

proof fn lemma_which_kept(
    rows: Seq<RowView>,
    at: spec_fn(int) -> bool,
    test: spec_fn(RowView) -> bool,
    n: int,
)
    requires
        0 <= n <= rows.len(),
        forall|i: int| 0 <= i < rows.len() ==> #[trigger] at(i) == test(rows[i]),
    ensures
        app::rows_at(rows, app::which(at, n)) == sorting::kept(rows.take(n), test),
    decreases n,
{
    if n > 0 {
        lemma_which_kept(rows, at, test, n - 1);
        assert(rows.take(n).drop_last() =~= rows.take(n - 1));
        assert(rows.take(n).last() == rows[n - 1]);
        assert(at(n - 1) == test(rows[n - 1]));
        let before = app::which(at, n - 1);
        if at(n - 1) {
            assert(app::rows_at(rows, before.push(n - 1)) =~= app::rows_at(rows, before).push(
                rows[n - 1],
            ));
        }
    } else {
        assert(app::rows_at(rows, app::which(at, n)) =~= Seq::<RowView>::empty());
    }
}

proof fn lemma_fresh(p: ProjectView, ps: Seq<ProjectView>)
    requires
        p.targets.len() <= usize::MAX,
        ps.contains(p),
    ensures
        sorting::all(fresh(p), is_measured()),
        sorting::all(fresh(p), is_not_selected()),
        sorting::all(fresh(p), belongs_to(ps)),
{
}

proof fn lemma_belongs_to_more(rows: Seq<RowView>, ps: Seq<ProjectView>)
    requires
        ps.len() > 0,
        sorting::all(rows, belongs_to(ps.drop_last())),
    ensures
        sorting::all(rows, belongs_to(ps)),
{
    let fewer = belongs_to(ps.drop_last());
    let test = belongs_to(ps);
    assert forall|i: int| 0 <= i < rows.len() implies test(#[trigger] rows[i]) by {
        assert(fewer(rows[i]));
        let k = ps.drop_last().index_of(rows[i].project);
        assert(ps[k] == rows[i].project);
    }
}

proof fn lemma_all_of_both(a: Seq<RowView>, b: Seq<RowView>, test: spec_fn(RowView) -> bool)
    requires
        sorting::all(a, test),
        sorting::all(b, test),
    ensures
        sorting::all(a + b, test),
{
    assert forall|i: int| 0 <= i < (a + b).len() implies test(#[trigger] (a + b)[i]) by {
        if i < a.len() {
            assert((a + b)[i] == a[i]);
        } else {
            assert((a + b)[i] == b[i - a.len()]);
        }
    }
}

proof fn lemma_all_fresh(ps: Seq<ProjectView>)
    requires
        all_fresh(ps).len() <= usize::MAX,
    ensures
        sorting::all(all_fresh(ps), is_measured()),
        sorting::all(all_fresh(ps), is_not_selected()),
        sorting::all(all_fresh(ps), belongs_to(ps)),
    decreases ps.len(),
{
    if ps.len() > 0 {
        let fewer = ps.drop_last();
        let p = ps.last();
        lemma_all_fresh(fewer);
        lemma_belongs_to_more(all_fresh(fewer), ps);
        assert(ps[ps.len() - 1] == p);
        lemma_fresh(p, ps);
        lemma_all_of_both(all_fresh(fewer), fresh(p), is_measured());
        lemma_all_of_both(all_fresh(fewer), fresh(p), is_not_selected());
        lemma_all_of_both(all_fresh(fewer), fresh(p), belongs_to(ps));
    }
}

/// The list with one more project measured, in terms of sorting.
proof fn lemma_rows_after_project(rows: Seq<RowView>, p: ProjectView)
    requires
        sorting::all(rows, is_not_selected()),
    ensures
        app::ranked_rows(app::rows_after_project(rows, p)) == sorting::sorted(
            sorting::kept(rows, is_outside(p.root)) + fresh(p),
            app::row_key(),
        ),
        app::rows_after_project(rows, p).len() <= rows.len() + p.targets.len(),
{
    let at = app::is_elsewhere(rows, p.root);
    let test = is_outside(p.root);
    assert(rows.take(rows.len() as int) =~= rows);
    lemma_which_kept(rows, at, test, rows.len() as int);
    let free = is_not_selected();
    assert forall|i: int| 0 <= i < p.targets.len() implies !app::has_selected(
        rows,
        #[trigger] p.targets[i].path,
    ) by {
        assert forall|k: int| 0 <= k < rows.len() implies !(#[trigger] rows[k]).selected by {
            assert(free(rows[k]));
        }
    }
    assert(app::rows_of(rows, p) =~= fresh(p));
    let all = app::rows_after_project(rows, p);
    sorting::lemma_kept_keeps_all(rows, test, free);
}

proof fn lemma_after_event(
    rows: Seq<RowView>,
    p: ProjectView,
    ps: Seq<ProjectView>,
    after: Seq<RowView>,
)
    requires
        sorting::kept(rows, is_measured()) == sorting::sorted(all_fresh(ps), app::row_key()),
        sorting::all(rows, is_not_selected()),
        scan::apart(ps.push(p)),
        all_fresh(ps.push(p)).len() <= usize::MAX,
        after == app::ranked_rows(app::rows_after_project(rows, p)),
    ensures
        sorting::kept(after, is_measured()) == sorting::sorted(
            all_fresh(ps.push(p)),
            app::row_key(),
        ),
        sorting::all(after, is_not_selected()),
        after.len() <= rows.len() + p.targets.len(),
{
    let more = ps.push(p);
    let measured = is_measured();
    let outside = is_outside(p.root);
    let key = app::row_key();
    assert(more.drop_last() =~= ps);
    assert(all_fresh(more) == all_fresh(ps) + fresh(p));
    lemma_rows_after_project(rows, p);
    lemma_all_fresh(ps);
    assert(more[more.len() - 1] == p);
    lemma_fresh(p, more);
    let elsewhere = sorting::kept(rows, outside);
    let unsorted = elsewhere + fresh(p);
    // What is measured belongs to other projects, so none of it is left out.
    let old = sorting::kept(rows, measured);
    sorting::lemma_sorted_keeps_all(all_fresh(ps), key, belongs_to(ps));
    assert(sorting::all(old, outside)) by {
        let test = belongs_to(ps);
        assert forall|i: int| 0 <= i < old.len() implies outside(#[trigger] old[i]) by {
            assert(test(old[i]));
            let k = ps.index_of(old[i].project);
            assert(more[k] == ps[k] && more[more.len() - 1] == p);
            assert(!paths::same_place(more[k].root, more[more.len() - 1].root));
        }
    }
    sorting::lemma_all_kept(old, outside);
    sorting::lemma_kept_twice(rows, outside, measured);
    assert(sorting::kept(elsewhere, measured) == old);
    sorting::lemma_kept_of_both(elsewhere, fresh(p), measured);
    sorting::lemma_all_kept(fresh(p), measured);
    sorting::lemma_kept_sorted(unsorted, key, measured);
    sorting::lemma_sorted_in_two_steps(all_fresh(ps), fresh(p), key);
    // Nothing is selected.
    sorting::lemma_kept_keeps_all(rows, outside, is_not_selected());
    lemma_all_of_both(elsewhere, fresh(p), is_not_selected());
    sorting::lemma_sorted_keeps_all(unsorted, key, is_not_selected());
}

proof fn lemma_after_events(v: AppView, events: Seq<EventView>)
    requires
        v.rows.len() == 0,
        scan::apart(scan::projects_in(events)),
        events.len() + all_fresh(scan::projects_in(events)).len() <= usize::MAX,
    ensures
        ({
            let w = after_events(v, events);
            let ps = scan::projects_in(events);
            &&& sorting::kept(w.rows, is_measured()) == sorting::sorted(all_fresh(ps), app::row_key())
            &&& sorting::all(w.rows, is_not_selected())
            &&& promises::eligible_first(w.rows)
            &&& w.rows.len() <= events.len() + all_fresh(ps).len()
            &&& w.worth_rate == v.worth_rate
        }),
    decreases events.len(),
{
    if events.len() == 0 {
        assert(sorting::kept(v.rows, is_measured()) =~= Seq::<RowView>::empty());
    } else {
        let fewer = events.drop_last();
        let before = after_events(v, fewer);
        let ps = scan::projects_in(fewer);
        let more = scan::projects_in(events);
        match events.last() {
            EventView::Project(p) => {
                assert(more == ps.push(p));
                assert(more.drop_last() =~= ps);
                assert(scan::apart(ps)) by {
                    assert forall|i: int, j: int| 0 <= i < j < ps.len() implies !paths::same_place(
                        (#[trigger] ps[i]).root,
                        (#[trigger] ps[j]).root,
                    ) by {
                        assert(more[i] == ps[i] && more[j] == ps[j]);
                    }
                }
                lemma_after_events(v, fewer);
                let after = app::ranked_rows(app::rows_after_project(before.rows, p));
                lemma_after_event(before.rows, p, ps, after);
                lemma_rows_after_project(before.rows, p);
            },
            EventView::Found { root, ecosystem } => {
                lemma_after_events(v, fewer);
                let row = app::placeholder(root, ecosystem);
                let longer = before.rows.push(row);
                assert(longer.drop_last() =~= before.rows);
                assert(row.measured() is None);
                lemma_all_of_both(before.rows, seq![row], is_not_selected());
                assert(before.rows + seq![row] =~= longer);
            },
            EventView::Progress(_) => {
                lemma_after_events(v, fewer);
            },
        }
        promises::events_keep_the_eligible_first(before, events.last());
    }
}

proof fn lemma_fresh_is_doomed(p: ProjectView)
    requires
        p.targets.len() <= usize::MAX,
    ensures
        sorting::kept(fresh(p), can_be_selected()).map_values(doomed_from())
            == if p.git_state.safe() {
            deals::rows_of(p)
        } else {
            Seq::empty()
        },
{
    let test = can_be_selected();
    if p.git_state.safe() {
        assert(sorting::all(fresh(p), test));
        sorting::lemma_all_kept(fresh(p), test);
        assert(fresh(p).map_values(doomed_from()) =~= deals::rows_of(p));
    } else {
        let none = |r: RowView| !r.project.git_state.safe();
        assert(sorting::all(fresh(p), none));
        sorting::lemma_kept_keeps_all(fresh(p), test, none);
        let k = sorting::kept(fresh(p), test);
        if k.len() > 0 {
            assert(test(k[0]) && none(k[0]));
        }
        assert(k.map_values(doomed_from()) =~= Seq::<DoomedView>::empty());
    }
}

proof fn lemma_all_doomed(ps: Seq<ProjectView>)
    requires
        all_fresh(ps).len() <= usize::MAX,
    ensures
        sorting::kept(all_fresh(ps), can_be_selected()).map_values(doomed_from())
            == deals::eligible(ps),
    decreases ps.len(),
{
    let test = can_be_selected();
    if ps.len() > 0 {
        let fewer = all_fresh(ps.drop_last());
        let p = ps.last();
        lemma_all_doomed(ps.drop_last());
        lemma_fresh_is_doomed(p);
        sorting::lemma_kept_of_both(fewer, fresh(p), test);
        let a = sorting::kept(fewer, test);
        let b = sorting::kept(fresh(p), test);
        assert((a + b).map_values(doomed_from()) =~= a.map_values(doomed_from()) + b.map_values(
            doomed_from(),
        ));
        assert(a.map_values(doomed_from()) + b.map_values(doomed_from()) =~= deals::eligible(ps));
    } else {
        assert(sorting::kept(all_fresh(ps), test).map_values(doomed_from()) =~= deals::eligible(
            ps,
        ));
    }
}

/// What can be selected is what the report ranks, in the same order.
proof fn lemma_same_rows(rows: Seq<RowView>, ps: Seq<ProjectView>)
    requires
        sorting::kept(rows, is_measured()) == sorting::sorted(all_fresh(ps), app::row_key()),
        all_fresh(ps).len() <= usize::MAX,
    ensures
        app::eligible(rows).map_values(doomed_from()) == deals::ranked(ps),
        app::eligible(rows) == sorting::kept(rows, can_be_selected()),
        deals::eligible(ps).len() <= usize::MAX,
{
    let test = can_be_selected();
    let key = app::row_key();
    let all = all_fresh(ps);
    assert(rows.take(rows.len() as int) =~= rows);
    lemma_which_kept(rows, app::is_selectable(rows), test, rows.len() as int);
    sorting::lemma_kept_first_by_less(rows, is_measured(), test);
    sorting::lemma_kept_sorted(all, key, test);
    lemma_all_doomed(ps);
    let some = sorting::kept(all, test);
    let any = |r: RowView| true;
    assert(sorting::all(all, any));
    sorting::lemma_kept_keeps_all(all, test, any);
    assert forall|a: RowView, b: RowView| test(a) && test(b) implies (#[trigger] key(a)
        < #[trigger] key(b)) == (doomed_key()(doomed_from()(a)) < doomed_key()(
        doomed_from()(b),
    )) by {
        a.measured()->0.lemma_efficiency_is_valid();
        b.measured()->0.lemma_efficiency_is_valid();
    }
    sorting::lemma_sorted_mapped(some, doomed_from(), key, doomed_key(), test);
    let doomed = deals::eligible(ps);
    sorting::ranking_sorts(doomed, doomed_key());
    assert(deals::keys_of(doomed) =~= doomed.map_values(doomed_key()));
    let order = ranking::ranking(deals::keys_of(doomed));
    assert(deals::arranged(doomed, order) =~= Seq::new(
        order.len(),
        |k: int| doomed[order[k] as int],
    ));
}

proof fn lemma_same_cut(rows: Seq<RowView>, ps: Seq<ProjectView>, rate: u64)
    requires
        app::eligible(rows).map_values(doomed_from()) == deals::ranked(ps),
        app::eligible(rows) == sorting::kept(rows, can_be_selected()),
    ensures
        app::cut_of(rows, rate) == deals::worthwhile(
            deals::ranked(ps),
            rate,
            reclaim::PLAN_FIELD,
        ),
{
    let mine = app::eligible(rows);
    let theirs = deals::ranked(ps);
    let test = can_be_selected();
    let any = |r: RowView| true;
    assert(sorting::all(rows, any));
    sorting::lemma_kept_keeps_all(rows, test, any);
    assert(mine.len() == theirs.len());
    assert forall|i: int| 0 <= i < mine.len() implies #[trigger] app::units_of(mine, rate)[i]
        == deals::units_of(theirs, rate)[i] by {
        assert(test(mine[i]));
        assert(theirs[i] == app::as_doomed(mine[i]));
    }
    assert(app::units_of(mine, rate) =~= deals::units_of(theirs, rate));
}

proof fn lemma_which_front(test: spec_fn(int) -> bool, cut: int, n: int)
    requires
        0 <= cut,
        0 <= n,
        forall|i: int| 0 <= i < n ==> #[trigger] test(i) == (i < cut),
    ensures
        app::which(test, n) == Seq::new(
            if cut <= n {
                cut as nat
            } else {
                n as nat
            },
            |i: int| i,
        ),
    decreases n,
{
    if n > 0 {
        lemma_which_front(test, cut, n - 1);
        assert(test(n - 1) == (n - 1 < cut));
        assert(app::which(test, n) =~= Seq::new(
            if cut <= n {
                cut as nat
            } else {
                n as nat
            },
            |i: int| i,
        ));
    } else {
        assert(app::which(test, n) =~= Seq::<int>::empty());
        assert(Seq::new(0nat, |i: int| i) =~= Seq::<int>::empty());
    }
}

/// Whatever a scan reports, and in whatever order, selecting all that is above the
/// line selects exactly what a deletion from the command line would remove, each
/// directory once.
pub proof fn the_interface_selects_what_the_command_line_deletes(
    v: AppView,
    events: Seq<EventView>,
)
    requires
        v.rows.len() == 0,
        scan::apart(scan::projects_in(events)),
        events.len() + all_fresh(scan::projects_in(events)).len() <= usize::MAX,
    ensures
        app::doomed_of(after_events(v, events).with_best_selected().rows).to_multiset()
            == reclaim::plan_of(
            scan::projects_in(events),
            v.worth_rate,
            false,
        ).to_multiset(),
{
    let w = after_events(v, events);
    let rows = w.rows;
    let ps = scan::projects_in(events);
    let rate = v.worth_rate;
    lemma_after_events(v, events);
    lemma_same_rows(rows, ps);
    lemma_same_cut(rows, ps, rate);
    let mine = app::eligible(rows);
    let ranked = deals::ranked(ps);
    deals::ranking_keeps_the_totals(ps);
    deals::lemma_worthwhile(ranked, rate, reclaim::PLAN_FIELD);
    let cut = app::cut_of(rows, rate);
    sorting::lemma_kept_in_front(rows, can_be_selected());
    assert(mine == rows.take(mine.len() as int));
    let chosen = w.with_best_selected().rows;
    let test = app::is_doomed(chosen);
    let free = is_not_selected();
    assert forall|i: int| 0 <= i < rows.len() implies #[trigger] test(i) == (i < cut) by {
        assert(free(rows[i]));
        if i < cut {
            promises::rows_above_the_line_can_be_reclaimed(rows, rate, i);
        }
    }
    lemma_which_front(test, cut as int, rows.len() as int);
    let doomed = app::doomed_of(chosen);
    let front = ranked.take(cut as int);
    assert(doomed.len() == cut && front.len() == cut);
    assert forall|i: int| 0 <= i < cut implies #[trigger] doomed[i] == front[i] by {
        assert(mine[i] == rows[i]);
        assert(chosen[i].project == rows[i].project && chosen[i].target == rows[i].target);
        assert(ranked[i] == app::as_doomed(mine[i]));
    }
    assert(doomed =~= front);
    reclaim::a_plan_holds_what_is_recommended(ps, rate, false);
}

/// So it is with every scan of trees in which no two entries of a directory have the
/// same name, whatever the roots were.
pub proof fn every_scan_is_agreed_on(
    v: AppView,
    world: World,
    detectors: Seq<Detector>,
    opts: Options,
    trees: spec_fn(Seq<char>) -> Tree,
    given: Seq<Seq<char>>,
    roots: Seq<Seq<char>>,
    counted: Progress,
)
    requires
        v.rows.len() == 0,
        roots::independent(given, roots),
        discovery::walks_trees(world, detectors, trees, roots),
        ({
            let events = scan::scan_events(world, detectors, opts, roots, counted);
            events.len() + all_fresh(scan::projects_in(events)).len() <= usize::MAX
        }),
    ensures
        ({
            let events = scan::scan_events(world, detectors, opts, roots, counted);
            app::doomed_of(after_events(v, events).with_best_selected().rows).to_multiset()
                == reclaim::plan_of(
                scan::projects_in(events),
                v.worth_rate,
                false,
            ).to_multiset()
        }),
{
    discovery::no_project_is_reported_twice(
        world,
        detectors,
        opts,
        trees,
        given,
        roots,
        counted,
    );
    the_interface_selects_what_the_command_line_deletes(
        v,
        scan::scan_events(world, detectors, opts, roots, counted),
    );
}

} // verus!
