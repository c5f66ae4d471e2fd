//! What the list holds, told by what a scan has found and what a deletion has removed.
use crate::paths;
use crate::ranking;
use crate::rates;
use crate::reclaim::Outcome;
use crate::scan::{EventView, Progress, ProjectView, TargetView};
use crate::sorting;
use crate::tui::app;
use crate::tui::app::{AppView, RowView};
use crate::tui::keys;
use crate::worth;
use vstd::multiset::Multiset;
use vstd::prelude::*;

verus! {

/// The target of a row, if it has one.
pub open spec fn target_of(r: RowView) -> Option<TargetView> {
    match r.target {
        Some(t) => if t < r.project.targets.len() {
            Some(r.project.targets[t as int])
        } else {
            None
        },
        None => None,
    }
}

proof fn lemma_keys_in_order(a: RowView, b: RowView)
    requires
        app::row_key()(a) >= app::row_key()(b),
    ensures
        target_of(b) is Some ==> target_of(a) is Some,
        keys::may_be_touched(b) ==> keys::may_be_touched(a),
        keys::may_be_touched(a) && keys::may_be_touched(b) ==> !worth::clearly_better(
            target_of(b)->0,
            target_of(a)->0,
        ),
{
    if let Some(t) = a.measured() {
        t.lemma_efficiency_is_valid();
    }
    if let Some(t) = b.measured() {
        t.lemma_efficiency_is_valid();
    }
    if keys::may_be_touched(a) && keys::may_be_touched(b) && worth::clearly_better(
        target_of(b)->0,
        target_of(a)->0,
    ) {
        rates::better_rates_rank_first(target_of(a)->0, target_of(b)->0);
    }
}

/// Ranking loses no row and adds none. Rows with a target come before those without one,
/// rows that may be touched come before all others, and none of them comes before one
/// that clearly gives back more for each second.
pub proof fn the_list_is_ranked(rows: Seq<RowView>, i: int, j: int)
    requires
        0 <= i < j < app::ranked_rows(rows).len(),
    ensures
        ({
            let a = app::ranked_rows(rows)[i];
            let b = app::ranked_rows(rows)[j];
            &&& app::ranked_rows(rows).to_multiset() == rows.to_multiset()
            &&& target_of(b) is Some ==> target_of(a) is Some
            &&& keys::may_be_touched(b) ==> keys::may_be_touched(a)
            &&& keys::may_be_touched(a) && keys::may_be_touched(b) ==> !worth::clearly_better(
                target_of(b)->0,
                target_of(a)->0,
            )
        }),
{
    let key = app::row_key();
    sorting::lemma_sorted_is_rearranged(rows, key);
    sorting::lemma_sorted_descends(rows, key);
    assert(key(app::ranked_rows(rows)[i]) >= key(app::ranked_rows(rows)[j]));
    lemma_keys_in_order(app::ranked_rows(rows)[i], app::ranked_rows(rows)[j]);
}

/// Ranking changes the order of the rows and where the cursor is, and nothing else.
pub proof fn ranking_changes_the_order_alone(v: AppView)
    ensures
        v.ranked().rows.to_multiset() == v.rows.to_multiset(),
        v.ranked().mode == v.mode,
        v.ranked().progress == v.progress,
        v.ranked().roots == v.roots,
        v.ranked().worth_rate == v.worth_rate,
        v.ranked().show_below == v.show_below,
        v.ranked().quit == v.quit,
        v.ranked().viewport == v.viewport,
{
    sorting::lemma_sorted_is_rearranged(v.rows, app::row_key());
}

/// Some row is of a project.
pub open spec fn is_listed(rows: Seq<RowView>, root: Seq<char>) -> bool {
    exists|i: int|
        0 <= i < rows.len() && paths::parts((#[trigger] rows[i]).project.root) == paths::parts(root)
}

/// A project that is recognised is listed behind all others until it is measured, with
/// nothing to select in it, and it is not listed again.
pub proof fn a_recognised_project_is_listed(v: AppView, root: Seq<char>, ecosystem: Seq<char>)
    ensures
        ({
            let w = v.after_event(EventView::Found { root, ecosystem });
            &&& keys::else_unchanged(v, w)
            &&& is_listed(v.rows, root) ==> w.rows == v.rows
            &&& !is_listed(v.rows, root) ==> {
                let r = w.rows.last();
                &&& w.rows.len() == v.rows.len() + 1
                &&& w.rows.drop_last() == v.rows
                &&& r.project.root == root
                &&& r.project.ecosystem == ecosystem
                &&& target_of(r) is None
                &&& !r.selected
                &&& !keys::may_be_touched(r)
            }
        }),
{
    let w = v.after_event(EventView::Found { root, ecosystem });
    if app::lists(v.rows, root) {
        let i = choose|i: int|
            0 <= i < v.rows.len() && paths::same_place((#[trigger] v.rows[i]).project.root, root);
        assert(paths::parts(v.rows[i].project.root) == paths::parts(root));
    } else {
        assert(w.rows.drop_last() =~= v.rows);
    }
}

/// The counts of a scan are taken over as they are.
pub proof fn counts_are_taken_over(v: AppView, p: Progress)
    ensures
        v.after_event(EventView::Progress(p)).progress == p,
        v.after_event(EventView::Progress(p)).rows == v.rows,
        keys::else_unchanged(
            (AppView { progress: p, ..v }),
            v.after_event(EventView::Progress(p)),
        ),
{
}

/// A directory was selected before.
pub open spec fn was_selected(rows: Seq<RowView>, path: Seq<char>) -> bool {
    exists|i: int|
        0 <= i < rows.len() && (#[trigger] rows[i]).selected && (target_of(rows[i]) matches Some(t)
            && paths::parts(t.path) == paths::parts(path))
}

/// The rows of a project that was measured: one for each target, selected if the
/// directory was selected before and the work around it is backed up.
pub open spec fn rows_for(rows: Seq<RowView>, p: ProjectView) -> Seq<RowView> {
    Seq::new(
        p.targets.len(),
        |i: int|
            RowView {
                project: p,
                target: Some(i as usize),
                selected: (p.git_state is Clean || p.git_state is NotARepo) && was_selected(
                    rows,
                    p.targets[i].path,
                ),
            },
    )
}

/// The rows of other projects.
pub open spec fn others(rows: Seq<RowView>, root: Seq<char>) -> Multiset<RowView> {
    rows.to_multiset().filter(
        |r: RowView| paths::parts(r.project.root) != paths::parts(root),
    )
}

proof fn lemma_kept_elsewhere(rows: Seq<RowView>, root: Seq<char>, n: int)
    requires
        0 <= n <= rows.len(),
    ensures
        app::rows_at(rows, app::which(app::is_elsewhere(rows, root), n)).to_multiset() == others(
            rows.take(n),
            root,
        ),
    decreases n,
{
    broadcast use vstd::seq_lib::group_to_multiset_ensures;

    let test = app::is_elsewhere(rows, root);
    let part = app::rows_at(rows, app::which(test, n));
    let f = |r: RowView| paths::parts(r.project.root) != paths::parts(root);
    if n > 0 {
        lemma_kept_elsewhere(rows, root, n - 1);
        let before = app::rows_at(rows, app::which(test, n - 1));
        let x = rows[n - 1];
        assert(rows.take(n) =~= rows.take(n - 1).push(x));
        let m = rows.take(n - 1).to_multiset();
        if test(n - 1) {
            assert(part =~= before.push(x));
            assert(m.insert(x).filter(f) =~= m.filter(f).insert(x));
        } else {
            assert(part =~= before);
            assert(m.insert(x).filter(f) =~= m.filter(f));
        }
        assert(others(rows.take(n), root) =~= m.insert(x).filter(f));
        assert(others(rows.take(n - 1), root) =~= m.filter(f));
    } else {
        assert(part =~= Seq::<RowView>::empty());
        assert(rows.take(0) =~= Seq::<RowView>::empty());
        assert(others(rows.take(n), root) =~= Multiset::empty());
    }
}

/// A project that is measured takes the place of whatever was listed for it. The rows of
/// all other projects are what they were.
pub proof fn a_measured_project_is_listed(v: AppView, p: ProjectView)
    ensures
        v.after_event(EventView::Project(p)).rows.to_multiset() == others(v.rows, p.root).add(
            rows_for(v.rows, p).to_multiset(),
        ),
        v.after_event(EventView::Project(p)).mode == v.mode,
        v.after_event(EventView::Project(p)).progress == v.progress,
        v.after_event(EventView::Project(p)).show_below == v.show_below,
        v.after_event(EventView::Project(p)).quit == v.quit,
{
    let kept = app::rows_at(
        v.rows,
        app::which(app::is_elsewhere(v.rows, p.root), v.rows.len() as int),
    );
    let own = app::rows_of(v.rows, p);
    assert(v.rows.take(v.rows.len() as int) =~= v.rows);
    lemma_kept_elsewhere(v.rows, p.root, v.rows.len() as int);
    let all = app::rows_after_project(v.rows, p);
    sorting::lemma_sorted_is_rearranged(all, app::row_key());
    assert forall|i: int| 0 <= i < p.targets.len() implies app::has_selected(
        v.rows,
        #[trigger] p.targets[i].path,
    ) == was_selected(v.rows, p.targets[i].path) by {
        let path = p.targets[i].path;
        if app::has_selected(v.rows, path) {
            let k = choose|k: int|
                0 <= k < v.rows.len() && (#[trigger] v.rows[k]).selected && (
                v.rows[k].measured() matches Some(t) && paths::same_place(t.path, path));
            assert(target_of(v.rows[k]) == v.rows[k].measured());
        }
        if was_selected(v.rows, path) {
            let k = choose|k: int|
                0 <= k < v.rows.len() && (#[trigger] v.rows[k]).selected && (target_of(
                    v.rows[k],
                ) matches Some(t) && paths::parts(t.path) == paths::parts(path));
            assert(target_of(v.rows[k]) == v.rows[k].measured());
        }
    }
    assert(own =~= rows_for(v.rows, p));
    vstd::seq_lib::lemma_multiset_commutative(kept, own);
}

/// After a deletion nothing is selected. Where all of it was removed, exactly the rows are
/// left that were not selected; where anything was not, every row is still there.
pub proof fn what_was_removed_is_not_listed(rows: Seq<RowView>, out: Outcome, i: int)
    requires
        0 <= i < rows.len(),
    ensures
        ({
            let after = app::rows_after_deletion(rows, out);
            let left = RowView { selected: false, ..rows[i] };
            &&& forall|k: int| 0 <= k < after.len() ==> !(#[trigger] after[k]).selected
            &&& out.failures > 0 || out.refused > 0 ==> keys::same_rows(after, rows)
            &&& out.failures == 0 && out.refused == 0 ==> {
                &&& !rows[i].selected ==> after.contains(left)
                &&& after.len() == ranking::total(
                    rows.map_values(
                        |r: RowView|
                            if r.selected {
                                0nat
                            } else {
                                1nat
                            },
                    ),
                )
            }
        }),
{
    let after = app::rows_after_deletion(rows, out);
    let test = app::is_left(rows);
    let at = app::which(test, rows.len() as int);
    app::lemma_which(test, rows.len() as int);
    if out.failures == 0 && out.refused == 0 {
        if !rows[i].selected {
            assert(test(i));
            let k = at.index_of(i);
            assert(after[k] == (RowView { selected: false, ..rows[i] }));
        }
        assert(rows.take(rows.len() as int) =~= rows);
        lemma_how_many_are_left(rows, rows.len() as int);
    }
}

proof fn lemma_how_many_are_left(rows: Seq<RowView>, n: int)
    requires
        0 <= n <= rows.len(),
    ensures
        app::which(app::is_left(rows), n).len() == ranking::total(
            rows.take(n).map_values(
                |r: RowView|
                    if r.selected {
                        0nat
                    } else {
                        1nat
                    },
            ),
        ),
    decreases n,
{
    let f = |r: RowView|
        if r.selected {
            0nat
        } else {
            1nat
        };
    if n > 0 {
        lemma_how_many_are_left(rows, n - 1);
        assert(rows.take(n).map_values(f).drop_last() =~= rows.take(n - 1).map_values(f));
        assert(rows.take(n).map_values(f).last() == f(rows[n - 1]));
    }
}

/// What comes back of a row if a test holds for it, and nothing otherwise.
pub open spec fn freed_where(test: spec_fn(RowView) -> bool) -> spec_fn(RowView) -> nat {
    |r: RowView|
        if test(r) && target_of(r) is Some {
            rates::freed(target_of(r)->0) as nat
        } else {
            0
        }
}

/// How long a row takes to rebuild if a test holds for it, and nothing otherwise.
pub open spec fn time_where(test: spec_fn(RowView) -> bool) -> spec_fn(RowView) -> nat {
    |r: RowView|
        if test(r) && target_of(r) is Some {
            (target_of(r)->0).rebuild_seconds as nat
        } else {
            0
        }
}

proof fn lemma_total_where(
    rows: Seq<RowView>,
    at: spec_fn(int) -> bool,
    test: spec_fn(RowView) -> bool,
    n: int,
)
    requires
        0 <= n <= rows.len(),
        forall|i: int| 0 <= i < rows.len() ==> #[trigger] at(i) == test(rows[i]),
    ensures
        ({
            let part = app::rows_at(rows, app::which(at, n));
            &&& ranking::total(app::bytes_of(part)) == ranking::total(
                rows.take(n).map_values(freed_where(test)),
            )
            &&& ranking::total(app::seconds_of(part)) == ranking::total(
                rows.take(n).map_values(time_where(test)),
            )
        }),
    decreases n,
{
    let f = freed_where(test);
    let g = time_where(test);
    let part = app::rows_at(rows, app::which(at, n));
    if n > 0 {
        lemma_total_where(rows, at, test, n - 1);
        let before = app::rows_at(rows, app::which(at, n - 1));
        let r = rows[n - 1];
        assert(rows.take(n).map_values(f).drop_last() =~= rows.take(n - 1).map_values(f));
        assert(rows.take(n).map_values(g).drop_last() =~= rows.take(n - 1).map_values(g));
        assert(rows.take(n).map_values(f).last() == f(r));
        assert(rows.take(n).map_values(g).last() == g(r));
        assert(at(n - 1) == test(r));
        assert(target_of(r) == r.measured());
        if at(n - 1) {
            assert(part =~= before.push(r));
            assert(app::bytes_of(part).drop_last() =~= app::bytes_of(before));
            assert(app::seconds_of(part).drop_last() =~= app::seconds_of(before));
        } else {
            assert(part =~= before);
        }
    }
}

/// The totals that are shown add up what comes back and how long it takes: over the rows
/// that may be touched, over those that are selected, and over those that are held back.
pub proof fn totals_add_up(rows: Seq<RowView>)
    ensures
        ({
            let may = |r: RowView| keys::may_be_touched(r);
            let chosen = |r: RowView| r.selected;
            let held = |r: RowView|
                !(r.project.git_state is Clean) && !(r.project.git_state is NotARepo);
            &&& ranking::total(app::bytes_of(app::eligible(rows))) == ranking::total(
                rows.map_values(freed_where(may)),
            )
            &&& ranking::total(app::seconds_of(app::eligible(rows))) == ranking::total(
                rows.map_values(time_where(may)),
            )
            &&& ranking::total(app::bytes_of(app::selected(rows))) == ranking::total(
                rows.map_values(freed_where(chosen)),
            )
            &&& ranking::total(app::seconds_of(app::selected(rows))) == ranking::total(
                rows.map_values(time_where(chosen)),
            )
            &&& ranking::total(app::bytes_of(app::blocked(rows))) == ranking::total(
                rows.map_values(freed_where(held)),
            )
        }),
{
    let may = |r: RowView| keys::may_be_touched(r);
    let chosen = |r: RowView| r.selected;
    let held = |r: RowView| !(r.project.git_state is Clean) && !(r.project.git_state is NotARepo);
    let n = rows.len() as int;
    assert(rows.take(n) =~= rows);
    lemma_total_where(rows, app::is_selectable(rows), may, n);
    lemma_total_where(rows, app::is_selected(rows), chosen, n);
    lemma_total_where(rows, app::is_blocked(rows), held, n);
}

} // verus!
