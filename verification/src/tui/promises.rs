//! What the interface promises, whatever is pressed and whatever the scan finds.
use crate::chart;
use crate::paths;
use crate::ranking;
use crate::reclaim;
use crate::reclaim::Outcome;
use crate::scan::{EventView, ProjectView};
use crate::sorting;
use crate::tui::app;
use crate::tui::app::{Action, AppView, Key, Mode, RowView};
use vstd::prelude::*;

verus! {

/// Whatever is selected may be selected: it is measured and its work is backed up.
pub open spec fn selection_is_safe(rows: Seq<RowView>) -> bool {
    forall|i: int| 0 <= i < rows.len() && (#[trigger] rows[i]).selected ==> rows[i].selectable()
}

/// The rows that can be reclaimed come before all others.
pub open spec fn eligible_first(rows: Seq<RowView>) -> bool {
    forall|i: int, j: int|
        0 <= i <= j < rows.len() && (#[trigger] rows[j]).selectable() ==> (
        #[trigger] rows[i]).selectable()
}

proof fn lemma_key(r: RowView)
    ensures
        r.selectable() ==> r.key() >= 0x3_0000_0000_0000_0000,
        !r.selectable() ==> r.key() < 0x3_0000_0000_0000_0000,
{
    if let Some(t) = r.measured() {
        t.lemma_efficiency_is_valid();
    }
}

proof fn lemma_ranked_rows(rows: Seq<RowView>)
    ensures
        app::ranked_rows(rows).len() == rows.len(),
        eligible_first(app::ranked_rows(rows)),
        selection_is_safe(rows) ==> selection_is_safe(app::ranked_rows(rows)),
{
    let key = app::row_key();
    let ranked = app::ranked_rows(rows);
    let any = |r: RowView| true;
    assert(sorting::all(rows, any));
    sorting::lemma_sorted_keeps_all(rows, key, any);
    sorting::lemma_sorted_descends(rows, key);
    assert forall|i: int, j: int|
        0 <= i <= j < ranked.len() && (#[trigger] ranked[j]).selectable() implies (
    #[trigger] ranked[i]).selectable() by {
        lemma_key(ranked[i]);
        lemma_key(ranked[j]);
        if i < j {
            assert(key(ranked[i]) >= key(ranked[j]));
        }
    }
    if selection_is_safe(rows) {
        let safe = |r: RowView| r.selected ==> r.selectable();
        assert(sorting::all(rows, safe));
        sorting::lemma_sorted_keeps_all(rows, key, safe);
        assert forall|i: int|
            0 <= i < ranked.len() && (#[trigger] ranked[i]).selected implies ranked[i].selectable() by {
            assert(safe(ranked[i]));
        }
    }
}

proof fn lemma_part(rows: Seq<RowView>, test: spec_fn(int) -> bool)
    ensures
        ({
            let part = app::rows_at(rows, app::which(test, rows.len() as int));
            &&& selection_is_safe(rows) ==> selection_is_safe(part)
            &&& eligible_first(rows) ==> eligible_first(part)
            &&& part.len() <= rows.len()
        }),
{
    let at = app::which(test, rows.len() as int);
    let part = app::rows_at(rows, at);
    app::lemma_which(test, rows.len() as int);
    if selection_is_safe(rows) {
        assert forall|i: int|
            0 <= i < part.len() && (#[trigger] part[i]).selected implies part[i].selectable() by {
            assert(part[i] == rows[at[i]]);
        }
    }
    if eligible_first(rows) {
        assert forall|i: int, j: int|
            0 <= i <= j < part.len() && (#[trigger] part[j]).selectable() implies (
        #[trigger] part[i]).selectable() by {
            assert(part[i] == rows[at[i]] && part[j] == rows[at[j]]);
            if i < j {
                assert(at[i] < at[j]);
            }
        }
    }
}

/// No event of a scan ever makes a selection unsafe, not even a project turning out
/// to hold work that is not backed up.
pub proof fn events_keep_the_selection_safe(v: AppView, e: EventView)
    requires
        selection_is_safe(v.rows),
    ensures
        selection_is_safe(v.after_event(e).rows),
{
    match e {
        EventView::Project(p) => {
            let kept = app::rows_at(
                v.rows,
                app::which(app::is_elsewhere(v.rows, p.root), v.rows.len() as int),
            );
            let fresh = app::rows_of(v.rows, p);
            lemma_part(v.rows, app::is_elsewhere(v.rows, p.root));
            let all = app::rows_after_project(v.rows, p);
            assert forall|i: int|
                0 <= i < all.len() && (#[trigger] all[i]).selected implies all[i].selectable() by {
                if i < kept.len() {
                    assert(all[i] == kept[i]);
                } else {
                    let j = i - kept.len();
                    assert(all[i] == fresh[j]);
                }
            }
            lemma_ranked_rows(all);
        },
        _ => {},
    }
}

/// A project that turns out to hold work that is not backed up takes nothing with it:
/// no row of it is selected, whatever was before, and nothing in it is up for
/// deletion.
pub proof fn a_project_that_turns_unsafe_is_let_go(v: AppView, p: ProjectView, k: int)
    requires
        selection_is_safe(v.rows),
        !p.git_state.safe(),
    ensures
        ({
            let after = v.after_event(EventView::Project(p)).rows;
            &&& 0 <= k < after.len() && paths::same_place(after[k].project.root, p.root)
                ==> !after[k].selected
            &&& 0 <= k < app::doomed_of(after).len() ==> !paths::same_place(
                app::doomed_of(after)[k].project.root,
                p.root,
            )
        }),
{
    let all = app::rows_after_project(v.rows, p);
    let after = v.after_event(EventView::Project(p)).rows;
    let its_own = |r: RowView| paths::same_place(r.project.root, p.root) ==> r.project == p;
    assert forall|i: int| 0 <= i < all.len() implies its_own(#[trigger] all[i]) by {
        if paths::same_place(all[i].project.root, p.root) {
            measuring_replaces_the_rows(v.rows, p, i);
        }
    }
    sorting::lemma_sorted_keeps_all(all, app::row_key(), its_own);
    events_keep_the_selection_safe(v, EventView::Project(p));
    assert forall|i: int|
        0 <= i < after.len() && paths::same_place(
            (#[trigger] after[i]).project.root,
            p.root,
        ) implies !after[i].selected by {
        assert(its_own(after[i]));
    }
    if 0 <= k < app::doomed_of(after).len() {
        let test = app::is_doomed(after);
        let at = app::which(test, after.len() as int);
        app::lemma_which(test, after.len() as int);
        assert(test(at[k]));
        assert(after[at[k]].selected);
    }
}

/// No key ever selects anything that is not measured or not backed up.
pub proof fn keys_keep_the_selection_safe(v: AppView, key: Key)
    requires
        selection_is_safe(v.rows),
    ensures
        selection_is_safe(v.after_key(key).0.rows),
{
    app::lemma_which(v.is_shown(), v.rows.len() as int);
}

/// The end of a scan keeps the selection safe, and so does the end of a deletion.
pub proof fn endings_keep_the_selection_safe(v: AppView, out: Outcome)
    requires
        selection_is_safe(v.rows),
    ensures
        selection_is_safe(v.ranked().rows),
        selection_is_safe(app::rows_after_deletion(v.rows, out)),
{
    lemma_ranked_rows(v.rows);
}

/// Once the list is ranked, what can be reclaimed comes first, and it stays so
/// through every event of a scan.
pub proof fn events_keep_the_eligible_first(v: AppView, e: EventView)
    requires
        eligible_first(v.rows),
    ensures
        eligible_first(v.after_event(e).rows),
{
    match e {
        EventView::Project(p) => {
            lemma_ranked_rows(app::rows_after_project(v.rows, p));
        },
        EventView::Found { root, ecosystem } => {
            let after = app::rows_after_found(v.rows, root, ecosystem);
            assert forall|i: int, j: int|
                0 <= i <= j < after.len() && (#[trigger] after[j]).selectable() implies (
            #[trigger] after[i]).selectable() by {
                if j < v.rows.len() {
                    assert(after[j] == v.rows[j] && after[i] == v.rows[i]);
                }
            }
        },
        EventView::Progress(_) => {},
    }
}

/// What can be reclaimed stays first through every key.
pub proof fn keys_keep_the_eligible_first(v: AppView, key: Key)
    requires
        eligible_first(v.rows),
    ensures
        eligible_first(v.after_key(key).0.rows),
{
    app::lemma_which(v.is_shown(), v.rows.len() as int);
    let after = v.after_key(key).0.rows;
    if after.len() > 0 {
        assert forall|i: int| 0 <= i < after.len() implies #[trigger] after[i].selectable()
            == v.rows[i].selectable() by {}
        assert forall|i: int, j: int|
            0 <= i <= j < after.len() && (#[trigger] after[j]).selectable() implies (
        #[trigger] after[i]).selectable() by {
            assert(after[j].selectable() == v.rows[j].selectable());
            assert(after[i].selectable() == v.rows[i].selectable());
        }
    }
}

/// Ranking brings what can be reclaimed to the front, and it stays there when the
/// rows that were deleted are dropped.
pub proof fn endings_keep_the_eligible_first(v: AppView, out: Outcome)
    ensures
        eligible_first(v.ranked().rows),
        eligible_first(v.rows) ==> eligible_first(app::rows_after_deletion(v.rows, out)),
{
    lemma_ranked_rows(v.rows);
    lemma_part(v.rows, app::is_left(v.rows));
    let left = if out.failures == 0 && out.refused == 0 {
        app::rows_at(v.rows, app::which(app::is_left(v.rows), v.rows.len() as int))
    } else {
        v.rows
    };
    let after = app::rows_after_deletion(v.rows, out);
    if eligible_first(v.rows) {
        assert forall|i: int, j: int|
            0 <= i <= j < after.len() && (#[trigger] after[j]).selectable() implies (
        #[trigger] after[i]).selectable() by {
            assert(after[j].selectable() == left[j].selectable());
            assert(after[i].selectable() == left[i].selectable());
        }
    }
}

/// No index comes before its place in the list of indices.
pub proof fn lemma_which_spreads(test: spec_fn(int) -> bool, n: int, k: int)
    requires
        0 <= n,
        0 <= k < app::which(test, n).len(),
    ensures
        app::which(test, n)[k] >= k,
    decreases k,
{
    app::lemma_which(test, n);
    if k > 0 {
        lemma_which_spreads(test, n, k - 1);
        assert(app::which(test, n)[k - 1] < app::which(test, n)[k]);
    }
}

/// The break-even line ignores rows that cannot be reclaimed: every row above it
/// can be.
pub proof fn rows_above_the_line_can_be_reclaimed(rows: Seq<RowView>, rate: u64, i: int)
    requires
        eligible_first(rows),
        rows.len() <= usize::MAX,
        0 <= i < app::cut_of(rows, rate),
    ensures
        i < rows.len(),
        rows[i].selectable(),
{
    let test = app::is_selectable(rows);
    let at = app::which(test, rows.len() as int);
    app::lemma_which(test, rows.len() as int);
    let us = app::units_of(app::eligible(rows), rate);
    chart::lemma_first_not_leaning(chart::drawn(us, app::CUT_FIELD), 0);
    assert(app::cut_of(rows, rate) <= at.len());
    let last = at.len() - 1;
    lemma_which_spreads(test, rows.len() as int, last);
    assert(test(at[last]));
    assert(rows[at[last]].selectable());
}

/// A row that is selected can always be seen.
pub proof fn selected_rows_can_be_seen(v: AppView, i: int)
    requires
        0 <= i < v.rows.len(),
        v.rows[i].selected,
    ensures
        v.visible_at().contains(i),
{
    app::lemma_which(v.is_shown(), v.rows.len() as int);
    let test = v.is_shown();
    assert(test(i));
}

/// With everything shown, every row can be seen.
pub proof fn showing_all_shows_all(v: AppView, i: int)
    requires
        0 <= i < v.rows.len(),
        v.show_below,
    ensures
        v.visible_at().contains(i),
{
    app::lemma_which(v.is_shown(), v.rows.len() as int);
    let test = v.is_shown();
    assert(test(i));
}

/// A deletion is only ever asked for by a yes to the confirmation.
pub proof fn only_a_yes_deletes(v: AppView, key: Key)
    ensures
        v.after_key(key).1 == Action::Reclaim <==> v.mode is Confirming && (key == Key::Char('y')
            || key == Key::Enter),
{
}

/// A confirmation is only ever asked for something: some row is selected and
/// measured.
pub proof fn nothing_is_not_confirmed(v: AppView, key: Key)
    requires
        !(v.mode is Confirming),
        !(v.mode is Help),
        v.after_key(key).0.mode is Confirming,
    ensures
        app::doomed_of(v.rows).len() > 0,
        v.after_key(key).0.rows == v.rows,
{
}

/// Keys do not get through while a deletion is going on.
pub proof fn a_deletion_cannot_be_interrupted(v: AppView, key: Key)
    requires
        v.mode is Reclaiming,
    ensures
        v.after_key(key) == (v, Action::Nothing),
{
}

/// The key reference leads back to where it was called from, and nothing else has
/// changed.
pub proof fn help_leads_back(v: AppView, out: Key)
    requires
        !(v.mode is Help),
        !(v.mode is Confirming),
        !(v.mode is Reclaiming),
        out == Key::Quit || out == Key::Esc || out == Key::Help || out == Key::Enter,
    ensures
        v.after_key(Key::Help).0.after_key(out) == (v, Action::Nothing),
{
    let helped = v.after_key(Key::Help).0;
    assert(helped.mode == Mode::Help(Box::new(v.mode)));
}

/// No mode traps the user: quitting works wherever nothing is being confirmed,
/// deleted or looked up.
pub proof fn quitting_works(v: AppView)
    requires
        !(v.mode is Help),
        !(v.mode is Confirming),
        !(v.mode is Reclaiming),
    ensures
        v.after_key(Key::Quit).0.quit,
        v.after_key(Key::Esc).0.quit,
{
}

/// A cancelled confirmation changes nothing but the mode.
pub proof fn cancelling_keeps_the_selection(v: AppView, key: Key)
    requires
        v.mode is Confirming,
        key != Key::Char('y'),
        key != Key::Enter,
    ensures
        v.after_key(key) == ((AppView { mode: Mode::Browsing, ..v }), Action::Nothing),
{
}

proof fn lemma_doomed_totals(rows: Seq<RowView>, n: int)
    requires
        0 <= n <= rows.len(),
    ensures
        ({
            let picked = app::rows_at(rows, app::which(app::is_selected(rows), n));
            let doomed = app::rows_at(rows, app::which(app::is_doomed(rows), n)).map_values(
                |r: RowView| app::as_doomed(r),
            );
            &&& ranking::total(app::bytes_of(picked)) == ranking::total(reclaim::bytes_of(doomed))
            &&& ranking::total(app::seconds_of(picked)) == ranking::total(
                reclaim::seconds_of(doomed),
            )
        }),
    decreases n,
{
    if n > 0 {
        lemma_doomed_totals(rows, n - 1);
        let picked0 = app::rows_at(rows, app::which(app::is_selected(rows), n - 1));
        let picked = app::rows_at(rows, app::which(app::is_selected(rows), n));
        let doomed0 = app::rows_at(rows, app::which(app::is_doomed(rows), n - 1)).map_values(
            |r: RowView| app::as_doomed(r),
        );
        let doomed = app::rows_at(rows, app::which(app::is_doomed(rows), n)).map_values(
            |r: RowView| app::as_doomed(r),
        );
        if rows[n - 1].selected {
            assert(app::bytes_of(picked).drop_last() =~= app::bytes_of(picked0));
            assert(app::seconds_of(picked).drop_last() =~= app::seconds_of(picked0));
            if rows[n - 1].measured() is Some {
                assert(reclaim::bytes_of(doomed).drop_last() =~= reclaim::bytes_of(doomed0));
                assert(reclaim::seconds_of(doomed).drop_last() =~= reclaim::seconds_of(doomed0));
            }
        }
    }
}

/// What the confirmation promises is what the deletion is given: both add up to the
/// same bytes and the same time.
pub proof fn the_promise_is_the_plan(rows: Seq<RowView>)
    ensures
        ranking::total(app::bytes_of(app::selected(rows))) == ranking::total(
            reclaim::bytes_of(app::doomed_of(rows)),
        ),
        ranking::total(app::seconds_of(app::selected(rows))) == ranking::total(
            reclaim::seconds_of(app::doomed_of(rows)),
        ),
{
    lemma_doomed_totals(rows, rows.len() as int);
}

/// Nothing is ever up for deletion whose work is not backed up.
pub proof fn only_backed_up_work_is_doomed(rows: Seq<RowView>, k: int)
    requires
        selection_is_safe(rows),
        0 <= k < app::doomed_of(rows).len(),
    ensures
        app::doomed_of(rows)[k].project.git_state.safe(),
{
    let at = app::which(app::is_doomed(rows), rows.len() as int);
    app::lemma_which(app::is_doomed(rows), rows.len() as int);
    let test = app::is_doomed(rows);
    assert(test(at[k]));
    assert(rows[at[k]].selected);
}

/// Wherever the cursor is sent, it ends up on a row that can be seen, and that row
/// is on the screen.
pub proof fn the_cursor_stays_in_bounds(v: AppView, index: int)
    requires
        v.visible().len() > 0,
        v.rows.len() <= usize::MAX,
    ensures
        ({
            let m = v.moved_to(index);
            let c = v.clamped();
            let vp = if v.viewport >= 1 {
                v.viewport as int
            } else {
                1
            };
            &&& m.cursor < v.visible().len() && m.offset <= m.cursor < m.offset + vp
            &&& c.cursor < v.visible().len() && c.offset <= c.cursor < c.offset + vp
        }),
{
    app::lemma_which(v.is_shown(), v.rows.len() as int);
}

/// A project that is recognised again is not listed again.
pub proof fn a_project_is_listed_once(
    rows: Seq<RowView>,
    root: Seq<char>,
    first: Seq<char>,
    second: Seq<char>,
)
    ensures
        app::rows_after_found(app::rows_after_found(rows, root, first), root, second)
            == app::rows_after_found(rows, root, first),
{
    let once = app::rows_after_found(rows, root, first);
    if !app::lists(rows, root) {
        assert(paths::same_place(once[rows.len() as int].project.root, root));
    }
}

/// Measuring a project replaces whatever rows it had by one row for each of its
/// targets.
pub proof fn measuring_replaces_the_rows(rows: Seq<RowView>, p: ProjectView, i: int)
    requires
        0 <= i < app::rows_after_project(rows, p).len(),
        paths::same_place(app::rows_after_project(rows, p)[i].project.root, p.root),
    ensures
        ({
            let kept = app::rows_after_project(rows, p).len() - p.targets.len();
            &&& kept <= i
            &&& app::rows_after_project(rows, p)[i].project == p
            &&& app::rows_after_project(rows, p)[i].target == Some((i - kept) as usize)
        }),
{
    let test = app::is_elsewhere(rows, p.root);
    let at = app::which(test, rows.len() as int);
    app::lemma_which(test, rows.len() as int);
    if i < at.len() {
        assert(test(at[i]));
        assert(app::rows_after_project(rows, p)[i] == rows[at[i]]);
    }
}

/// A directory that was selected stays selected when its project is measured again,
/// as long as the project's work is backed up.
pub proof fn selection_survives_measuring(rows: Seq<RowView>, p: ProjectView, k: int, i: int)
    requires
        0 <= k < rows.len(),
        rows[k].selected,
        rows[k].measured() is Some,
        0 <= i < p.targets.len(),
        paths::same_place(rows[k].measured()->0.path, p.targets[i].path),
        p.git_state.safe(),
    ensures
        app::rows_of(rows, p)[i].selected,
{
}

} // verus!
