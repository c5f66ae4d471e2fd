//! What each key does, told by what was there before and what is there after.
use crate::balance;
use crate::chart;
use crate::reclaim::DoomedView;
use crate::scan::Progress;
use crate::tui::app;
use crate::tui::app::{Action, AppView, Key, Mode, RowView};
use crate::tui::promises;
use crate::worth;
use vstd::prelude::*;

verus! {

/// Keys go to the list: no key reference is open, nothing is being confirmed and
/// nothing is being deleted.
pub open spec fn is_open(mode: Mode) -> bool {
    mode is Idle || mode is Scanning || mode is Browsing || mode is Done
}

/// A row that may be touched: there is a target, and the work around it is backed up or
/// in no repository at all.
pub open spec fn may_be_touched(r: RowView) -> bool {
    &&& r.project.git_state is Clean || r.project.git_state is NotARepo
    &&& r.target matches Some(t) && t < r.project.targets.len()
}

/// The same rows, whatever is selected.
pub open spec fn same_rows(a: Seq<RowView>, b: Seq<RowView>) -> bool {
    a.len() == b.len() && forall|i: int|
        0 <= i < a.len() ==> (#[trigger] a[i]).project == b[i].project && a[i].target == b[i].target
}

/// Nothing has changed but the list and what is selected in it.
pub open spec fn else_unchanged(v: AppView, w: AppView) -> bool {
    &&& v.mode == w.mode
    &&& v.cursor == w.cursor
    &&& v.offset == w.offset
    &&& v.progress == w.progress
    &&& v.roots == w.roots
    &&& v.worth_rate == w.worth_rate
    &&& v.show_below == w.show_below
    &&& v.quit == w.quit
    &&& v.viewport == w.viewport
}

/// After `n` nothing is selected, whatever is shown, and nothing is up for deletion.
pub proof fn n_clears_the_selection(v: AppView)
    requires
        is_open(v.mode),
    ensures
        ({
            let (w, action) = v.after_key(Key::Char('n'));
            &&& forall|i: int| 0 <= i < w.rows.len() ==> !(#[trigger] w.rows[i]).selected
            &&& app::doomed_of(w.rows).len() == 0
            &&& same_rows(v.rows, w.rows)
            &&& else_unchanged(v, w)
            &&& action == Action::Nothing
        }),
{
    let w = v.after_key(Key::Char('n')).0;
    app::lemma_which(app::is_doomed(w.rows), w.rows.len() as int);
    let test = app::is_doomed(w.rows);
    let at = app::which(test, w.rows.len() as int);
    if at.len() > 0 {
        assert(test(at[0]));
    }
}

proof fn lemma_front(rows: Seq<RowView>, k: int)
    requires
        promises::eligible_first(rows),
        0 <= k < app::eligible(rows).len(),
    ensures
        app::which(app::is_selectable(rows), rows.len() as int)[k] == k,
        k < rows.len(),
        app::eligible(rows)[k] == rows[k],
    decreases k,
{
    let test = app::is_selectable(rows);
    let at = app::which(test, rows.len() as int);
    app::lemma_which(test, rows.len() as int);
    promises::lemma_which_spreads(test, rows.len() as int, k);
    assert(test(at[k]));
    assert(rows[at[k]].selectable());
    assert(rows[k].selectable());
    assert(test(k));
    assert(at.contains(k));
    let p = at.index_of(k);
    if p < k {
        lemma_front(rows, p);
    } else if p > k {
        assert(at[k] < at[p]);
    }
}

proof fn lemma_units_are_valid(rows: Seq<RowView>, rate: u64)
    ensures
        forall|i: int| 0 <= i < rows.len() ==> (#[trigger] app::units_of(rows, rate)[i]).valid(),
{
    assert forall|i: int| 0 <= i < rows.len() implies (#[trigger] app::units_of(
        rows,
        rate,
    )[i]).valid() by {
        chart::units_are_valid(rows[i].bytes(), rows[i].seconds(), rate);
    }
}

/// The line in the list is drawn in front of the first row that may be touched and whose
/// bar on the left is not the longer one. Every row above it may be touched and beats
/// the rate.
pub proof fn rows_above_the_line_beat_the_rate(rows: Seq<RowView>, rate: u64, i: int)
    requires
        balance::proper_rate(rate),
        promises::eligible_first(rows),
        rows.len() <= usize::MAX,
    ensures
        ({
            let cut = app::cut_of(rows, rate);
            &&& cut <= rows.len()
            &&& 0 <= i < cut ==> may_be_touched(rows[i]) && worth::beats(
                rows[i].project.targets[rows[i].target->0 as int],
                rate,
            )
            &&& cut < rows.len() && may_be_touched(rows[cut as int]) ==> {
                let drawn = chart::drawn(
                    app::units_of(app::eligible(rows), rate),
                    app::CUT_FIELD,
                );
                drawn[cut as int].left <= drawn[cut as int].right
            }
        }),
{
    let some = app::eligible(rows);
    let us = app::units_of(some, rate);
    let drawn = chart::drawn(us, app::CUT_FIELD);
    let cut = app::cut_of(rows, rate);
    let test = app::is_selectable(rows);
    let at = app::which(test, rows.len() as int);
    app::lemma_which(test, rows.len() as int);
    chart::lemma_first_not_leaning(drawn, 0);
    if 0 <= i < cut {
        lemma_front(rows, i);
        assert(test(at[i]));
        lemma_units_are_valid(some, rate);
        let t = rows[i].project.targets[rows[i].target->0 as int];
        worth::lemma_drawn(us, t, rate, app::CUT_FIELD, i);
        assert(drawn[i].leans());
    }
    if cut < rows.len() && may_be_touched(rows[cut as int]) {
        assert(test(cut as int));
        assert(at.contains(cut as int));
        let p = at.index_of(cut as int);
        lemma_front(rows, p);
        assert(p == cut);
    }
}

/// `a` selects rows and deselects none. Every row that it selects stands above the line,
/// may be touched and beats the rate, and every row above the line is selected after it.
pub proof fn a_selects_what_is_worth_it(v: AppView, i: int)
    requires
        is_open(v.mode),
        balance::proper_rate(v.worth_rate),
        promises::eligible_first(v.rows),
        v.rows.len() <= usize::MAX,
        0 <= i < v.rows.len(),
    ensures
        ({
            let (w, action) = v.after_key(Key::Char('a'));
            &&& same_rows(v.rows, w.rows)
            &&& else_unchanged(v, w)
            &&& action == Action::Nothing
            &&& v.rows[i].selected ==> w.rows[i].selected
            &&& i < app::cut_of(v.rows, v.worth_rate) ==> w.rows[i].selected
            &&& w.rows[i].selected && !v.rows[i].selected ==> i < app::cut_of(
                v.rows,
                v.worth_rate,
            ) && may_be_touched(v.rows[i]) && worth::beats(
                v.rows[i].project.targets[v.rows[i].target->0 as int],
                v.worth_rate,
            )
        }),
{
    rows_above_the_line_beat_the_rate(v.rows, v.worth_rate, i);
}

/// A row can be seen exactly if all rows are shown, if it stands above the line, or if it
/// is selected, and rows are seen in their order.
pub proof fn what_can_be_seen(v: AppView, i: int)
    requires
        0 <= i < v.rows.len(),
    ensures
        v.visible_at().contains(i) <==> v.show_below || v.rows[i].selected || i < app::cut_of(
            v.rows,
            v.worth_rate,
        ),
        forall|k: int, l: int|
            0 <= k < l < v.visible_at().len() ==> #[trigger] v.visible_at()[k]
                < #[trigger] v.visible_at()[l],
        forall|k: int|
            0 <= k < v.visible_at().len() ==> 0 <= #[trigger] v.visible_at()[k] < v.rows.len()
                && v.visible()[k] == v.rows[v.visible_at()[k]],
{
    let test = v.is_shown();
    app::lemma_which(test, v.rows.len() as int);
    let at = v.visible_at();
    if at.contains(i) {
        let k = at.index_of(i);
        assert(test(at[k]));
    }
    if v.show_below || v.rows[i].selected || i < app::cut_of(v.rows, v.worth_rate) {
        assert(test(i));
    }
}

/// The space bar changes the row under the cursor and no other: it is selected if it was
/// not, and the other way round, as long as it may be touched.
pub proof fn space_changes_the_row_under_the_cursor(v: AppView, i: int)
    requires
        is_open(v.mode),
        0 <= i < v.rows.len(),
    ensures
        ({
            let (w, action) = v.after_key(Key::Space);
            let under = v.cursor < v.visible_at().len() && v.visible_at()[v.cursor as int] == i;
            &&& same_rows(v.rows, w.rows)
            &&& else_unchanged(v, w)
            &&& action == Action::Nothing
            &&& (w.rows[i].selected != v.rows[i].selected) <==> under && may_be_touched(v.rows[i])
        }),
{
    app::lemma_which(v.is_shown(), v.rows.len() as int);
}

/// Where an index ends up among `n` rows.
pub open spec fn nearest_row(index: int, n: nat) -> int {
    if n == 0 {
        0
    } else if index < 0 {
        0
    } else if index >= n {
        n - 1
    } else {
        index
    }
}

/// How far a key moves the cursor, if it does.
pub open spec fn moves(v: AppView, key: Key) -> Option<int> {
    match key {
        Key::Up => Some(v.cursor - 1),
        Key::Down => Some(v.cursor + 1),
        Key::PageUp => Some(v.cursor - v.viewport),
        Key::PageDown => Some(v.cursor + v.viewport),
        Key::Home => Some(0),
        Key::End => Some(v.visible().len() - 1),
        _ => None,
    }
}

/// A key that moves the cursor changes nothing else but how far the list is scrolled, and
/// that only where the cursor would not be on the screen.
pub proof fn moving_moves_the_cursor(v: AppView, key: Key)
    requires
        is_open(v.mode),
        moves(v, key) is Some,
        v.visible().len() > 0,
        v.rows.len() <= usize::MAX,
    ensures
        ({
            let (w, action) = v.after_key(key);
            &&& w.cursor == nearest_row(moves(v, key)->0, v.visible().len())
            &&& w.rows == v.rows
            &&& else_unchanged((AppView { cursor: w.cursor, offset: w.offset, ..v }), w)
            &&& v.offset <= w.cursor && w.cursor < v.offset + v.viewport ==> w.offset == v.offset
            &&& action == Action::Nothing
        }),
{
    app::lemma_which(v.is_shown(), v.rows.len() as int);
}

/// `t` shows the rows below the line or hides them, and changes no row.
pub proof fn t_shows_and_hides(v: AppView)
    requires
        is_open(v.mode),
    ensures
        ({
            let (w, action) = v.after_key(Key::Char('t'));
            &&& w.show_below == !v.show_below
            &&& w.rows == v.rows
            &&& w.mode == v.mode
            &&& w.quit == v.quit
            &&& action == Action::Nothing
            &&& v.after_key(Key::Char('t')).0.after_key(Key::Char('t')).0.show_below == v.show_below
        }),
{
}

/// `s` starts over with an empty list, unless a scan is going on already.
pub proof fn s_starts_a_scan(v: AppView)
    requires
        is_open(v.mode),
    ensures
        ({
            let (w, action) = v.after_key(Key::Char('s'));
            &&& v.mode is Scanning ==> w == v && action == Action::Nothing
            &&& !(v.mode is Scanning) ==> {
                &&& action == Action::StartScan
                &&& w.rows.len() == 0
                &&& w.mode is Scanning
                &&& w.progress == (Progress { dirs: 0, files: 0 })
                &&& w.cursor == 0
                &&& w.offset == 0
                &&& w.roots == v.roots
                &&& w.worth_rate == v.worth_rate
                &&& w.show_below == v.show_below
                &&& w.quit == v.quit
            }
        }),
{
}

/// A row is selected and has a target.
pub open spec fn is_up_for_deletion(r: RowView) -> bool {
    r.selected && (r.target matches Some(t) && t < r.project.targets.len())
}

/// `r` and the enter key ask for a confirmation exactly if something is up for deletion,
/// and change nothing else.
pub proof fn r_asks_where_there_is_something_to_ask(v: AppView, key: Key)
    requires
        is_open(v.mode),
        key == Key::Char('r') || key == Key::Enter,
    ensures
        ({
            let (w, action) = v.after_key(key);
            &&& action == Action::Nothing
            &&& w.mode is Confirming <==> exists|i: int|
                0 <= i < v.rows.len() && is_up_for_deletion(#[trigger] v.rows[i])
            &&& w.rows == v.rows
            &&& !(w.mode is Confirming) ==> w == v
            &&& else_unchanged((AppView { mode: w.mode, ..v }), w)
        }),
{
    let test = app::is_doomed(v.rows);
    let at = app::which(test, v.rows.len() as int);
    app::lemma_which(test, v.rows.len() as int);
    if at.len() > 0 {
        assert(test(at[0]));
        assert(is_up_for_deletion(v.rows[at[0]]));
    }
    assert forall|i: int| 0 <= i < v.rows.len() && is_up_for_deletion(#[trigger] v.rows[i]) implies
        at.len() > 0 by {
        assert(test(i));
        assert(at.contains(i));
    }
}

/// A yes to the confirmation deletes what was confirmed: not a row has changed.
pub proof fn a_yes_deletes_what_was_confirmed(v: AppView, key: Key)
    requires
        v.mode is Confirming,
        key == Key::Char('y') || key == Key::Enter,
    ensures
        v.after_key(key).1 == Action::Reclaim,
        v.after_key(key).0.mode is Reclaiming,
        v.after_key(key).0.rows == v.rows,
        else_unchanged((AppView { mode: Mode::Reclaiming, ..v }), v.after_key(key).0),
{
}

/// Any other letter does nothing.
pub proof fn other_letters_do_nothing(v: AppView, c: char)
    requires
        is_open(v.mode),
        c != 'a',
        c != 'n',
        c != 't',
        c != 's',
        c != 'r',
    ensures
        v.after_key(Key::Char(c)) == (v, Action::Nothing),
{
}

/// In the key reference only the keys that leave it do anything.
pub proof fn the_reference_stays_open(v: AppView, key: Key)
    requires
        v.mode is Help,
        key != Key::Quit,
        key != Key::Esc,
        key != Key::Help,
        key != Key::Enter,
    ensures
        v.after_key(key) == (v, Action::Nothing),
{
}

/// Leaving the key reference and quitting never touch a row.
pub proof fn leaving_touches_no_row(v: AppView, key: Key)
    requires
        key == Key::Quit || key == Key::Esc || key == Key::Help,
    ensures
        v.after_key(key).0.rows == v.rows,
        v.after_key(key).1 == Action::Nothing,
        v.after_key(key).0.quit && !v.quit ==> is_open(v.mode) && key != Key::Help,
{
}

/// What is up for deletion is what is selected and has a target: each such row, once, in
/// the order of the list, and nothing else.
pub proof fn what_is_selected_is_up_for_deletion(rows: Seq<RowView>) -> (at: Seq<int>)
    ensures
        app::doomed_of(rows).len() == at.len(),
        forall|k: int|
            0 <= k < at.len() ==> 0 <= #[trigger] at[k] < rows.len() && is_up_for_deletion(
                rows[at[k]],
            ) && app::doomed_of(rows)[k] == (DoomedView {
                project: rows[at[k]].project,
                target: rows[at[k]].project.targets[rows[at[k]].target->0 as int],
            }),
        forall|k: int, l: int| 0 <= k < l < at.len() ==> #[trigger] at[k] < #[trigger] at[l],
        forall|i: int|
            0 <= i < rows.len() && is_up_for_deletion(#[trigger] rows[i]) ==> at.contains(i),
{
    let test = app::is_doomed(rows);
    let at = app::which(test, rows.len() as int);
    app::lemma_which(test, rows.len() as int);
    assert forall|k: int| 0 <= k < at.len() implies 0 <= #[trigger] at[k] < rows.len()
        && is_up_for_deletion(rows[at[k]]) && app::doomed_of(rows)[k] == (DoomedView {
        project: rows[at[k]].project,
        target: rows[at[k]].project.targets[rows[at[k]].target->0 as int],
    }) by {
        assert(test(at[k]));
    }
    assert forall|i: int| 0 <= i < rows.len() && is_up_for_deletion(#[trigger] rows[i]) implies
        at.contains(i) by {
        assert(test(i));
    }
    at
}

} // verus!
