//! Where the break-even rule stands among the rows that can be seen.
use crate::chart;
use crate::tui::app;
use crate::tui::app::AppView;
use crate::tui::draw;
use crate::tui::promises;
use vstd::prelude::*;

verus! {

proof fn lemma_which_starts(test: spec_fn(int) -> bool, cut: int, n: int)
    requires
        0 <= cut,
        0 <= n,
        forall|i: int| 0 <= i < cut ==> #[trigger] test(i),
    ensures
        n <= cut ==> app::which(test, n).len() == n,
        n >= cut ==> app::which(test, n).len() >= cut,
        forall|k: int| 0 <= k < cut && k < n ==> #[trigger] app::which(test, n)[k] == k,
    decreases n,
{
    if n > 0 {
        lemma_which_starts(test, cut, n - 1);
        let before = app::which(test, n - 1);
        if n - 1 < cut {
            assert(test(n - 1));
        }
        assert forall|k: int| 0 <= k < cut && k < n implies #[trigger] app::which(test, n)[k]
            == k by {
            if k < n - 1 {
                assert(before[k] == k);
            }
        }
    }
}

proof fn lemma_cut_is_bounded(v: AppView)
    requires
        v.rows.len() <= usize::MAX,
    ensures
        app::cut_of(v.rows, v.worth_rate) <= v.rows.len(),
{
    let us = app::units_of(app::eligible(v.rows), v.worth_rate);
    app::lemma_which(app::is_selectable(v.rows), v.rows.len() as int);
    chart::lemma_first_not_leaning(chart::drawn(us, app::CUT_FIELD), 0);
}

proof fn lemma_front_is_there(test: spec_fn(int) -> bool, cut: int, n: int)
    requires
        0 <= cut <= n,
        forall|i: int| 0 <= i < cut ==> #[trigger] test(i),
    ensures
        forall|k: int|
            0 <= k < app::which(test, n).len() ==> (k < cut <==> #[trigger] app::which(test, n)[k]
                < cut),
        cut <= app::which(test, n).len(),
        forall|k: int| 0 <= k < cut ==> #[trigger] app::which(test, n)[k] == k,
{
    lemma_which_starts(test, cut, n);
    assert forall|k: int| 0 <= k < app::which(test, n).len() implies (k < cut
        <==> #[trigger] app::which(test, n)[k] < cut) by {
        promises::lemma_which_spreads(test, n, k);
    }
}

proof fn lemma_cut_is_seen(v: AppView)
    requires
        v.rows.len() <= usize::MAX,
    ensures
        ({
            let cut = app::cut_of(v.rows, v.worth_rate);
            &&& cut <= v.rows.len()
            &&& forall|k: int|
                0 <= k < v.visible_at().len() ==> (k < cut <==> #[trigger] v.visible_at()[k] < cut)
            &&& cut <= v.visible_at().len()
            &&& forall|k: int| 0 <= k < cut ==> #[trigger] v.visible_at()[k] == k
        }),
{
    let cut = app::cut_of(v.rows, v.worth_rate) as int;
    lemma_cut_is_bounded(v);
    let test = v.is_shown();
    assert forall|i: int| 0 <= i < cut implies #[trigger] test(i) by {}
    lemma_front_is_there(test, cut, v.rows.len() as int);
}

/// The rule is the break-even line: of the rows that can be seen, those above it are
/// the ones that are worth reclaiming. Where it stands does not depend on the window.
pub proof fn the_rule_is_the_break_even_line(v: AppView, k: int)
    requires
        v.rows.len() <= usize::MAX,
        0 <= k < v.visible().len(),
    ensures
        (draw::rule_at(v) matches Some(c) && c <= k) <==> v.visible_at()[k] >= app::cut_of(
            v.rows,
            v.worth_rate,
        ),
{
    lemma_cut_is_seen(v);
    assert(v.visible().len() == v.visible_at().len());
    assert(k < app::cut_of(v.rows, v.worth_rate) <==> v.visible_at()[k] < app::cut_of(
        v.rows,
        v.worth_rate,
    ));
}

/// Row `i` can be seen, above the rule.
pub open spec fn above_the_rule(v: AppView, i: int) -> bool {
    exists|k: int|
        0 <= k < v.visible_at().len() && #[trigger] v.visible_at()[k] == i && !(draw::rule_at(
            v,
        ) matches Some(c) && c <= k)
}

/// Selecting above the line selects what the chart recommends: of the rows that are
/// not selected yet, exactly those that stand above the rule.
pub proof fn what_stands_above_the_rule_is_selected(v: AppView, i: int)
    requires
        promises::eligible_first(v.rows),
        v.rows.len() <= usize::MAX,
        0 <= i < v.rows.len(),
        !v.rows[i].selected,
    ensures
        v.with_best_selected().rows[i].selected <==> above_the_rule(v, i),
{
    let cut = app::cut_of(v.rows, v.worth_rate);
    lemma_cut_is_seen(v);
    if i < cut {
        promises::rows_above_the_line_can_be_reclaimed(v.rows, v.worth_rate, i);
        assert(v.visible_at()[i] == i);
        the_rule_is_the_break_even_line(v, i);
    }
    if above_the_rule(v, i) {
        let k = choose|k: int|
            0 <= k < v.visible_at().len() && #[trigger] v.visible_at()[k] == i && !(draw::rule_at(
                v,
            ) matches Some(c) && c <= k);
        the_rule_is_the_break_even_line(v, k);
    }
}

} // verus!
