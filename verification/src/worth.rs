//! What is worth reclaiming, in exact arithmetic: which rows come first, which way they
//! lean, and where the line is drawn.
use crate::balance;
use crate::binary64::LEAST;
use crate::binary64::LIMIT;
use crate::chart;
use crate::deals;
use crate::ranking;
use crate::rates;
use crate::reclaim;
use crate::reclaim::DoomedView;
use crate::scan::{ProjectView, TargetView};
use vstd::prelude::*;

verus! {

/// A target returns more than the rate asks for its rebuild time. Bytes that stay linked
/// from elsewhere do not count.
pub open spec fn beats(t: TargetView, rate: u64) -> bool {
    t.bytes > t.shared_bytes && balance::owed(t.rebuild_seconds, rate) < balance::returned(
        (t.bytes - t.shared_bytes) as u64,
        rate,
    )
}

/// A target returns less than the rate asks for its rebuild time.
pub open spec fn falls_short(t: TargetView, rate: u64) -> bool {
    balance::returned(rates::freed(t) as u64, rate) < balance::owed(t.rebuild_seconds, rate)
}

/// A target gives back more for each second than another one, and not by less than
/// double precision can tell.
pub open spec fn clearly_better(a: TargetView, b: TargetView) -> bool {
    0 < rates::freed(a) < LIMIT && rates::freed(b) < LIMIT && rates::freed(b) * rates::time(a) * (
    LEAST + 2) <= rates::freed(a) * rates::time(b) * LEAST
}

/// Magnitudes drawn together are drawn as they lean in exact arithmetic.
pub proof fn lemma_drawn(us: Seq<chart::Units>, t: TargetView, rate: u64, field: usize, k: int)
    requires
        balance::proper_rate(rate),
        forall|i: int| 0 <= i < us.len() ==> (#[trigger] us[i]).valid(),
        0 <= k < us.len(),
        us[k] == chart::units_of(t.reclaimable(), t.rebuild_seconds, rate),
    ensures
        chart::drawn(us, field)[k].left > chart::drawn(us, field)[k].right ==> beats(t, rate),
        chart::drawn(us, field)[k].right > chart::drawn(us, field)[k].left ==> falls_short(t, rate),
{
    let scale = chart::scale_of(us, field);
    chart::scales_can_be_held(us, field);
    let n = t.reclaimable();
    balance::the_lean_is_exact(n, t.rebuild_seconds, rate, scale, field);
    if n == 0 {
        assert(0nat * vstd::arithmetic::power2::pow2((-balance::byte_exponent(rate)) as nat) == 0)
            by (nonlinear_arith);
        assert(balance::returned(n, rate) == 0);
    }
}

proof fn lemma_units_are_valid(rows: Seq<DoomedView>, rate: u64)
    ensures
        forall|i: int|
            0 <= i < rows.len() ==> (#[trigger] deals::units_of(rows, rate)[i]).valid(),
{
    assert forall|i: int| 0 <= i < rows.len() implies (#[trigger] deals::units_of(
        rows,
        rate,
    )[i]).valid() by {
        chart::units_are_valid(
            rows[i].target.reclaimable(),
            rows[i].target.rebuild_seconds,
            rate,
        );
    }
}

/// A row of the report is drawn as it leans: with the longer bar on the left only if
/// what comes back beats the rate, and on the right only if it falls short.
pub proof fn rows_are_drawn_as_they_lean(
    rows: Seq<DoomedView>,
    rate: u64,
    field: usize,
    k: int,
)
    requires
        balance::proper_rate(rate),
        0 <= k < rows.len(),
    ensures
        ({
            let b = deals::bars_of(rows, rate, field)[k];
            &&& b.left > b.right ==> beats(rows[k].target, rate)
            &&& b.right > b.left ==> falls_short(rows[k].target, rate)
        }),
{
    let us = deals::units_of(rows, rate);
    lemma_units_are_valid(rows, rate);
    lemma_drawn(us, rows[k].target, rate, field, k);
}

/// The line is drawn in front of the first row whose bar on the left is not the longer
/// one, and every row above it beats the rate.
pub proof fn rows_above_the_line_beat_the_rate(
    ps: Seq<ProjectView>,
    rate: u64,
    field: usize,
    k: int,
)
    requires
        balance::proper_rate(rate),
        deals::eligible(ps).len() <= usize::MAX,
    ensures
        ({
            let rows = deals::ranked(ps);
            let cut = deals::worthwhile(rows, rate, field);
            let drawn = deals::bars_of(rows, rate, field);
            &&& cut <= rows.len()
            &&& 0 <= k < cut ==> drawn[k].left > drawn[k].right && beats(rows[k].target, rate)
            &&& cut < rows.len() ==> drawn[cut as int].left <= drawn[cut as int].right
        }),
{
    let rows = deals::ranked(ps);
    let drawn = deals::bars_of(rows, rate, field);
    deals::ranking_keeps_the_totals(ps);
    deals::lemma_worthwhile(rows, rate, field);
    chart::lemma_first_not_leaning(drawn, 0);
    if 0 <= k < deals::worthwhile(rows, rate, field) {
        rows_are_drawn_as_they_lean(rows, rate, field, k);
    }
}

/// Nothing is planned for deletion that does not beat the rate, unless all was asked
/// for, and never anything in a repository with work that is not backed up.
pub proof fn what_is_planned_beats_the_rate(ps: Seq<ProjectView>, rate: u64, all: bool, k: int)
    requires
        balance::proper_rate(rate),
        deals::eligible(ps).len() <= usize::MAX,
        0 <= k < reclaim::plan_of(ps, rate, all).len(),
    ensures
        ({
            let d = reclaim::plan_of(ps, rate, all)[k];
            &&& all || beats(d.target, rate)
            &&& d.project.git_state is Clean || d.project.git_state is NotARepo
            &&& exists|i: int, j: int|
                0 <= i < ps.len() && 0 <= j < ps[i].targets.len() && d.project
                    == #[trigger] ps[i] && d.target == #[trigger] ps[i].targets[j]
        }),
{
    let j = reclaim::lemma_planned_is_ranked(ps, rate, all, k);
    deals::only_backed_up_work_is_listed(ps, j);
    rows_above_the_line_beat_the_rate(ps, rate, reclaim::PLAN_FIELD, j);
}

/// With all asked for, every target of a project whose work is backed up is planned.
pub proof fn asking_for_all_plans_all(ps: Seq<ProjectView>, rate: u64, i: int, j: int)
    requires
        deals::eligible(ps).len() <= usize::MAX,
        0 <= i < ps.len(),
        0 <= j < ps[i].targets.len(),
        ps[i].git_state is Clean || ps[i].git_state is NotARepo,
    ensures
        reclaim::plan_of(ps, rate, true).contains(
            (DoomedView { project: ps[i], target: ps[i].targets[j] }),
        ),
{
    broadcast use vstd::seq_lib::group_to_multiset_ensures;

    let d = DoomedView { project: ps[i], target: ps[i].targets[j] };
    deals::every_safe_target_is_listed(ps, i, j);
    let k = choose|k: int|
        0 <= k < deals::ranked(ps).len() && #[trigger] deals::ranked(ps)[k] == d;
    assert(deals::ranked(ps).contains(d));
    reclaim::a_plan_holds_what_is_recommended(ps, rate, true);
    assert(deals::ranked(ps).to_multiset().contains(d));
    assert(reclaim::plan_of(ps, rate, true).to_multiset().contains(d));
}

/// No row is listed in front of one that clearly gives back more for each second.
pub proof fn the_best_deals_come_first(ps: Seq<ProjectView>, k: int, l: int)
    requires
        deals::eligible(ps).len() <= usize::MAX,
        0 <= k < l < deals::ranked(ps).len(),
    ensures
        !clearly_better(deals::ranked(ps)[l].target, deals::ranked(ps)[k].target),
{
    deals::better_deals_come_first(ps, k, l);
    let a = deals::ranked(ps)[k].target;
    let b = deals::ranked(ps)[l].target;
    if clearly_better(b, a) {
        rates::better_rates_rank_first(a, b);
    }
}

/// How many targets each project has that can be acted on.
pub open spec fn counts(ps: Seq<ProjectView>) -> Seq<nat> {
    ps.map_values(
        |p: ProjectView|
            if p.git_state is Clean || p.git_state is NotARepo {
                p.targets.len()
            } else {
                0
            },
    )
}

/// There is one row for each target of each project whose work is backed up, and no
/// other.
pub proof fn every_target_has_one_row(ps: Seq<ProjectView>)
    requires
        deals::eligible(ps).len() <= usize::MAX,
    ensures
        deals::ranked(ps).len() == ranking::total(counts(ps)),
{
    deals::ranking_keeps_the_totals(ps);
    lemma_eligible_len(ps);
}

proof fn lemma_eligible_len(ps: Seq<ProjectView>)
    ensures
        deals::eligible(ps).len() == ranking::total(counts(ps)),
    decreases ps.len(),
{
    if ps.len() > 0 {
        lemma_eligible_len(ps.drop_last());
        assert(counts(ps).drop_last() =~= counts(ps.drop_last()));
    }
}

/// What is held back is every project whose work is not backed up, in their order, and
/// nothing else.
pub proof fn what_is_not_backed_up_is_held_back(ps: Seq<ProjectView>)
    ensures
        deals::blocked(ps) == ps.filter(
            |p: ProjectView| !(p.git_state is Clean) && !(p.git_state is NotARepo),
        ),
    decreases ps.len(),
{
    reveal(Seq::filter);
    if ps.len() > 0 {
        what_is_not_backed_up_is_held_back(ps.drop_last());
    }
}

} // verus!
