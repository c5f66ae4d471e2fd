//! What a deletion removes, what it counts and what it says.
use crate::deletion;
use crate::deletion::{OrderView, ReclaimView, ReportView, Stage, World};
use crate::figures;
use crate::page;
use crate::paths;
use crate::ranking;
use crate::rates;
use crate::reclaim;
use crate::reclaim::{DoomedView, Outcome};
use crate::text;
use vstd::prelude::*;
use vstd::string::*;

verus! {

/// The place that the second path leads to lies below that of the first, and is another
/// one.
pub open spec fn strictly_below(root: Option<Seq<char>>, path: Option<Seq<char>>) -> bool {
    match (root, path) {
        (Some(r), Some(p)) => {
            &&& paths::parts(r).len() < paths::parts(p).len()
            &&& forall|i: int|
                0 <= i < paths::parts(r).len() ==> paths::parts(p)[i] == #[trigger] paths::parts(
                    r,
                )[i]
        },
        _ => false,
    }
}

/// A target counts as inside its project where it leads to a place strictly below it:
/// the project itself does not, and what leads nowhere does not.
pub proof fn inside_is_strictly_below(root: Option<Seq<char>>, path: Option<Seq<char>>)
    ensures
        reclaim::contained(root, path) <==> strictly_below(root, path),
{
    if root is Some && path is Some {
        let r = paths::parts(root->0);
        let p = paths::parts(path->0);
        if strictly_below(root, path) {
            assert(p.take(r.len() as int) =~= r);
        }
        if reclaim::contained(root, path) {
            if r.len() == p.len() {
                assert(p.take(r.len() as int) =~= p);
            }
            assert forall|i: int| 0 <= i < r.len() implies p[i] == #[trigger] r[i] by {
                assert(p.take(r.len() as int)[i] == p[i]);
            }
        }
    }
}

/// What stands in a directory is inside it.
pub proof fn what_stands_in_a_project_is_inside(root: Seq<char>, name: Seq<char>)
    requires
        paths::plain_name(name),
    ensures
        reclaim::contained(Some(root), Some(paths::joined_path(root, name))),
        !reclaim::contained(Some(paths::joined_path(root, name)), Some(root)),
        !reclaim::contained(Some(root), Some(root)),
{
    paths::parts_of_plain_name(name);
    paths::parts_of_joined(root, name);
    inside_is_strictly_below(Some(root), Some(paths::joined_path(root, name)));
    inside_is_strictly_below(Some(paths::joined_path(root, name)), Some(root));
    inside_is_strictly_below(Some(root), Some(root));
}

/// Nothing but a `yes` is a yes: all else that can be seen in an answer makes it a no.
pub proof fn only_yes_is_a_yes(answer: Seq<char>) -> (at: int)
    requires
        reclaim::agreed(answer),
    ensures
        0 <= at <= answer.len() - 3,
        answer[at] == 'y' && answer[at + 1] == 'e' && answer[at + 2] == 's',
        forall|i: int|
            0 <= i < answer.len() && !(at <= i < at + 3) ==> !text::visible(#[trigger] answer[i]),
{
    reveal_strlit("yes");
    let (a, b) = text::trimming_takes_nothing_that_can_be_seen(answer);
    let w = answer.subrange(a, b);
    assert(w == "yes"@);
    assert(w.len() == 3);
    assert(w[0] == answer[a] && w[1] == answer[a + 1] && w[2] == answer[a + 2]);
    a
}

/// A `yes` is a yes with whatever spaces and line ends around it.
pub proof fn a_yes_is_a_yes(before: Seq<char>, behind: Seq<char>)
    requires
        forall|i: int| 0 <= i < before.len() ==> text::spacing(#[trigger] before[i]),
        forall|i: int| 0 <= i < behind.len() ==> text::spacing(#[trigger] behind[i]),
    ensures
        reclaim::agreed(before + "yes"@ + behind),
{
    reveal_strlit("yes");
    text::trimming_keeps_what_can_be_seen(before, "yes"@, behind);
}

/// A row is gone: it lies inside its project, and removing it worked.
pub open spec fn is_gone(d: DoomedView, world: World) -> bool {
    strictly_below((world.resolve)(d.project.root), (world.resolve)(d.target.path))
        && (world.remove)(d.target.path) is None
}

/// A row could not be removed, though it lies inside its project.
pub open spec fn is_stuck(d: DoomedView, world: World) -> bool {
    strictly_below((world.resolve)(d.project.root), (world.resolve)(d.target.path))
        && (world.remove)(d.target.path) is Some
}

/// A row was left alone, as it does not lie inside its project.
pub open spec fn is_left(d: DoomedView, world: World) -> bool {
    !strictly_below((world.resolve)(d.project.root), (world.resolve)(d.target.path))
}

/// What came back of each row.
pub open spec fn came_back(plan: Seq<DoomedView>, world: World) -> Seq<nat> {
    plan.map_values(
        |d: DoomedView|
            if is_gone(d, world) {
                rates::freed(d.target) as nat
            } else {
                0nat
            },
    )
}

/// One for each row that something holds of.
pub open spec fn ones(plan: Seq<DoomedView>, holds: spec_fn(DoomedView) -> bool) -> Seq<nat> {
    plan.map_values(
        |d: DoomedView|
            if holds(d) {
                1nat
            } else {
                0nat
            },
    )
}

proof fn lemma_total_from(values: Seq<nat>, i: int)
    requires
        0 <= i < values.len(),
    ensures
        ranking::total(values.skip(i)) == values[i] + ranking::total(values.skip(i + 1)),
{
    let s = values.skip(i);
    ranking::lemma_total_grows(s, 1);
    assert(s.skip(1) =~= values.skip(i + 1));
    let one = s.take(1);
    assert(one.drop_last() =~= Seq::<nat>::empty());
    assert(ranking::total(one.drop_last()) == 0);
    assert(one.last() == values[i]);
}

proof fn lemma_outcome(o: Outcome, plan: Seq<DoomedView>, world: World, i: nat)
    requires
        i <= plan.len() <= usize::MAX,
        o.freed + ranking::total(came_back(plan, world).skip(i as int)) <= u64::MAX,
        o.removed <= i,
        o.failures <= i,
        o.refused <= i,
    ensures
        ({
            let r = deletion::outcome_from(o, plan, world, i);
            let k = i as int;
            &&& r.freed == o.freed + ranking::total(came_back(plan, world).skip(k))
            &&& r.removed == o.removed + ranking::total(
                ones(plan, |d: DoomedView| is_gone(d, world)).skip(k),
            )
            &&& r.failures == o.failures + ranking::total(
                ones(plan, |d: DoomedView| is_stuck(d, world)).skip(k),
            )
            &&& r.refused == o.refused + ranking::total(
                ones(plan, |d: DoomedView| is_left(d, world)).skip(k),
            )
        }),
    decreases plan.len() - i,
{
    let k = i as int;
    let back = came_back(plan, world);
    let gone = ones(plan, |d: DoomedView| is_gone(d, world));
    let stuck = ones(plan, |d: DoomedView| is_stuck(d, world));
    let left = ones(plan, |d: DoomedView| is_left(d, world));
    if i < plan.len() {
        lemma_total_from(back, k);
        lemma_total_from(gone, k);
        lemma_total_from(stuck, k);
        lemma_total_from(left, k);
        let d = plan[k];
        inside_is_strictly_below(
            (world.resolve)(d.project.root),
            (world.resolve)(d.target.path),
        );
        lemma_outcome(deletion::outcome_with(o, d, world), plan, world, i + 1);
    } else {
        assert(back.skip(k) =~= Seq::<nat>::empty());
        assert(gone.skip(k) =~= Seq::<nat>::empty());
        assert(stuck.skip(k) =~= Seq::<nat>::empty());
        assert(left.skip(k) =~= Seq::<nat>::empty());
    }
}

proof fn lemma_each_is_something(plan: Seq<DoomedView>, world: World, i: int)
    requires
        0 <= i <= plan.len(),
    ensures
        ranking::total(ones(plan, |d: DoomedView| is_gone(d, world)).skip(i)) + ranking::total(
            ones(plan, |d: DoomedView| is_stuck(d, world)).skip(i),
        ) + ranking::total(ones(plan, |d: DoomedView| is_left(d, world)).skip(i)) == plan.len()
            - i,
    decreases plan.len() - i,
{
    let gone = ones(plan, |d: DoomedView| is_gone(d, world));
    let stuck = ones(plan, |d: DoomedView| is_stuck(d, world));
    let left = ones(plan, |d: DoomedView| is_left(d, world));
    if i < plan.len() {
        lemma_each_is_something(plan, world, i + 1);
        lemma_total_from(gone, i);
        lemma_total_from(stuck, i);
        lemma_total_from(left, i);
    } else {
        assert(gone.skip(i) =~= Seq::<nat>::empty());
        assert(stuck.skip(i) =~= Seq::<nat>::empty());
        assert(left.skip(i) =~= Seq::<nat>::empty());
    }
}

/// A deletion that goes ahead counts as freed what the rows that are gone give back, and
/// every row once: as removed, as failed or as refused.
pub proof fn every_row_is_counted_once(plan: Seq<DoomedView>, world: World)
    requires
        plan.len() <= usize::MAX,
        ranking::total(came_back(plan, world)) <= u64::MAX,
    ensures
        ({
            let r = deletion::outcome_from(deletion::no_outcome(), plan, world, 0);
            &&& r.freed == ranking::total(came_back(plan, world))
            &&& r.removed == ranking::total(ones(plan, |d: DoomedView| is_gone(d, world)))
            &&& r.failures == ranking::total(ones(plan, |d: DoomedView| is_stuck(d, world)))
            &&& r.refused == ranking::total(ones(plan, |d: DoomedView| is_left(d, world)))
            &&& r.removed + r.failures + r.refused == plan.len()
        }),
{
    let back = came_back(plan, world);
    let gone = ones(plan, |d: DoomedView| is_gone(d, world));
    let stuck = ones(plan, |d: DoomedView| is_stuck(d, world));
    let left = ones(plan, |d: DoomedView| is_left(d, world));
    assert(back.skip(0) =~= back);
    assert(gone.skip(0) =~= gone);
    assert(stuck.skip(0) =~= stuck);
    assert(left.skip(0) =~= left);
    lemma_outcome(deletion::no_outcome(), plan, world, 0);
    lemma_each_is_something(plan, world, 0);
}

proof fn lemma_inside_from(plan: Seq<DoomedView>, world: World, i: nat, k: int)
    requires
        i <= k < plan.len(),
        world.is_inside(plan[k]),
    ensures
        deletion::inside_from(plan, world, i).contains(plan[k].target.path),
    decreases plan.len() - i,
{
    let rest = deletion::inside_from(plan, world, i + 1);
    let all = deletion::inside_from(plan, world, i);
    if i == k {
        assert(all[0] == plan[k].target.path);
    } else {
        lemma_inside_from(plan, world, i + 1, k);
        let j = choose|j: int| 0 <= j < rest.len() && rest[j] == plan[k].target.path;
        if world.is_inside(plan[i as int]) {
            assert(all[j + 1] == rest[j]);
        }
    }
}

proof fn lemma_from_inside(plan: Seq<DoomedView>, world: World, i: nat, j: int) -> (k: int)
    requires
        0 <= j < deletion::inside_from(plan, world, i).len(),
    ensures
        i <= k < plan.len(),
        deletion::inside_from(plan, world, i)[j] == plan[k].target.path,
        world.is_inside(plan[k]),
    decreases plan.len() - i,
{
    if world.is_inside(plan[i as int]) && j == 0 {
        i as int
    } else if world.is_inside(plan[i as int]) {
        lemma_from_inside(plan, world, i + 1, j - 1)
    } else {
        lemma_from_inside(plan, world, i + 1, j)
    }
}

/// A path is that of a row that lies inside its project.
pub open spec fn is_up_for_removal(
    plan: Seq<DoomedView>,
    world: World,
    path: Seq<char>,
) -> bool {
    exists|k: int|
        0 <= k < plan.len() && (#[trigger] plan[k]).target.path == path && !is_left(
            plan[k],
            world,
        )
}

/// What a deletion that goes ahead sets out to remove is what lies inside its project:
/// every such row, and no other.
pub proof fn what_lies_inside_is_removed(plan: Seq<DoomedView>, world: World)
    ensures
        forall|k: int|
            0 <= k < plan.len() && !is_left(#[trigger] plan[k], world)
                ==> deletion::inside_from(plan, world, 0).contains(plan[k].target.path),
        forall|j: int|
            0 <= j < deletion::inside_from(plan, world, 0).len() ==> is_up_for_removal(
                plan,
                world,
                #[trigger] deletion::inside_from(plan, world, 0)[j],
            ),
{
    assert forall|k: int| 0 <= k < plan.len() && !is_left(#[trigger] plan[k], world) implies
        deletion::inside_from(plan, world, 0).contains(plan[k].target.path) by {
        let d = plan[k];
        inside_is_strictly_below(
            (world.resolve)(d.project.root),
            (world.resolve)(d.target.path),
        );
        lemma_inside_from(plan, world, 0, k);
    }
    assert forall|j: int| 0 <= j < deletion::inside_from(plan, world, 0).len() implies
        is_up_for_removal(plan, world, #[trigger] deletion::inside_from(plan, world, 0)[j]) by {
        let k = lemma_from_inside(plan, world, 0, j);
        let d = plan[k];
        inside_is_strictly_below(
            (world.resolve)(d.project.root),
            (world.resolve)(d.target.path),
        );
    }
}

/// The rows to be deleted are announced: how much comes back of them together, in how many
/// projects they are, and how long they take to rebuild. The figure is called a lower
/// bound where something could not be read, and only there.
#[verifier::rlimit(40)]
#[verifier::spinoff_prover]
pub proof fn a_deletion_is_announced(rows: Seq<DoomedView>, held_back: nat)
    ensures
        ({
            let lines = reclaim::announcement(rows, held_back);
            let unread = ranking::total(
                rows.map_values(|d: DoomedView| d.target.unreadable as nat),
            );
            let b = figures::bytes_text(ranking::total(page::freed_by(rows)));
            &&& lines.len() >= 3
            &&& page::shows(lines[1], b)
            &&& page::shows(lines[1], text::decimal(reclaim::projects_among(rows)))
            &&& page::shows(
                lines[2],
                figures::duration_text(ranking::total(page::time_for(rows))),
            )
            &&& unread > 0 ==> page::stands_at(lines[1], "About to delete at least "@ + b, 0)
            &&& unread == 0 ==> page::stands_at(lines[1], "About to delete "@ + b, 0)
            &&& unread > 0 ==> lines.len() > 3 && page::shows(lines[3], text::decimal(unread))
            &&& held_back > 0 ==> page::shows(lines.last(), text::decimal(held_back))
            &&& lines.len() == 3 + (if unread > 0 {
                1int
            } else {
                0int
            }) + (if held_back > 0 {
                1int
            } else {
                0int
            })
        }),
{
    let lines = reclaim::announcement(rows, held_back);
    let unread = ranking::total(rows.map_values(|d: DoomedView| d.target.unreadable as nat));
    assert(reclaim::unreadable_of(rows) =~= rows.map_values(
        |d: DoomedView| d.target.unreadable as nat,
    ));
    lemma_about(rows);
    lemma_cost(rows);
    assert(lines[1] == reclaim::about_text(rows));
    assert(lines[2] == reclaim::cost_text(rows));
    if unread > 0 {
        let tail = " "@ + (if unread == 1 {
            "entry"@
        } else {
            "entries"@
        }) + " could not be read. Sizes marked ~ are lower bounds."@;
        assert(lines[3] =~= Seq::<char>::empty() + text::decimal(unread) + tail);
        page::lemma_shows(Seq::empty(), text::decimal(unread), tail);
    }
    if held_back > 0 {
        let tail = " project(s) will be skipped: uncommitted or unpushed work."@;
        assert(lines.last() =~= Seq::<char>::empty() + text::decimal(held_back) + tail);
        page::lemma_shows(Seq::empty(), text::decimal(held_back), tail);
    }
}

#[verifier::rlimit(40)]
#[verifier::spinoff_prover]
proof fn lemma_about(rows: Seq<DoomedView>)
    ensures
        ({
            let line = reclaim::about_text(rows);
            let b = figures::bytes_text(ranking::total(page::freed_by(rows)));
            &&& page::shows(line, b)
            &&& page::shows(line, text::decimal(reclaim::projects_among(rows)))
            &&& ranking::total(reclaim::unreadable_of(rows)) > 0 ==> page::stands_at(
                line,
                "About to delete at least "@ + b,
                0,
            )
            &&& ranking::total(reclaim::unreadable_of(rows)) == 0 ==> page::stands_at(
                line,
                "About to delete "@ + b,
                0,
            )
        }),
{
    reveal_strlit("About to delete ");
    reveal_strlit("at least ");
    reveal_strlit("About to delete at least ");
    assert(reclaim::bytes_of(rows) =~= page::freed_by(rows));
    let line = reclaim::about_text(rows);
    let b = figures::bytes_text(ranking::total(page::freed_by(rows)));
    let n = text::decimal(reclaim::projects_among(rows));
    let unread = ranking::total(reclaim::unreadable_of(rows)) > 0;
    let a = "About to delete "@ + (if unread {
        "at least "@
    } else {
        Seq::empty()
    });
    assert(a =~= (if unread {
        "About to delete at least "@
    } else {
        "About to delete "@
    }));
    let z = " across "@ + n + " project(s)."@;
    assert(line =~= a + b + z);
    page::lemma_shows(a, b, z);
    assert(line.subrange(0, (a + b).len() as int) =~= a + b);
    assert(page::stands_at(line, a + b, 0));
    assert(line =~= (a + b + " across "@) + n + " project(s)."@);
    page::lemma_shows(a + b + " across "@, n, " project(s)."@);
}

proof fn lemma_cost(rows: Seq<DoomedView>)
    ensures
        page::shows(
            reclaim::cost_text(rows),
            figures::duration_text(ranking::total(page::time_for(rows))),
        ),
{
    assert(reclaim::seconds_of(rows) =~= page::time_for(rows));
    page::lemma_shows(
        "Restoring all of it would cost roughly "@,
        figures::duration_text(ranking::total(page::time_for(rows))),
        "."@,
    );
}

/// A row adds a project to those that are counted unless one in front of it names the same
/// place.
pub proof fn projects_are_counted_once(rows: Seq<DoomedView>, d: DoomedView)
    ensures
        reclaim::projects_among(rows.push(d)) == reclaim::projects_among(rows) + (if exists|
            j: int,
        |
            0 <= j < rows.len() && paths::parts((#[trigger] rows[j]).project.root)
                == paths::parts(d.project.root) {
            0nat
        } else {
            1nat
        }),
{
    let all = rows.push(d);
    assert(all.drop_last() =~= rows);
    if exists|j: int|
        0 <= j < rows.len() && paths::parts((#[trigger] rows[j]).project.root) == paths::parts(
            d.project.root,
        ) {
        let j = choose|j: int|
            0 <= j < rows.len() && paths::parts((#[trigger] rows[j]).project.root)
                == paths::parts(d.project.root);
        assert(all[j] == rows[j]);
    } else {
        assert forall|j: int| 0 <= j < rows.len() implies !paths::same_place(
            (#[trigger] all[j]).project.root,
            d.project.root,
        ) by {
            assert(all[j] == rows[j]);
        }
    }
}

/// Whatever becomes of a row is said, with its path: that it is gone and what came back,
/// why it could not be removed, or that it was left alone. Only what is gone is told as
/// good news.
#[verifier::rlimit(40)]
#[verifier::spinoff_prover]
pub proof fn what_becomes_of_a_row_is_said(s: ReclaimView, report: ReportView, i: usize)
    requires
        i < s.plan.len(),
        (s.stage == Stage::Removing(i) && (report is Removed || report is Failed)) || (s.stage
            == Stage::Resolving(i) && (report matches ReportView::Resolved { root, path }
            && !strictly_below(root, path))),
    ensures
        ({
            let t = s.plan[i as int].target;
            s.after(report).1 matches OrderView::Say { out, err } && match report {
                ReportView::Removed => {
                    &&& out.len() == 1 && err.len() == 0
                    &&& page::shows(out[0], t.path)
                    &&& page::shows(out[0], figures::bytes_text(rates::freed(t) as nat))
                },
                ReportView::Failed(why) => {
                    &&& out.len() == 0 && err.len() == 1
                    &&& page::shows(err[0], t.path)
                    &&& page::shows(err[0], why)
                },
                _ => {
                    &&& out.len() == 0 && err.len() == 1
                    &&& page::shows(err[0], t.path)
                },
            }
        }),
{
    let t = s.plan[i as int].target;
    match report {
        ReportView::Removed => {
            let b = figures::bytes_text(rates::freed(t) as nat);
            page::lemma_shows("  removed "@, t.path, " ("@ + b + ")"@);
            assert(reclaim::removed_text(t) =~= "  removed "@ + t.path + (" ("@ + b + ")"@));
            page::lemma_shows("  removed "@ + t.path + " ("@, b, ")"@);
        },
        ReportView::Failed(why) => {
            page::lemma_shows("  FAILED "@, t.path, ": "@ + why);
            assert(reclaim::failed_text(t, why) =~= "  FAILED "@ + t.path + (": "@ + why));
            page::lemma_shows("  FAILED "@ + t.path + ": "@, why, Seq::empty());
            assert(reclaim::failed_text(t, why) =~= ("  FAILED "@ + t.path + ": "@) + why
                + Seq::<char>::empty());
        },
        ReportView::Resolved { root, path } => {
            inside_is_strictly_below(root, path);
            page::lemma_shows(
                "  REFUSED "@,
                t.path,
                ": did not resolve inside its project"@,
            );
        },
        _ => {},
    }
}

/// The end says how much came back, and how many rows could not be removed or were left
/// alone, where there are any.
pub proof fn the_end_says_what_came_of_it(o: Outcome)
    ensures
        reclaim::closing_out(o).len() == 2,
        page::shows(reclaim::closing_out(o)[1], figures::bytes_text(o.freed as nat)),
        o.failures > 0 ==> reclaim::closing_err(o).len() > 0 && page::shows(
            reclaim::closing_err(o)[0],
            text::decimal(o.failures as nat),
        ),
        o.refused > 0 ==> reclaim::closing_err(o).len() > 0 && page::shows(
            reclaim::closing_err(o).last(),
            text::decimal(o.refused as nat),
        ),
        o.failures == 0 && o.refused == 0 ==> reclaim::closing_err(o).len() == 0,
{
    page::lemma_shows("Freed "@, figures::bytes_text(o.freed as nat), "."@);
    let f = text::decimal(o.failures as nat);
    let r = text::decimal(o.refused as nat);
    let a = " target(s) could not be removed (in use, or permissions)."@;
    let b = " target(s) refused: did not resolve inside their project."@;
    page::lemma_shows(Seq::empty(), f, a);
    page::lemma_shows(Seq::empty(), r, b);
    assert(Seq::<char>::empty() + f + a =~= f + a);
    assert(Seq::<char>::empty() + r + b =~= r + b);
    if o.failures > 0 {
        assert(reclaim::closing_err(o)[0] == f + a);
    }
    if o.refused > 0 {
        assert(reclaim::closing_err(o).last() == r + b);
    }
}

/// Where nothing is up for deletion, it is said how many targets lie below the line and how
/// many projects are held back, where there are any.
pub proof fn nothing_to_delete_is_explained(held_back: nat, below: nat)
    ensures
        ({
            let lines = reclaim::nothing_lines(held_back, below);
            &&& below > 0 ==> page::shows(lines[0], text::decimal(below))
            &&& held_back > 0 ==> lines.len() == 2 && page::shows(
                lines[1],
                text::decimal(held_back),
            )
            &&& held_back == 0 ==> lines.len() == 1
        }),
{
    let z = " target(s) below the break-even line.  --all to take them."@;
    page::lemma_shows("Nothing is worth reclaiming: "@, text::decimal(below), z);
    let h = text::decimal(held_back);
    let y = " project(s) skipped: uncommitted or unpushed work."@;
    page::lemma_shows(Seq::empty(), h, y);
    assert(Seq::<char>::empty() + h + y =~= h + y);
}

} // verus!
