//! What a scan passes on, held against what there is: what the walks come across, what
//! the detectors state and what is measured.
use crate::detector::{Detector, Reclaimable};
use crate::paths;
use crate::scan;
use crate::scan::{Claim, EventView, Options, Progress, ProjectView, TargetView, World};
use vstd::prelude::*;

verus! {

/// A target is what a detector states about a directory of a project, with what was
/// measured there.
pub open spec fn accounts_for(
    world: World,
    dir: Seq<char>,
    r: Reclaimable,
    opts: Options,
    t: TargetView,
) -> bool {
    &&& r.aggressive_only ==> opts.aggressive
    &&& t.path == paths::joined_path(dir, r.path@)
    &&& t.restore_command == r.restore_command@
    &&& t.rebuild_seconds == r.rebuild_seconds
    &&& (world.size)(t.path, !opts.skip_link_check) matches Some(m) && t.bytes == m.bytes
        && t.shared_bytes == m.shared_bytes && t.unreadable == m.unreadable
    &&& t.bytes > 0 || t.unreadable > 0
}

/// There is something to reclaim where a detector says so.
pub open spec fn is_there(world: World, dir: Seq<char>, r: Reclaimable, opts: Options) -> bool {
    &&& r.aggressive_only ==> opts.aggressive
    &&& (world.size)(paths::joined_path(dir, r.path@), !opts.skip_link_check) matches Some(m) && (
    m.bytes > 0 || m.unreadable > 0)
}

/// One of the entries of a detector from `i` on accounts for a target.
pub open spec fn is_accounted_for(
    world: World,
    dir: Seq<char>,
    rs: Seq<Reclaimable>,
    opts: Options,
    i: int,
    t: TargetView,
) -> bool {
    exists|j: int| i <= j < rs.len() && accounts_for(world, dir, #[trigger] rs[j], opts, t)
}

/// One of some targets is what an entry of a detector states.
pub open spec fn is_among(
    world: World,
    dir: Seq<char>,
    r: Reclaimable,
    opts: Options,
    ts: Seq<TargetView>,
) -> bool {
    exists|k: int| 0 <= k < ts.len() && accounts_for(world, dir, r, opts, #[trigger] ts[k])
}

/// The targets of a project are exactly what its detector states and what is there.
pub proof fn targets_are_what_is_there(
    world: World,
    dir: Seq<char>,
    rs: Seq<Reclaimable>,
    opts: Options,
    i: nat,
)
    ensures
        ({
            let ts = scan::targets_from(world, dir, rs, opts, i);
            &&& forall|k: int|
                0 <= k < ts.len() ==> is_accounted_for(
                    world,
                    dir,
                    rs,
                    opts,
                    i as int,
                    #[trigger] ts[k],
                )
            &&& forall|j: int|
                i <= j < rs.len() && is_there(world, dir, #[trigger] rs[j], opts) ==> is_among(
                    world,
                    dir,
                    rs[j],
                    opts,
                    ts,
                )
            &&& ts.len() <= rs.len() - i || (ts.len() == 0 && i > rs.len())
        }),
    decreases rs.len() - i,
{
    let ts = scan::targets_from(world, dir, rs, opts, i);
    if i < rs.len() {
        let r = rs[i as int];
        let rest = scan::targets_from(world, dir, rs, opts, i + 1);
        targets_are_what_is_there(world, dir, rs, opts, i + 1);
        let m = (world.size)(paths::joined_path(dir, r.path@), !opts.skip_link_check);
        let own = scan::target_of(dir, r, m);
        let listed = scan::wanted(r, opts) && own is Some;
        if listed {
            assert(ts =~= seq![own->0] + rest);
            assert(accounts_for(world, dir, rs[i as int], opts, ts[0]));
        } else {
            assert(ts == rest);
            assert(!is_there(world, dir, r, opts));
        }
        let shift = if listed {
            1int
        } else {
            0int
        };
        assert forall|k: int| 0 <= k < ts.len() implies is_accounted_for(
            world,
            dir,
            rs,
            opts,
            i as int,
            #[trigger] ts[k],
        ) by {
            if k >= shift {
                assert(ts[k] == rest[k - shift]);
                assert(is_accounted_for(world, dir, rs, opts, i as int + 1, rest[k - shift]));
                let j = choose|j: int|
                    i + 1 <= j < rs.len() && accounts_for(
                        world,
                        dir,
                        #[trigger] rs[j],
                        opts,
                        ts[k],
                    );
                assert(accounts_for(world, dir, rs[j], opts, ts[k]));
            }
        }
        assert forall|j: int|
            i <= j < rs.len() && is_there(world, dir, #[trigger] rs[j], opts) implies is_among(
            world,
            dir,
            rs[j],
            opts,
            ts,
        ) by {
            if j > i {
                assert(is_among(world, dir, rs[j], opts, rest));
                let k = choose|k: int|
                    0 <= k < rest.len() && accounts_for(
                        world,
                        dir,
                        rs[j],
                        opts,
                        #[trigger] rest[k],
                    );
                assert(ts[k + shift] == rest[k]);
            } else {
                assert(accounts_for(world, dir, rs[j], opts, ts[0]));
            }
        }
    }
}

/// A project is what a walk came across and what its detector states about it: its
/// directory, its ecosystem, the state of its worktree, and the targets that are there.
pub open spec fn describes(
    world: World,
    ds: Seq<Detector>,
    opts: Options,
    c: Claim,
    p: ProjectView,
) -> bool {
    let rs = ds[c.detector as int].reclaimable@;
    &&& p.root == c.dir
    &&& p.ecosystem == ds[c.detector as int].name@
    &&& p.git_state == (world.gate)(c.dir)
    &&& p.targets.len() > 0
    &&& forall|k: int|
        0 <= k < p.targets.len() ==> is_accounted_for(
            world,
            c.dir,
            rs,
            opts,
            0,
            #[trigger] p.targets[k],
        )
    &&& forall|j: int|
        0 <= j < rs.len() && is_there(world, c.dir, #[trigger] rs[j], opts) ==> is_among(
            world,
            c.dir,
            rs[j],
            opts,
            p.targets,
        )
}


/// The events about one claim: it is announced first, and a project comes of it exactly
/// if something is there.
proof fn lemma_one_claim(
    world: World,
    ds: Seq<Detector>,
    opts: Options,
    c: Claim,
    counted: Progress,
)
    ensures
        ({
            let events = scan::project_events(world, ds, opts, c, counted);
            let rs = ds[c.detector as int].reclaimable@;
            &&& events.len() >= 2
            &&& events[0] == (EventView::Found { root: c.dir, ecosystem: ds[c.detector as int].name@ })
            &&& forall|e: int|
                0 <= e < events.len() ==> (#[trigger] events[e] matches EventView::Project(p)
                    ==> describes(world, ds, opts, c, p))
            &&& forall|j: int|
                0 <= j < rs.len() && is_there(world, c.dir, #[trigger] rs[j], opts) ==> (
                events.last() matches EventView::Project(p) && describes(world, ds, opts, c, p))
        }),
{
    let rs = ds[c.detector as int].reclaimable@;
    targets_are_what_is_there(world, c.dir, rs, opts, 0);
    let ts = scan::targets_from(world, c.dir, rs, opts, 0);
    assert forall|j: int| 0 <= j < rs.len() && is_there(world, c.dir, #[trigger] rs[j], opts) implies
        ts.len() > 0 by {
        assert(is_among(world, c.dir, rs[j], opts, ts));
    }
}

/// Some walk came across a directory, and a project is what there is in it.
pub open spec fn comes_from(
    world: World,
    ds: Seq<Detector>,
    opts: Options,
    found: Seq<Claim>,
    p: ProjectView,
) -> bool {
    exists|c: int| 0 <= c < found.len() && describes(world, ds, opts, #[trigger] found[c], p)
}

/// One of some events announces a project.
pub open spec fn announces(events: Seq<EventView>, root: Seq<char>, ecosystem: Seq<char>) -> bool {
    exists|e: int|
        0 <= e < events.len() && #[trigger] events[e] == (EventView::Found { root, ecosystem })
}

/// One of some events passes on what there is in a directory.
pub open spec fn reports(
    world: World,
    ds: Seq<Detector>,
    opts: Options,
    c: Claim,
    events: Seq<EventView>,
) -> bool {
    exists|e: int|
        0 <= e < events.len() && (#[trigger] events[e] matches EventView::Project(p) && describes(
            world,
            ds,
            opts,
            c,
            p,
        ))
}

/// There is something to reclaim in a directory that a walk came across.
pub open spec fn holds_something(
    world: World,
    ds: Seq<Detector>,
    opts: Options,
    c: Claim,
) -> bool {
    exists|j: int|
        0 <= j < ds[c.detector as int].reclaimable@.len() && is_there(
            world,
            c.dir,
            #[trigger] ds[c.detector as int].reclaimable@[j],
            opts,
        )
}

proof fn lemma_more_events(
    world: World,
    ds: Seq<Detector>,
    opts: Options,
    c: Claim,
    a: Seq<EventView>,
    b: Seq<EventView>,
)
    ensures
        reports(world, ds, opts, c, a) || reports(world, ds, opts, c, b) ==> reports(
            world,
            ds,
            opts,
            c,
            a + b,
        ),
        announces(a, c.dir, ds[c.detector as int].name@) || announces(
            b,
            c.dir,
            ds[c.detector as int].name@,
        ) ==> announces(a + b, c.dir, ds[c.detector as int].name@),
{
    let all = a + b;
    let name = ds[c.detector as int].name@;
    if reports(world, ds, opts, c, a) {
        let e = choose|e: int|
            0 <= e < a.len() && (#[trigger] a[e] matches EventView::Project(p) && describes(
                world,
                ds,
                opts,
                c,
                p,
            ));
        assert(all[e] == a[e]);
    }
    if reports(world, ds, opts, c, b) {
        let e = choose|e: int|
            0 <= e < b.len() && (#[trigger] b[e] matches EventView::Project(p) && describes(
                world,
                ds,
                opts,
                c,
                p,
            ));
        assert(all[a.len() + e] == b[e]);
    }
    if announces(a, c.dir, name) {
        let e = choose|e: int|
            0 <= e < a.len() && #[trigger] a[e] == (EventView::Found {
                root: c.dir,
                ecosystem: name,
            });
        assert(all[e] == a[e]);
    }
    if announces(b, c.dir, name) {
        let e = choose|e: int|
            0 <= e < b.len() && #[trigger] b[e] == (EventView::Found {
                root: c.dir,
                ecosystem: name,
            });
        assert(all[a.len() + e] == b[e]);
    }
}

proof fn lemma_claims(
    world: World,
    ds: Seq<Detector>,
    opts: Options,
    found: Seq<Claim>,
    counted: Progress,
)
    ensures
        ({
            let events = scan::claim_events(world, ds, opts, found, counted);
            &&& forall|e: int|
                0 <= e < events.len() ==> (#[trigger] events[e] matches EventView::Project(p)
                    ==> comes_from(world, ds, opts, found, p))
            &&& forall|c: int|
                0 <= c < found.len() ==> announces(
                    events,
                    (#[trigger] found[c]).dir,
                    ds[found[c].detector as int].name@,
                )
            &&& forall|c: int|
                0 <= c < found.len() && holds_something(world, ds, opts, #[trigger] found[c])
                    ==> reports(world, ds, opts, found[c], events)
        }),
    decreases found.len(),
{
    if found.len() > 0 {
        let rest = found.drop_first();
        let first = scan::project_events(world, ds, opts, found[0], counted);
        let later = scan::claim_events(world, ds, opts, rest, counted);
        let events = first + later;
        lemma_claims(world, ds, opts, rest, counted);
        lemma_one_claim(world, ds, opts, found[0], counted);
        assert forall|e: int| 0 <= e < events.len() implies (
        #[trigger] events[e] matches EventView::Project(p) ==> comes_from(
            world,
            ds,
            opts,
            found,
            p,
        )) by {
            if let EventView::Project(p) = events[e] {
                if e < first.len() {
                    assert(events[e] == first[e]);
                    assert(describes(world, ds, opts, found[0], p));
                } else {
                    assert(events[e] == later[e - first.len()]);
                    assert(comes_from(world, ds, opts, rest, p));
                    let c = choose|c: int|
                        0 <= c < rest.len() && describes(world, ds, opts, #[trigger] rest[c], p);
                    assert(found[c + 1] == rest[c]);
                }
            }
        }
        assert forall|c: int| 0 <= c < found.len() implies announces(
            events,
            (#[trigger] found[c]).dir,
            ds[found[c].detector as int].name@,
        ) by {
            if c > 0 {
                assert(found[c] == rest[c - 1]);
            } else {
                assert(first[0] == (EventView::Found {
                    root: found[0].dir,
                    ecosystem: ds[found[0].detector as int].name@,
                }));
            }
            lemma_more_events(world, ds, opts, found[c], first, later);
        }
        assert forall|c: int|
            0 <= c < found.len() && holds_something(
                world,
                ds,
                opts,
                #[trigger] found[c],
            ) implies reports(world, ds, opts, found[c], events) by {
            if c > 0 {
                assert(found[c] == rest[c - 1]);
            } else {
                assert(first[first.len() - 1] == first.last());
            }
            lemma_more_events(world, ds, opts, found[c], first, later);
        }
    }
}

/// Every project that a scan passes on is one that the walk below some root came across,
/// with the state of its worktree and with exactly the targets that are there, each as
/// its detector states it.
pub proof fn only_what_was_found_is_reported(
    world: World,
    ds: Seq<Detector>,
    opts: Options,
    roots: Seq<Seq<char>>,
    counted: Progress,
    e: int,
)
    requires
        0 <= e < scan::scan_events(world, ds, opts, roots, counted).len(),
    ensures
        scan::scan_events(world, ds, opts, roots, counted)[e] matches EventView::Project(p)
            ==> exists|k: int|
            0 <= k < roots.len() && comes_from(
                world,
                ds,
                opts,
                ((world.walk)(#[trigger] roots[k])).found,
                p,
            ),
    decreases roots.len(),
{
    if roots.len() > 0 {
        let walk = (world.walk)(roots[0]);
        let now = scan::both_counted(counted, walk.counted);
        let rest = roots.drop_first();
        let first = scan::claim_events(world, ds, opts, walk.found, now);
        let later = scan::scan_events(world, ds, opts, rest, now);
        let events = first + later;
        lemma_claims(world, ds, opts, walk.found, now);
        if let EventView::Project(p) = events[e] {
            if e < first.len() {
                assert(events[e] == first[e]);
                assert(comes_from(world, ds, opts, ((world.walk)(roots[0])).found, p));
            } else {
                assert(events[e] == later[e - first.len()]);
                only_what_was_found_is_reported(world, ds, opts, rest, now, e - first.len());
                let k = choose|k: int|
                    0 <= k < rest.len() && comes_from(
                        world,
                        ds,
                        opts,
                        ((world.walk)(#[trigger] rest[k])).found,
                        p,
                    );
                assert(roots[k + 1] == rest[k]);
            }
        }
    }
}

/// Every directory that a walk came across is announced, and where there is something
/// to reclaim in it that is passed on.
pub proof fn all_that_was_found_is_reported(
    world: World,
    ds: Seq<Detector>,
    opts: Options,
    roots: Seq<Seq<char>>,
    counted: Progress,
    k: int,
    c: int,
)
    requires
        0 <= k < roots.len(),
        0 <= c < ((world.walk)(roots[k])).found.len(),
    ensures
        ({
            let events = scan::scan_events(world, ds, opts, roots, counted);
            let claim = ((world.walk)(roots[k])).found[c];
            &&& announces(events, claim.dir, ds[claim.detector as int].name@)
            &&& holds_something(world, ds, opts, claim) ==> reports(world, ds, opts, claim, events)
        }),
    decreases roots.len(),
{
    let walk = (world.walk)(roots[0]);
    let now = scan::both_counted(counted, walk.counted);
    let rest = roots.drop_first();
    let first = scan::claim_events(world, ds, opts, walk.found, now);
    let later = scan::scan_events(world, ds, opts, rest, now);
    let claim = ((world.walk)(roots[k])).found[c];
    if k == 0 {
        lemma_claims(world, ds, opts, walk.found, now);
        assert(walk.found[c] == claim);
    } else {
        assert(rest[k - 1] == roots[k]);
        all_that_was_found_is_reported(world, ds, opts, rest, now, k - 1, c);
    }
    lemma_more_events(world, ds, opts, claim, first, later);
}

} // verus!
