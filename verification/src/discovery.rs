//! What a walk over a whole tree comes across.
//!
//! [`crate::markers::MarkerIndex::visit`] decides for one directory which of its
//! entries the walk goes on with. Nothing here is ever run: it says what those
//! decisions come to from the root on.
use crate::detector::Detector;
use crate::markers;
use crate::markers::Child;
use crate::paths;
use crate::paths::Part;
use crate::roots;
use crate::scan;
use crate::scan::{Claim, Options, Progress, World};
use vstd::prelude::*;

verus! {

/// A directory: its entries, and what stands behind each that is a directory.
pub struct Tree {
    pub entries: Seq<Option<Child>>,
    pub below: Seq<Tree>,
}

/// The detector that claims a directory.
pub open spec fn owner(ds: Seq<Detector>, t: Tree) -> Option<usize> {
    markers::claimant(ds, markers::names_of(t.entries, t.entries.len() as int))
}

/// Entry `i` is a directory that can be read.
pub open spec fn is_directory(t: Tree, i: int) -> bool {
    0 <= i < t.entries.len() && i < t.below.len() && (t.entries[i] matches Some(c) && c.is_dir)
}

/// The walk goes on into entry `i`.
pub open spec fn enters(ds: Seq<Detector>, t: Tree, i: int) -> bool {
    is_directory(t, i) && markers::walked_on(ds, owner(ds, t), t.entries[i])
}

/// The directory at the end of a way, which says which entry to take at each step.
pub open spec fn tree_at(t: Tree, way: Seq<int>) -> Tree
    decreases way.len(),
{
    if way.len() == 0 {
        t
    } else {
        tree_at(t.below[way[0]], way.drop_first())
    }
}

/// Every step of a way leads from a directory to one in it.
pub open spec fn leads(t: Tree, way: Seq<int>) -> bool
    decreases way.len(),
{
    way.len() == 0 || (is_directory(t, way[0]) && leads(t.below[way[0]], way.drop_first()))
}

/// The walk reaches the end of a way.
pub open spec fn reaches(ds: Seq<Detector>, t: Tree, way: Seq<int>) -> bool
    decreases way.len(),
{
    way.len() == 0 || (enters(ds, t, way[0]) && reaches(ds, t.below[way[0]], way.drop_first()))
}

/// The project that the walk finds at the end of a way: the detector that claims it.
pub open spec fn found_at(ds: Seq<Detector>, t: Tree, way: Seq<int>) -> Option<usize> {
    if reaches(ds, t, way) {
        owner(ds, tree_at(t, way))
    } else {
        None
    }
}

/// A project on its way, and the detector that claims it.
pub struct Find {
    pub way: Seq<int>,
    pub detector: usize,
}

/// The finds of a directory below, seen from the one above.
pub open spec fn through(i: int, finds: Seq<Find>) -> Seq<Find> {
    finds.map_values(|f: Find| Find { way: seq![i] + f.way, detector: f.detector })
}

/// All that a walk finds from a directory on, the directory itself first.
pub open spec fn walk(ds: Seq<Detector>, t: Tree) -> Seq<Find>
    decreases t, 0int,
{
    (match owner(ds, t) {
        Some(d) => seq![Find { way: Seq::empty(), detector: d }],
        None => Seq::empty(),
    }) + walk_below(ds, t, t.below.len() as int)
}

/// All that a walk finds behind the first `n` entries.
pub open spec fn walk_below(ds: Seq<Detector>, t: Tree, n: int) -> Seq<Find>
    decreases t.below, n,
    when 0 <= n <= t.below.len()
{
    if n <= 0 {
        Seq::empty()
    } else {
        walk_below(ds, t, n - 1) + (if enters(ds, t, n - 1) {
            through(n - 1, walk(ds, t.below[n - 1]))
        } else {
            Seq::empty()
        })
    }
}

/// Nothing keeps the walk from going on into entry `i`: it has none of the names that
/// are never walked into, and the detector that claims the directory does not name it
/// for deletion.
pub open spec fn unpruned(ds: Seq<Detector>, t: Tree, i: int) -> bool {
    t.entries[i] matches Some(c) ==> !markers::never_descended(c.name@) && (owner(
        ds,
        t,
    ) matches Some(d) ==> !markers::prunes(ds[d as int], c.name@))
}

/// No step of a way leads into what is pruned.
pub open spec fn unpruned_all_the_way(ds: Seq<Detector>, t: Tree, way: Seq<int>) -> bool {
    forall|j: int|
        0 <= j < way.len() ==> unpruned(ds, tree_at(t, #[trigger] way.take(j)), way[j])
}

proof fn lemma_first_step(ds: Seq<Detector>, t: Tree, way: Seq<int>)
    requires
        way.len() > 0,
    ensures
        unpruned_all_the_way(ds, t, way) <==> unpruned(ds, t, way[0]) && unpruned_all_the_way(
            ds,
            t.below[way[0]],
            way.drop_first(),
        ),
{
    let rest = way.drop_first();
    let next = t.below[way[0]];
    assert(way.take(0) =~= Seq::<int>::empty());
    assert forall|j: int| 0 <= j < rest.len() implies tree_at(next, #[trigger] rest.take(j))
        == tree_at(t, way.take(j + 1)) && rest[j] == way[j + 1] by {
        assert(way.take(j + 1).drop_first() =~= rest.take(j));
    }
    if unpruned_all_the_way(ds, t, way) {
        assert(unpruned(ds, tree_at(t, way.take(0)), way[0]));
        assert forall|j: int| 0 <= j < rest.len() implies unpruned(
            ds,
            tree_at(next, #[trigger] rest.take(j)),
            rest[j],
        ) by {
            assert(unpruned(ds, tree_at(t, way.take(j + 1)), way[j + 1]));
        }
    }
    if unpruned(ds, t, way[0]) && unpruned_all_the_way(ds, next, rest) {
        assert forall|j: int| 0 <= j < way.len() implies unpruned(
            ds,
            tree_at(t, #[trigger] way.take(j)),
            way[j],
        ) by {
            if j > 0 {
                assert(unpruned(ds, tree_at(next, rest.take(j - 1)), rest[j - 1]));
            }
        }
    }
}

/// The walk reaches exactly the directories on whose way nothing is pruned: all that
/// lies below a project is walked, but for what the project would have deleted.
pub proof fn what_is_not_pruned_is_reached(ds: Seq<Detector>, t: Tree, way: Seq<int>)
    ensures
        reaches(ds, t, way) <==> leads(t, way) && unpruned_all_the_way(ds, t, way),
    decreases way.len(),
{
    if way.len() > 0 {
        what_is_not_pruned_is_reached(ds, t.below[way[0]], way.drop_first());
        lemma_first_step(ds, t, way);
    }
}

proof fn lemma_both_ways(ds: Seq<Detector>, t: Tree, a: Seq<int>, b: Seq<int>)
    ensures
        tree_at(t, a + b) == tree_at(tree_at(t, a), b),
        reaches(ds, t, a + b) <==> reaches(ds, t, a) && reaches(ds, tree_at(t, a), b),
    decreases a.len(),
{
    if a.len() == 0 {
        assert(a + b =~= b);
    } else {
        lemma_both_ways(ds, t.below[a[0]], a.drop_first(), b);
        assert((a + b).drop_first() =~= a.drop_first() + b);
        assert((a + b)[0] == a[0]);
    }
}

/// A project nested in another is found, as long as nothing on the way from the one
/// to the other is pruned.
pub proof fn nested_projects_are_found(
    ds: Seq<Detector>,
    t: Tree,
    way: Seq<int>,
    more: Seq<int>,
)
    requires
        found_at(ds, t, way) is Some,
        leads(tree_at(t, way), more),
        unpruned_all_the_way(ds, tree_at(t, way), more),
    ensures
        found_at(ds, t, way + more) == owner(ds, tree_at(tree_at(t, way), more)),
{
    what_is_not_pruned_is_reached(ds, tree_at(t, way), more);
    lemma_both_ways(ds, t, way, more);
}

/// Nothing is found in a directory that is pruned, nor anywhere below it.
pub proof fn nothing_is_found_in_what_is_pruned(
    ds: Seq<Detector>,
    t: Tree,
    way: Seq<int>,
    i: int,
    more: Seq<int>,
)
    requires
        !unpruned(ds, tree_at(t, way), i),
    ensures
        !reaches(ds, t, way + (seq![i] + more)),
        found_at(ds, t, way + (seq![i] + more)) is None,
{
    let rest = seq![i] + more;
    assert(rest[0] == i);
    lemma_both_ways(ds, t, way, rest);
}

/// What a project would have deleted is never searched for projects: a directory with
/// the name of a target, or of the first directory on the way to one, is pruned.
pub proof fn targets_are_pruned(ds: Seq<Detector>, t: Tree, i: int, k: int)
    requires
        owner(ds, t) is Some,
        0 <= k < ds[owner(ds, t)->0 as int].reclaimable@.len(),
        t.entries[i] is Some,
        ({
            let p = paths::parts(ds[owner(ds, t)->0 as int].reclaimable@[k].path@);
            p.len() > 0 && markers::part_text(p[0]) == (t.entries[i]->0).name@
        }),
    ensures
        !unpruned(ds, t, i),
{
    assert(markers::prunes(ds[owner(ds, t)->0 as int], (t.entries[i]->0).name@));
}

proof fn lemma_through(i: int, finds: Seq<Find>, f: Find)
    ensures
        through(i, finds).contains(f) <==> f.way.len() > 0 && f.way[0] == i && finds.contains(
            Find { way: f.way.drop_first(), detector: f.detector },
        ),
{
    let all = through(i, finds);
    if all.contains(f) {
        let k = choose|k: int| 0 <= k < all.len() && all[k] == f;
        assert(f.way.drop_first() =~= finds[k].way);
        assert(finds[k] == (Find { way: f.way.drop_first(), detector: f.detector }));
    }
    if f.way.len() > 0 && f.way[0] == i && finds.contains(
        Find { way: f.way.drop_first(), detector: f.detector },
    ) {
        let g = Find { way: f.way.drop_first(), detector: f.detector };
        let k = choose|k: int| 0 <= k < finds.len() && finds[k] == g;
        assert(seq![i] + g.way =~= f.way);
        assert(all[k] == f);
    }
}

proof fn lemma_contains_both(a: Seq<Find>, b: Seq<Find>, f: Find)
    ensures
        (a + b).contains(f) <==> a.contains(f) || b.contains(f),
{
    if a.contains(f) {
        let k = choose|k: int| 0 <= k < a.len() && a[k] == f;
        assert((a + b)[k] == f);
    }
    if b.contains(f) {
        let k = choose|k: int| 0 <= k < b.len() && b[k] == f;
        assert((a + b)[a.len() + k] == f);
    }
    if (a + b).contains(f) {
        let k = choose|k: int| 0 <= k < (a + b).len() && (a + b)[k] == f;
        if k < a.len() {
            assert(a[k] == f);
        } else {
            assert(b[k - a.len()] == f);
        }
    }
}

proof fn lemma_walk_below(ds: Seq<Detector>, t: Tree, n: int, f: Find)
    requires
        0 <= n <= t.below.len(),
    ensures
        walk_below(ds, t, n).contains(f) <==> f.way.len() > 0 && 0 <= f.way[0] < n && enters(
            ds,
            t,
            f.way[0],
        ) && walk(ds, t.below[f.way[0]]).contains(
            Find { way: f.way.drop_first(), detector: f.detector },
        ),
    decreases n,
{
    if n > 0 {
        lemma_walk_below(ds, t, n - 1, f);
        let last = if enters(ds, t, n - 1) {
            through(n - 1, walk(ds, t.below[n - 1]))
        } else {
            Seq::empty()
        };
        lemma_contains_both(walk_below(ds, t, n - 1), last, f);
        if enters(ds, t, n - 1) {
            lemma_through(n - 1, walk(ds, t.below[n - 1]), f);
        }
    }
}

/// A walk finds exactly the projects that it reaches.
pub proof fn a_walk_finds_what_it_reaches(ds: Seq<Detector>, t: Tree, f: Find)
    ensures
        walk(ds, t).contains(f) <==> found_at(ds, t, f.way) == Some(f.detector),
    decreases f.way.len(),
{
    let own = match owner(ds, t) {
        Some(d) => seq![Find { way: Seq::empty(), detector: d }],
        None => Seq::empty(),
    };
    let n = t.below.len() as int;
    lemma_walk_below(ds, t, n, f);
    lemma_contains_both(own, walk_below(ds, t, n), f);
    if f.way.len() == 0 {
        assert(f.way =~= Seq::<int>::empty());
        if own.contains(f) {
            assert(own[0] == f);
        }
        if owner(ds, t) == Some(f.detector) {
            assert(own[0] == f);
        }
    } else {
        if own.contains(f) {
            assert(own[0] == f);
        }
        let g = Find { way: f.way.drop_first(), detector: f.detector };
        a_walk_finds_what_it_reaches(ds, t.below[f.way[0]], g);
    }
}

/// No two finds are in the same place.
pub open spec fn distinct(finds: Seq<Find>) -> bool {
    forall|a: int, b: int|
        0 <= a < b < finds.len() ==> (#[trigger] finds[a]).way != (#[trigger] finds[b]).way
}

proof fn lemma_distinct_below(ds: Seq<Detector>, t: Tree, n: int)
    requires
        0 <= n <= t.below.len(),
    ensures
        distinct(walk_below(ds, t, n)),
    decreases t.below, n,
{
    if n > 0 {
        lemma_distinct_below(ds, t, n - 1);
        let before = walk_below(ds, t, n - 1);
        let all = walk_below(ds, t, n);
        if enters(ds, t, n - 1) {
            let finds = walk(ds, t.below[n - 1]);
            a_walk_finds_no_project_twice(ds, t.below[n - 1]);
            let last = through(n - 1, finds);
            assert forall|a: int, b: int| 0 <= a < b < all.len() implies (
            #[trigger] all[a]).way != (#[trigger] all[b]).way by {
                if b < before.len() {
                    assert(all[a] == before[a] && all[b] == before[b]);
                } else {
                    let l = b - before.len();
                    assert(all[b] == last[l]);
                    assert(all[b].way == seq![n - 1] + finds[l].way);
                    assert(all[b].way[0] == n - 1);
                    if a < before.len() {
                        assert(all[a] == before[a]);
                        assert(before.contains(before[a]));
                        lemma_walk_below(ds, t, n - 1, before[a]);
                    } else {
                        let k = a - before.len();
                        assert(all[a] == last[k]);
                        assert(all[a].way == seq![n - 1] + finds[k].way);
                        if all[a].way == all[b].way {
                            assert(finds[k].way =~= all[a].way.drop_first());
                            assert(finds[l].way =~= all[b].way.drop_first());
                        }
                    }
                }
            }
        } else {
            assert(all =~= before);
        }
    }
}

/// A walk finds no project twice.
pub proof fn a_walk_finds_no_project_twice(ds: Seq<Detector>, t: Tree)
    ensures
        distinct(walk(ds, t)),
    decreases t, 0int,
{
    let n = t.below.len() as int;
    lemma_distinct_below(ds, t, n);
    let below = walk_below(ds, t, n);
    let all = walk(ds, t);
    if owner(ds, t) is Some {
        assert forall|a: int, b: int| 0 <= a < b < all.len() implies (#[trigger] all[a]).way != (
        #[trigger] all[b]).way by {
            assert(all[b] == below[b - 1]);
            if a > 0 {
                assert(all[a] == below[a - 1]);
            } else {
                assert(below.contains(below[b - 1]));
                lemma_walk_below(ds, t, n, below[b - 1]);
            }
        }
    } else {
        assert(all =~= below);
    }
}

/// The entries of a directory have plain names, and no two the same.
pub open spec fn names_differ(t: Tree) -> bool {
    &&& forall|i: int|
        0 <= i < t.entries.len() ==> (#[trigger] t.entries[i] matches Some(c)
            ==> paths::plain_name(c.name@))
    &&& forall|i: int, j: int|
        0 <= i < j < t.entries.len() ==> (#[trigger] t.entries[i] is Some
            && #[trigger] t.entries[j] is Some ==> (t.entries[i]->0).name@
            != (t.entries[j]->0).name@)
}

/// So it is in every directory of a tree.
pub open spec fn well_named(t: Tree) -> bool {
    forall|way: Seq<int>| #[trigger] leads(t, way) ==> names_differ(tree_at(t, way))
}

/// The path of the directory at the end of a way.
pub open spec fn place(root: Seq<char>, t: Tree, way: Seq<int>) -> Seq<char>
    decreases way.len(),
{
    if way.len() == 0 {
        root
    } else {
        place(
            paths::joined_path(root, (t.entries[way[0]]->0).name@),
            t.below[way[0]],
            way.drop_first(),
        )
    }
}

/// The names along a way.
spec fn names_along(t: Tree, way: Seq<int>) -> Seq<Part>
    decreases way.len(),
{
    if way.len() == 0 {
        Seq::empty()
    } else {
        seq![Part::Name((t.entries[way[0]]->0).name@)] + names_along(
            t.below[way[0]],
            way.drop_first(),
        )
    }
}

proof fn lemma_well_named(t: Tree, i: int)
    requires
        well_named(t),
        is_directory(t, i),
    ensures
        names_differ(t),
        well_named(t.below[i]),
{
    let here = Seq::<int>::empty();
    assert(leads(t, here));
    assert(tree_at(t, here) == t);
    let next = t.below[i];
    assert forall|way: Seq<int>| #[trigger] leads(next, way) implies names_differ(
        tree_at(next, way),
    ) by {
        let longer = seq![i] + way;
        assert(longer.drop_first() =~= way);
        assert(longer[0] == i);
        assert(leads(t, longer));
        assert(tree_at(t, longer) == tree_at(next, way));
    }
}

proof fn lemma_place(root: Seq<char>, t: Tree, way: Seq<int>)
    requires
        leads(t, way),
        well_named(t),
    ensures
        paths::parts(place(root, t, way)) == paths::parts(root) + names_along(t, way),
    decreases way.len(),
{
    if way.len() == 0 {
        assert(paths::parts(root) + Seq::<Part>::empty() =~= paths::parts(root));
    } else {
        let i = way[0];
        let name = (t.entries[i]->0).name@;
        lemma_well_named(t, i);
        let c = t.entries[i]->0;
        assert(t.entries[i] == Some(c));
        paths::parts_of_plain_name(name);
        paths::parts_of_joined(root, name);
        let next = paths::joined_path(root, name);
        lemma_place(next, t.below[i], way.drop_first());
        let rest = names_along(t.below[i], way.drop_first());
        let one = seq![Part::Name(name)];
        assert((paths::parts(root) + one) + rest =~= paths::parts(root) + (one + rest));
    }
}

proof fn lemma_names_tell_ways_apart(t: Tree, a: Seq<int>, b: Seq<int>)
    requires
        leads(t, a),
        leads(t, b),
        well_named(t),
        names_along(t, a) == names_along(t, b),
    ensures
        a == b,
    decreases a.len(),
{
    if a.len() == 0 {
        if b.len() > 0 {
            assert(names_along(t, b).len() > 0);
        }
        assert(a =~= b);
    } else if b.len() == 0 {
        assert(names_along(t, a).len() > 0);
    } else {
        let i = a[0];
        let j = b[0];
        let x = names_along(t.below[i], a.drop_first());
        let y = names_along(t.below[j], b.drop_first());
        lemma_well_named(t, i);
        let m = (t.entries[i]->0).name@;
        let n = (t.entries[j]->0).name@;
        assert(names_along(t, a)[0] == Part::Name(m));
        assert(names_along(t, b)[0] == Part::Name(n));
        assert(t.entries[i] is Some && t.entries[j] is Some);
        assert(m == n);
        assert(i == j);
        assert(names_along(t, a).drop_first() =~= x);
        assert(names_along(t, b).drop_first() =~= y);
        lemma_names_tell_ways_apart(t.below[i], a.drop_first(), b.drop_first());
        assert(a =~= seq![i] + a.drop_first());
        assert(b =~= seq![j] + b.drop_first());
    }
}

/// Different ways lead to different places, none of them outside of the root.
pub proof fn ways_lead_apart(root: Seq<char>, t: Tree, a: Seq<int>, b: Seq<int>)
    requires
        well_named(t),
        leads(t, a),
        leads(t, b),
    ensures
        paths::within(place(root, t, a), root),
        paths::same_place(place(root, t, a), place(root, t, b)) <==> a == b,
{
    let front = paths::parts(root);
    let x = names_along(t, a);
    let y = names_along(t, b);
    lemma_place(root, t, a);
    lemma_place(root, t, b);
    assert((front + x).take(front.len() as int) =~= front);
    if front + x == front + y {
        assert(x =~= (front + x).skip(front.len() as int));
        assert(y =~= (front + y).skip(front.len() as int));
        lemma_names_tell_ways_apart(t, a, b);
    }
}

/// What a walk reports: each project by its path.
pub open spec fn claims(ds: Seq<Detector>, root: Seq<char>, t: Tree) -> Seq<Claim> {
    walk(ds, t).map_values(|f: Find| Claim { dir: place(root, t, f.way), detector: f.detector })
}

proof fn lemma_reached_leads(ds: Seq<Detector>, t: Tree, way: Seq<int>)
    requires
        reaches(ds, t, way),
    ensures
        leads(t, way),
    decreases way.len(),
{
    if way.len() > 0 {
        lemma_reached_leads(ds, t.below[way[0]], way.drop_first());
    }
}

proof fn lemma_claims_are_distinct(ds: Seq<Detector>, root: Seq<char>, t: Tree)
    requires
        well_named(t),
    ensures
        scan::distinct_below(claims(ds, root, t), root),
{
    let finds = walk(ds, t);
    let all = claims(ds, root, t);
    a_walk_finds_no_project_twice(ds, t);
    assert forall|i: int| 0 <= i < finds.len() implies leads(t, (#[trigger] finds[i]).way) by {
        assert(finds.contains(finds[i]));
        a_walk_finds_what_it_reaches(ds, t, finds[i]);
        lemma_reached_leads(ds, t, finds[i].way);
    }
    assert forall|i: int| 0 <= i < all.len() implies paths::within(
        (#[trigger] all[i]).dir,
        root,
    ) by {
        ways_lead_apart(root, t, finds[i].way, finds[i].way);
    }
    assert forall|i: int, j: int| 0 <= i < j < all.len() implies !paths::same_place(
        (#[trigger] all[i]).dir,
        (#[trigger] all[j]).dir,
    ) by {
        ways_lead_apart(root, t, finds[i].way, finds[j].way);
    }
}

/// A walk names distinct directories at or below its root, in whatever order it comes
/// across them.
pub proof fn a_walk_names_distinct_directories(
    ds: Seq<Detector>,
    root: Seq<char>,
    t: Tree,
    found: Seq<Claim>,
)
    requires
        well_named(t),
        found.to_multiset() == claims(ds, root, t).to_multiset(),
    ensures
        scan::distinct_below(found, root),
{
    broadcast use vstd::seq_lib::group_to_multiset_ensures;

    let all = claims(ds, root, t);
    lemma_claims_are_distinct(ds, root, t);
    assert(all.no_duplicates()) by {
        assert forall|i: int, j: int| 0 <= i < all.len() && 0 <= j < all.len() && i != j implies
            all[i] != all[j] by {
            let (a, b) = if i < j {
                (i, j)
            } else {
                (j, i)
            };
            assert(!paths::same_place(all[a].dir, all[b].dir));
        }
    }
    all.lemma_multiset_has_no_duplicates();
    found.lemma_multiset_has_no_duplicates_conv();
    assert forall|i: int| 0 <= i < found.len() implies all.contains(#[trigger] found[i]) by {
        assert(found.contains(found[i]));
        assert(found.to_multiset().contains(found[i]));
    }
    assert forall|i: int| 0 <= i < found.len() implies paths::within(
        (#[trigger] found[i]).dir,
        root,
    ) by {
        let k = all.index_of(found[i]);
        assert(paths::within(all[k].dir, root));
    }
    assert forall|i: int, j: int| 0 <= i < j < found.len() implies !paths::same_place(
        (#[trigger] found[i]).dir,
        (#[trigger] found[j]).dir,
    ) by {
        let k = all.index_of(found[i]);
        let l = all.index_of(found[j]);
        assert(all[k] == found[i] && all[l] == found[j]);
        assert(found[i] != found[j]);
        if k < l {
            assert(!paths::same_place(all[k].dir, all[l].dir));
        } else {
            assert(!paths::same_place(all[l].dir, all[k].dir));
        }
    }
}

/// Every walk comes across what there is in the tree below its root, in some order,
/// and in no directory of these trees do two entries have the same name.
pub open spec fn walks_trees(
    world: World,
    ds: Seq<Detector>,
    trees: spec_fn(Seq<char>) -> Tree,
    roots: Seq<Seq<char>>,
) -> bool {
    forall|k: int|
        0 <= k < roots.len() ==> well_named(trees(#[trigger] roots[k])) && ((world.walk)(
            roots[k],
        )).found.to_multiset() == claims(ds, roots[k], trees(roots[k])).to_multiset()
}

/// No two projects of a scan share a root, however the roots that were given repeat or
/// lie inside one another.
pub proof fn no_project_is_reported_twice(
    world: World,
    ds: Seq<Detector>,
    opts: Options,
    trees: spec_fn(Seq<char>) -> Tree,
    given: Seq<Seq<char>>,
    roots: Seq<Seq<char>>,
    counted: Progress,
)
    requires
        roots::independent(given, roots),
        walks_trees(world, ds, trees, roots),
    ensures
        scan::apart(scan::projects_in(scan::scan_events(world, ds, opts, roots, counted))),
{
    assert forall|k: int| 0 <= k < roots.len() implies scan::distinct_below(
        ((world.walk)(#[trigger] roots[k])).found,
        roots[k],
    ) by {
        a_walk_names_distinct_directories(
            ds,
            roots[k],
            trees(roots[k]),
            ((world.walk)(roots[k])).found,
        );
    }
    scan::distinct_walks_report_no_project_twice(world, ds, opts, given, roots, counted);
}

} // verus!
