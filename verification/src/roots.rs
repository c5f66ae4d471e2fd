//! Which of the directories asked for are scanned.
use crate::paths;
use crate::paths::{comes_before, components, starts_with, Component};
use crate::text;
use vstd::prelude::*;
use vstd::string::*;

verus! {

/// The first text that names this place.
pub open spec fn first_naming(roots: Seq<Seq<char>>, i: int) -> bool {
    forall|j: int| 0 <= j < i ==> !paths::same_place(#[trigger] roots[j], roots[i])
}

/// The `k`th text that is kept is one of the roots, and the first that names its
/// place.
pub open spec fn from_the_roots(roots: Seq<Seq<char>>, kept: Seq<Seq<char>>, k: int) -> bool {
    exists|i: int| 0 <= i < roots.len() && #[trigger] roots[i] == kept[k] && first_naming(roots, i)
}

/// Root `i` is one of those that are kept, or lies inside one.
pub open spec fn covered(roots: Seq<Seq<char>>, kept: Seq<Seq<char>>, i: int) -> bool {
    exists|k: int| 0 <= k < kept.len() && paths::within(roots[i], #[trigger] kept[k])
}

/// `kept` are the roots that do not lie inside another, each once and in the text
/// that came first, in the order of paths.
pub open spec fn independent(roots: Seq<Seq<char>>, kept: Seq<Seq<char>>) -> bool {
    &&& forall|k: int| 0 <= k < kept.len() ==> #[trigger] from_the_roots(roots, kept, k)
    &&& forall|i: int| 0 <= i < roots.len() ==> #[trigger] covered(roots, kept, i)
    &&& forall|k: int, l: int|
        0 <= k < kept.len() && 0 <= l < kept.len() && k != l ==> !paths::within(
            #[trigger] kept[k],
            #[trigger] kept[l],
        )
    &&& forall|k: int, l: int|
        0 <= k < l < kept.len() ==> paths::parts_before(
            paths::parts(#[trigger] kept[k]),
            paths::parts(#[trigger] kept[l]),
        )
}

/// Root `i` lies inside another, or names a place that was named before.
spec fn redundant(roots: Seq<Seq<char>>, i: int) -> bool {
    exists|j: int|
        0 <= j < roots.len() && paths::within(roots[i], #[trigger] roots[j]) && (
        !paths::same_place(roots[i], roots[j]) || j < i)
}

proof fn lemma_within_is_transitive(a: Seq<char>, b: Seq<char>, c: Seq<char>)
    requires
        paths::within(a, b),
        paths::within(b, c),
    ensures
        paths::within(a, c),
{
    let x = paths::parts(a);
    let y = paths::parts(b);
    let z = paths::parts(c);
    assert(x.take(z.len() as int) =~= y.take(z.len() as int));
}

proof fn lemma_within_both_ways(a: Seq<char>, b: Seq<char>)
    requires
        paths::within(a, b),
        paths::within(b, a),
    ensures
        paths::same_place(a, b),
{
    let x = paths::parts(a);
    assert(x.take(x.len() as int) =~= x);
}

proof fn lemma_within_itself(a: Seq<char>, b: Seq<char>)
    requires
        paths::same_place(a, b),
    ensures
        paths::within(a, b),
{
    let x = paths::parts(a);
    assert(x.take(x.len() as int) =~= x);
}

proof fn lemma_covered(roots: Seq<Seq<char>>, i: int) -> (k: int)
    requires
        0 <= i < roots.len(),
    ensures
        0 <= k < roots.len(),
        !redundant(roots, k),
        paths::within(roots[i], roots[k]),
    decreases paths::parts(roots[i]).len(), i,
{
    if !redundant(roots, i) {
        lemma_within_itself(roots[i], roots[i]);
        i
    } else {
        let j = choose|j: int|
            0 <= j < roots.len() && paths::within(roots[i], #[trigger] roots[j]) && (
            !paths::same_place(roots[i], roots[j]) || j < i);
        let x = paths::parts(roots[i]);
        let y = paths::parts(roots[j]);
        if x.len() == y.len() {
            assert(x.take(y.len() as int) =~= x);
        }
        let k = lemma_covered(roots, j);
        lemma_within_is_transitive(roots[i], roots[j], roots[k]);
        k
    }
}

fn is_redundant(parts: &Vec<Vec<Component>>, i: usize, Ghost(roots): Ghost<Seq<Seq<char>>>) -> (r:
    bool)
    requires
        i < parts@.len(),
        parts@.len() == roots.len(),
        forall|k: int|
            0 <= k < roots.len() ==> paths::views((#[trigger] parts@[k])@) == paths::parts(
                roots[k],
            ),
    ensures
        r == redundant(roots, i as int),
{
    let mut j: usize = 0;
    while j < parts.len()
        invariant
            i < parts@.len(),
            j <= parts@.len(),
            parts@.len() == roots.len(),
            forall|k: int|
                0 <= k < roots.len() ==> paths::views((#[trigger] parts@[k])@) == paths::parts(
                    roots[k],
                ),
            forall|k: int|
                0 <= k < j ==> !(paths::within(roots[i as int], #[trigger] roots[k]) && (
                !paths::same_place(roots[i as int], roots[k]) || k < i)),
        decreases parts@.len() - j,
    {
        let ghost x = paths::parts(roots[i as int]);
        let ghost y = paths::parts(roots[j as int]);
        assert(x.len() == parts@[i as int]@.len());
        assert(y.len() == parts@[j as int]@.len());
        if starts_with(&parts[i], &parts[j]) && (parts[i].len() != parts[j].len() || j < i) {
            assert(paths::within(roots[i as int], roots[j as int]));
            return true;
        }
        proof {
            if x.len() == y.len() {
                assert(x.take(y.len() as int) =~= x);
            }
        }
        j = j + 1;
    }
    false
}

spec fn chosen(roots: Seq<Seq<char>>, order: Seq<usize>, n: int) -> bool {
    &&& forall|k: int|
        0 <= k < order.len() ==> (#[trigger] order[k]) < n && !redundant(roots, order[k] as int)
    &&& forall|i: int|
        0 <= i < n && !redundant(roots, i) ==> exists|k: int|
            0 <= k < order.len() && #[trigger] order[k] == i
    &&& forall|k: int, l: int|
        0 <= k < l < order.len() ==> paths::parts_before(
            paths::parts(roots[#[trigger] order[k] as int]),
            paths::parts(roots[#[trigger] order[l] as int]),
        )
}

proof fn lemma_chosen_is_independent(roots: Seq<Seq<char>>, order: Seq<usize>, kept: Seq<Seq<char>>)
    requires
        chosen(roots, order, roots.len() as int),
        kept.len() == order.len(),
        forall|k: int| 0 <= k < kept.len() ==> #[trigger] kept[k] == roots[order[k] as int],
    ensures
        independent(roots, kept),
{
    assert forall|k: int| 0 <= k < kept.len() implies #[trigger] from_the_roots(
        roots,
        kept,
        k,
    ) by {
        let i = order[k] as int;
        assert(roots[i] == kept[k]);
        assert forall|j: int| 0 <= j < i implies !paths::same_place(#[trigger] roots[j], roots[i]) by {
            if paths::same_place(roots[j], roots[i]) {
                lemma_within_itself(roots[i], roots[j]);
                assert(redundant(roots, i));
            }
        }
    }
    assert forall|i: int| 0 <= i < roots.len() implies #[trigger] covered(roots, kept, i) by {
        let m = lemma_covered(roots, i);
        let k = choose|k: int| 0 <= k < order.len() && #[trigger] order[k] == m;
        assert(paths::within(roots[i], kept[k]));
    }
    assert forall|k: int, l: int|
        0 <= k < l < kept.len() implies paths::parts_before(
        paths::parts(#[trigger] kept[k]),
        paths::parts(#[trigger] kept[l]),
    ) by {
        let a = order[k];
        let b = order[l];
    }
    assert forall|k: int, l: int|
        0 <= k < kept.len() && 0 <= l < kept.len() && k != l implies !paths::within(
        #[trigger] kept[k],
        #[trigger] kept[l],
    ) by {
        let a = order[k] as int;
        let b = order[l] as int;
        if paths::within(kept[k], kept[l]) {
            if paths::same_place(roots[a], roots[b]) {
                paths::paths_are_ordered(
                    paths::parts(roots[a]),
                    paths::parts(roots[b]),
                    paths::parts(roots[a]),
                );
                if k < l {
                    assert(paths::parts_before(paths::parts(kept[k]), paths::parts(kept[l])));
                } else {
                    assert(paths::parts_before(paths::parts(kept[l]), paths::parts(kept[k])));
                }
            } else {
                assert(redundant(roots, a));
            }
        }
    }
}

/// Drops roots that lie inside another root, so that overlapping arguments cannot
/// report the same project twice. The roots are taken as they are written: to see
/// through links they have to be resolved first.
pub fn independent_roots(roots: &Vec<String>) -> (r: Vec<String>)
    ensures
        independent(text::texts(roots@), text::texts(r@)),
{
    let ghost all = text::texts(roots@);
    let mut parts: Vec<Vec<Component>> = Vec::new();
    let mut i: usize = 0;
    while i < roots.len()
        invariant
            all == text::texts(roots@),
            i <= roots@.len(),
            parts@.len() == i,
            forall|k: int|
                0 <= k < i ==> paths::views((#[trigger] parts@[k])@) == paths::parts(all[k]),
        decreases roots@.len() - i,
    {
        assert(all[i as int] == roots@[i as int]@);
        parts.push(components(roots[i].as_str()));
        i = i + 1;
    }
    let mut order: Vec<usize> = Vec::new();
    let mut i: usize = 0;
    while i < roots.len()
        invariant
            all == text::texts(roots@),
            i <= roots@.len(),
            parts@.len() == roots@.len(),
            forall|k: int|
                0 <= k < all.len() ==> paths::views((#[trigger] parts@[k])@) == paths::parts(
                    all[k],
                ),
            chosen(all, order@, i as int),
        decreases roots@.len() - i,
    {
        let ghost before = order@;
        if !is_redundant(&parts, i, Ghost(all)) {
            let mut at: usize = 0;
            while at < order.len() && comes_before(&parts[order[at]], &parts[i])
                invariant
                    all == text::texts(roots@),
                    i < roots@.len(),
                    parts@.len() == roots@.len(),
                    forall|k: int|
                        0 <= k < all.len() ==> paths::views((#[trigger] parts@[k])@)
                            == paths::parts(all[k]),
                    order@ == before,
                    chosen(all, before, i as int),
                    at <= before.len(),
                    forall|k: int|
                        0 <= k < at ==> paths::parts_before(
                            paths::parts(all[#[trigger] before[k] as int]),
                            paths::parts(all[i as int]),
                        ),
                decreases before.len() - at,
            {
                at = at + 1;
            }
            order.insert(at, i);
            proof {
                let me = paths::parts(all[i as int]);
                assert forall|k: int| at <= k < before.len() implies paths::parts_before(
                    me,
                    paths::parts(all[#[trigger] before[k] as int]),
                ) by {
                    let first = paths::parts(all[before[at as int] as int]);
                    let other = paths::parts(all[before[k] as int]);
                    paths::paths_are_ordered(me, first, other);
                    if me == first {
                        lemma_within_itself(all[i as int], all[before[at as int] as int]);
                        assert(redundant(all, i as int));
                    }
                }
                let after = order@;
                assert(after == before.insert(at as int, i));
                assert forall|k: int, l: int|
                    0 <= k < l < after.len() implies paths::parts_before(
                    paths::parts(all[#[trigger] after[k] as int]),
                    paths::parts(all[#[trigger] after[l] as int]),
                ) by {
                    if k < at && l > at {
                        assert(after[k] == before[k] && after[l] == before[l - 1]);
                    } else if l < at {
                        assert(after[k] == before[k] && after[l] == before[l]);
                    } else if k > at {
                        assert(after[k] == before[k - 1] && after[l] == before[l - 1]);
                    } else if l == at {
                        assert(after[k] == before[k]);
                    } else {
                        assert(after[l] == before[l - 1]);
                    }
                }
                assert forall|k: int| 0 <= k < after.len() implies (#[trigger] after[k]) < i + 1
                    && !redundant(all, after[k] as int) by {
                    if k < at {
                        assert(after[k] == before[k]);
                    } else if k > at {
                        assert(after[k] == before[k - 1]);
                    }
                }
                assert forall|j: int| 0 <= j < i + 1 && !redundant(all, j) implies exists|k: int|
                    0 <= k < after.len() && #[trigger] after[k] == j by {
                    if j == i {
                        assert(after[at as int] == j);
                    } else {
                        let k = choose|k: int| 0 <= k < before.len() && #[trigger] before[k] == j;
                        if k < at {
                            assert(after[k] == j);
                        } else {
                            assert(after[k + 1] == j);
                        }
                    }
                }
            }
        }
        i = i + 1;
    }
    let mut r: Vec<String> = Vec::new();
    let mut k: usize = 0;
    while k < order.len()
        invariant
            all == text::texts(roots@),
            chosen(all, order@, all.len() as int),
            k <= order@.len(),
            r@.len() == k,
            forall|j: int| 0 <= j < k ==> (#[trigger] r@[j])@ == all[order@[j] as int],
        decreases order@.len() - k,
    {
        assert(order@[k as int] < all.len());
        assert(all[order@[k as int] as int] == roots@[order@[k as int] as int]@);
        r.push(roots[order[k]].clone());
        k = k + 1;
    }
    proof {
        let kept = text::texts(r@);
        assert forall|j: int| 0 <= j < kept.len() implies #[trigger] kept[j] == all[order@[j] as int] by {
            assert(kept[j] == r@[j]@);
        }
        lemma_chosen_is_independent(all, order@, kept);
    }
    r
}

proof fn lemma_kept_by_both(
    roots: Seq<Seq<char>>,
    a: Seq<Seq<char>>,
    b: Seq<Seq<char>>,
    k: int,
) -> (l: int)
    requires
        independent(roots, a),
        independent(roots, b),
        0 <= k < a.len(),
    ensures
        0 <= l < b.len(),
        a[k] == b[l],
{
    assert(from_the_roots(roots, a, k));
    let i = choose|i: int|
        0 <= i < roots.len() && #[trigger] roots[i] == a[k] && first_naming(roots, i);
    assert(covered(roots, b, i));
    let l = choose|l: int| 0 <= l < b.len() && paths::within(roots[i], #[trigger] b[l]);
    assert(from_the_roots(roots, b, l));
    let j = choose|j: int|
        0 <= j < roots.len() && #[trigger] roots[j] == b[l] && first_naming(roots, j);
    assert(covered(roots, a, j));
    let m = choose|m: int| 0 <= m < a.len() && paths::within(roots[j], #[trigger] a[m]);
    lemma_within_is_transitive(a[k], b[l], a[m]);
    assert(k == m);
    lemma_within_both_ways(a[k], b[l]);
    if i < j {
        assert(!paths::same_place(roots[i], roots[j]));
    }
    if j < i {
        assert(!paths::same_place(roots[j], roots[i]));
    }
    l
}

proof fn lemma_same_from(roots: Seq<Seq<char>>, a: Seq<Seq<char>>, b: Seq<Seq<char>>, n: int)
    requires
        independent(roots, a),
        independent(roots, b),
        0 <= n <= a.len(),
    ensures
        n <= b.len(),
        a.take(n) == b.take(n),
    decreases n,
{
    if n > 0 {
        lemma_same_from(roots, a, b, n - 1);
        let k = n - 1;
        let l = lemma_kept_by_both(roots, a, b, k);
        if l < k {
            assert(a.take(k)[l] == b.take(k)[l]);
            assert(paths::parts_before(paths::parts(a[l]), paths::parts(a[k])));
            paths::paths_are_ordered(
                paths::parts(a[l]),
                paths::parts(a[l]),
                paths::parts(a[l]),
            );
        } else if l > k {
            let m = lemma_kept_by_both(roots, b, a, k);
            if m < k {
                assert(a.take(k)[m] == b.take(k)[m]);
                assert(paths::parts_before(paths::parts(b[m]), paths::parts(b[k])));
                paths::paths_are_ordered(
                    paths::parts(b[m]),
                    paths::parts(b[m]),
                    paths::parts(b[m]),
                );
            } else {
                assert(paths::parts_before(paths::parts(b[k]), paths::parts(b[l])));
                if m > k {
                    assert(paths::parts_before(paths::parts(a[k]), paths::parts(a[m])));
                }
                paths::paths_are_ordered(
                    paths::parts(a[k]),
                    paths::parts(b[k]),
                    paths::parts(a[k]),
                );
            }
        }
        assert(a[k] == b[k]);
        assert(a.take(n) =~= a.take(k).push(a[k]));
        assert(b.take(n) =~= b.take(k).push(b[k]));
    }
}

/// There is only one such choice of roots.
pub proof fn independent_roots_are_unique(
    roots: Seq<Seq<char>>,
    a: Seq<Seq<char>>,
    b: Seq<Seq<char>>,
)
    requires
        independent(roots, a),
        independent(roots, b),
    ensures
        a == b,
{
    lemma_same_from(roots, a, b, a.len() as int);
    lemma_same_from(roots, b, a, b.len() as int);
    assert(a.take(a.len() as int) =~= a);
    assert(b.take(b.len() as int) =~= b);
}

/// A place lies below another or is the same: its parts begin with those of the other.
pub open spec fn at_or_below(a: Seq<char>, b: Seq<char>) -> bool {
    &&& paths::parts(b).len() <= paths::parts(a).len()
    &&& forall|i: int|
        0 <= i < paths::parts(b).len() ==> paths::parts(a)[i] == #[trigger] paths::parts(b)[i]
}

proof fn lemma_at_or_below(a: Seq<char>, b: Seq<char>)
    ensures
        paths::within(a, b) <==> at_or_below(a, b),
{
    let p = paths::parts(a);
    let q = paths::parts(b);
    if at_or_below(a, b) {
        assert(p.take(q.len() as int) =~= q);
    }
    if paths::within(a, b) {
        assert forall|i: int| 0 <= i < q.len() implies p[i] == #[trigger] q[i] by {
            assert(p.take(q.len() as int)[i] == p[i]);
        }
    }
}

/// A root lies below one of those that are kept, or is one.
pub open spec fn is_covered(root: Seq<char>, kept: Seq<Seq<char>>) -> bool {
    exists|k: int| 0 <= k < kept.len() && at_or_below(root, #[trigger] kept[k])
}

/// Roots that are kept cover every root that was named, none of them lies in another, and
/// none was made up.
pub proof fn kept_roots_cover_all(roots: Seq<Seq<char>>, kept: Seq<Seq<char>>)
    requires
        independent(roots, kept),
    ensures
        forall|k: int| 0 <= k < kept.len() ==> roots.contains(#[trigger] kept[k]),
        forall|i: int| 0 <= i < roots.len() ==> is_covered(#[trigger] roots[i], kept),
        forall|k: int, l: int|
            0 <= k < kept.len() && 0 <= l < kept.len() && k != l ==> !at_or_below(
                #[trigger] kept[k],
                #[trigger] kept[l],
            ),
{
    assert forall|k: int| 0 <= k < kept.len() implies roots.contains(#[trigger] kept[k]) by {
        assert(from_the_roots(roots, kept, k));
    }
    assert forall|i: int| 0 <= i < roots.len() implies is_covered(#[trigger] roots[i], kept) by {
        assert(covered(roots, kept, i));
        let k = choose|k: int| 0 <= k < kept.len() && paths::within(roots[i], #[trigger] kept[k]);
        lemma_at_or_below(roots[i], kept[k]);
    }
    assert forall|k: int, l: int|
        0 <= k < kept.len() && 0 <= l < kept.len() && k != l implies !at_or_below(
        #[trigger] kept[k],
        #[trigger] kept[l],
    ) by {
        lemma_at_or_below(kept[k], kept[l]);
    }
}

} // verus!
