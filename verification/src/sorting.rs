//! Sorting as a matter of putting one item after the other in its place.
//!
//! Ranking lists indices. For what ranking does to the items themselves, it is
//! enough to know that it sorts them: nothing here is ever run.
use crate::ranking;
use vstd::prelude::*;

verus! {

/// The items with one more put in its place: behind every item whose key is not
/// smaller.
pub open spec fn placed<T>(s: Seq<T>, key: spec_fn(T) -> u128, x: T) -> Seq<T>
    decreases s.len(),
{
    if s.len() > 0 && key(s.last()) < key(x) {
        placed(s.drop_last(), key, x).push(s.last())
    } else {
        s.push(x)
    }
}

/// The items, largest key first, equal ones in the order that they came.
pub open spec fn sorted<T>(s: Seq<T>, key: spec_fn(T) -> u128) -> Seq<T>
    decreases s.len(),
{
    if s.len() == 0 {
        Seq::empty()
    } else {
        placed(sorted(s.drop_last(), key), key, s.last())
    }
}

/// A test holds for all items.
pub open spec fn all<T>(s: Seq<T>, test: spec_fn(T) -> bool) -> bool {
    forall|i: int| 0 <= i < s.len() ==> test(#[trigger] s[i])
}

/// The items for which a test holds.
pub open spec fn kept<T>(s: Seq<T>, test: spec_fn(T) -> bool) -> Seq<T>
    decreases s.len(),
{
    if s.len() == 0 {
        Seq::empty()
    } else if test(s.last()) {
        kept(s.drop_last(), test).push(s.last())
    } else {
        kept(s.drop_last(), test)
    }
}

/// No key is smaller than one that comes after it.
pub open spec fn descends<T>(s: Seq<T>, key: spec_fn(T) -> u128) -> bool {
    forall|i: int, j: int| 0 <= i < j < s.len() ==> key(#[trigger] s[i]) >= key(#[trigger] s[j])
}

proof fn lemma_all_shorter<T>(s: Seq<T>, test: spec_fn(T) -> bool)
    requires
        s.len() > 0,
        all(s, test),
    ensures
        all(s.drop_last(), test),
        test(s.last()),
{
    let shorter = s.drop_last();
    assert forall|i: int| 0 <= i < shorter.len() implies test(#[trigger] shorter[i]) by {
        assert(shorter[i] == s[i]);
    }
    assert(s.last() == s[s.len() - 1]);
}

proof fn lemma_all_longer<T>(s: Seq<T>, test: spec_fn(T) -> bool, x: T)
    requires
        all(s, test),
        test(x),
    ensures
        all(s.push(x), test),
{
    let longer = s.push(x);
    assert forall|i: int| 0 <= i < longer.len() implies test(#[trigger] longer[i]) by {
        if i < s.len() {
            assert(longer[i] == s[i]);
        }
    }
}

/// Putting an item in its place keeps what holds for all.
pub proof fn lemma_placed_keeps_all<T>(
    s: Seq<T>,
    key: spec_fn(T) -> u128,
    x: T,
    test: spec_fn(T) -> bool,
)
    requires
        all(s, test),
        test(x),
    ensures
        all(placed(s, key, x), test),
        placed(s, key, x).len() == s.len() + 1,
    decreases s.len(),
{
    if s.len() > 0 && key(s.last()) < key(x) {
        lemma_all_shorter(s, test);
        lemma_placed_keeps_all(s.drop_last(), key, x, test);
        lemma_all_longer(placed(s.drop_last(), key, x), test, s.last());
    } else {
        lemma_all_longer(s, test, x);
    }
}

/// Sorting keeps what holds for all.
pub proof fn lemma_sorted_keeps_all<T>(
    s: Seq<T>,
    key: spec_fn(T) -> u128,
    test: spec_fn(T) -> bool,
)
    requires
        all(s, test),
    ensures
        all(sorted(s, key), test),
        sorted(s, key).len() == s.len(),
    decreases s.len(),
{
    if s.len() > 0 {
        lemma_all_shorter(s, test);
        lemma_sorted_keeps_all(s.drop_last(), key, test);
        lemma_placed_keeps_all(sorted(s.drop_last(), key), key, s.last(), test);
    }
}

proof fn lemma_placed_mapped<T, U>(
    s: Seq<T>,
    x: T,
    f: spec_fn(T) -> U,
    k: spec_fn(T) -> u128,
    l: spec_fn(U) -> u128,
    test: spec_fn(T) -> bool,
)
    requires
        all(s, test),
        test(x),
        forall|a: T, b: T|
            test(a) && test(b) ==> (#[trigger] k(a) < #[trigger] k(b)) == (l(f(a)) < l(f(b))),
    ensures
        placed(s.map_values(f), l, f(x)) == placed(s, k, x).map_values(f),
    decreases s.len(),
{
    let t = s.map_values(f);
    if s.len() > 0 {
        lemma_all_shorter(s, test);
        assert(t.drop_last() =~= s.drop_last().map_values(f));
        assert(t.last() == f(s.last()));
        assert((k(s.last()) < k(x)) == (l(f(s.last())) < l(f(x))));
        lemma_placed_mapped(s.drop_last(), x, f, k, l, test);
    }
    if s.len() > 0 && k(s.last()) < k(x) {
        let p = placed(s.drop_last(), k, x);
        assert(p.push(s.last()).map_values(f) =~= p.map_values(f).push(f(s.last())));
    } else {
        assert(s.push(x).map_values(f) =~= t.push(f(x)));
    }
}

/// Sorting does not care what the items are, only in what order their keys stand.
pub proof fn lemma_sorted_mapped<T, U>(
    s: Seq<T>,
    f: spec_fn(T) -> U,
    k: spec_fn(T) -> u128,
    l: spec_fn(U) -> u128,
    test: spec_fn(T) -> bool,
)
    requires
        all(s, test),
        forall|a: T, b: T|
            test(a) && test(b) ==> (#[trigger] k(a) < #[trigger] k(b)) == (l(f(a)) < l(f(b))),
    ensures
        sorted(s.map_values(f), l) == sorted(s, k).map_values(f),
    decreases s.len(),
{
    let t = s.map_values(f);
    if s.len() > 0 {
        lemma_all_shorter(s, test);
        assert(t.drop_last() =~= s.drop_last().map_values(f));
        assert(t.last() == f(s.last()));
        lemma_sorted_mapped(s.drop_last(), f, k, l, test);
        lemma_sorted_keeps_all(s.drop_last(), k, test);
        lemma_placed_mapped(sorted(s.drop_last(), k), s.last(), f, k, l, test);
    } else {
        assert(t =~= Seq::<U>::empty());
        assert(sorted(s, k).map_values(f) =~= Seq::<U>::empty());
    }
}

proof fn lemma_placed_descends<T>(s: Seq<T>, key: spec_fn(T) -> u128, x: T)
    requires
        descends(s, key),
    ensures
        descends(placed(s, key, x), key),
    decreases s.len(),
{
    if s.len() > 0 && key(s.last()) < key(x) {
        let shorter = s.drop_last();
        assert(descends(shorter, key)) by {
            assert forall|i: int, j: int| 0 <= i < j < shorter.len() implies key(
                #[trigger] shorter[i],
            ) >= key(#[trigger] shorter[j]) by {
                assert(shorter[i] == s[i] && shorter[j] == s[j]);
            }
        }
        lemma_placed_descends(shorter, key, x);
        let least = |a: T| key(a) >= key(s.last());
        assert(all(shorter, least)) by {
            assert forall|i: int| 0 <= i < shorter.len() implies least(#[trigger] shorter[i]) by {
                assert(shorter[i] == s[i] && s.last() == s[s.len() - 1]);
            }
        }
        lemma_placed_keeps_all(shorter, key, x, least);
        let p = placed(shorter, key, x);
        let q = p.push(s.last());
        assert forall|i: int, j: int| 0 <= i < j < q.len() implies key(#[trigger] q[i]) >= key(
            #[trigger] q[j],
        ) by {
            assert(q[i] == p[i]);
            assert(least(p[i]));
            if j < p.len() {
                assert(q[j] == p[j]);
            }
        }
    } else {
        let q = s.push(x);
        assert forall|i: int, j: int| 0 <= i < j < q.len() implies key(#[trigger] q[i]) >= key(
            #[trigger] q[j],
        ) by {
            assert(q[i] == s[i]);
            if j < s.len() {
                assert(q[j] == s[j]);
            } else {
                assert(s.last() == s[s.len() - 1]);
                if i < s.len() - 1 {
                    assert(key(s[i]) >= key(s[s.len() - 1]));
                }
            }
        }
    }
}

/// What is sorted descends.
pub proof fn lemma_sorted_descends<T>(s: Seq<T>, key: spec_fn(T) -> u128)
    ensures
        descends(sorted(s, key), key),
    decreases s.len(),
{
    if s.len() > 0 {
        lemma_sorted_descends(s.drop_last(), key);
        lemma_placed_descends(sorted(s.drop_last(), key), key, s.last());
    }
}

/// What descends is sorted already.
pub proof fn lemma_sorted_again<T>(s: Seq<T>, key: spec_fn(T) -> u128)
    requires
        descends(s, key),
    ensures
        sorted(s, key) == s,
    decreases s.len(),
{
    if s.len() > 0 {
        let shorter = s.drop_last();
        assert forall|i: int, j: int| 0 <= i < j < shorter.len() implies key(
            #[trigger] shorter[i],
        ) >= key(#[trigger] shorter[j]) by {
            assert(shorter[i] == s[i] && shorter[j] == s[j]);
        }
        lemma_sorted_again(shorter, key);
        if shorter.len() > 0 {
            assert(shorter.last() == s[s.len() - 2] && s.last() == s[s.len() - 1]);
        }
        assert(shorter.push(s.last()) =~= s);
    } else {
        assert(s =~= Seq::<T>::empty());
    }
}

/// Sorting what comes first beforehand changes nothing.
pub proof fn lemma_sorted_in_two_steps<T>(a: Seq<T>, b: Seq<T>, key: spec_fn(T) -> u128)
    ensures
        sorted(sorted(a, key) + b, key) == sorted(a + b, key),
    decreases b.len(),
{
    if b.len() == 0 {
        assert(a + b =~= a);
        assert(sorted(a, key) + b =~= sorted(a, key));
        lemma_sorted_descends(a, key);
        lemma_sorted_again(sorted(a, key), key);
    } else {
        lemma_sorted_in_two_steps(a, b.drop_last(), key);
        assert((a + b).drop_last() =~= a + b.drop_last());
        assert((sorted(a, key) + b).drop_last() =~= sorted(a, key) + b.drop_last());
        assert((a + b).last() == b.last());
        assert((sorted(a, key) + b).last() == b.last());
    }
}

/// What holds for all still holds for those that are kept, and so does the test.
pub proof fn lemma_kept_keeps_all<T>(
    s: Seq<T>,
    test: spec_fn(T) -> bool,
    other: spec_fn(T) -> bool,
)
    requires
        all(s, other),
    ensures
        all(kept(s, test), other),
        all(kept(s, test), test),
        kept(s, test).len() <= s.len(),
    decreases s.len(),
{
    if s.len() > 0 {
        lemma_all_shorter(s, other);
        lemma_kept_keeps_all(s.drop_last(), test, other);
        if test(s.last()) {
            lemma_all_longer(kept(s.drop_last(), test), other, s.last());
            lemma_all_longer(kept(s.drop_last(), test), test, s.last());
        }
    }
}

proof fn lemma_kept_placed<T>(
    s: Seq<T>,
    key: spec_fn(T) -> u128,
    x: T,
    test: spec_fn(T) -> bool,
)
    requires
        descends(s, key),
    ensures
        kept(placed(s, key, x), test) == if test(x) {
            placed(kept(s, test), key, x)
        } else {
            kept(s, test)
        },
    decreases s.len(),
{
    if s.len() > 0 && key(s.last()) < key(x) {
        let shorter = s.drop_last();
        assert forall|i: int, j: int| 0 <= i < j < shorter.len() implies key(
            #[trigger] shorter[i],
        ) >= key(#[trigger] shorter[j]) by {
            assert(shorter[i] == s[i] && shorter[j] == s[j]);
        }
        lemma_kept_placed(shorter, key, x, test);
        let p = placed(shorter, key, x);
        assert(p.push(s.last()).drop_last() =~= p);
        let k = kept(shorter, test);
        assert(k.push(s.last()).drop_last() =~= k);
    } else {
        assert(s.push(x).drop_last() =~= s);
        let least = |a: T| key(a) >= key(x);
        assert(all(s, least)) by {
            assert forall|i: int| 0 <= i < s.len() implies least(#[trigger] s[i]) by {
                assert(s.last() == s[s.len() - 1]);
                if i < s.len() - 1 {
                    assert(key(s[i]) >= key(s[s.len() - 1]));
                }
            }
        }
        lemma_kept_keeps_all(s, test, least);
        let k = kept(s, test);
        if k.len() > 0 {
            assert(least(k[k.len() - 1]));
        }
    }
}

/// Leaving items out and sorting go in either order.
pub proof fn lemma_kept_sorted<T>(s: Seq<T>, key: spec_fn(T) -> u128, test: spec_fn(T) -> bool)
    ensures
        kept(sorted(s, key), test) == sorted(kept(s, test), key),
    decreases s.len(),
{
    if s.len() > 0 {
        let shorter = s.drop_last();
        lemma_kept_sorted(shorter, key, test);
        lemma_sorted_descends(shorter, key);
        lemma_kept_placed(sorted(shorter, key), key, s.last(), test);
        let k = kept(shorter, test);
        assert(k.push(s.last()).drop_last() =~= k);
    }
}

/// Where an item is put: behind the last one whose key is not smaller.
pub proof fn lemma_placed_at<T>(s: Seq<T>, key: spec_fn(T) -> u128, x: T, at: int)
    requires
        0 <= at <= s.len(),
        forall|k: int| at <= k < s.len() ==> key(#[trigger] s[k]) < key(x),
        at > 0 ==> key(s[at - 1]) >= key(x),
    ensures
        placed(s, key, x) == s.insert(at, x),
    decreases s.len(),
{
    if at < s.len() {
        let shorter = s.drop_last();
        assert(s.last() == s[s.len() - 1]);
        assert forall|k: int| at <= k < shorter.len() implies key(#[trigger] shorter[k]) < key(
            x,
        ) by {
            assert(shorter[k] == s[k]);
        }
        if at > 0 {
            assert(shorter[at - 1] == s[at - 1]);
        }
        lemma_placed_at(shorter, key, x, at);
        assert(shorter.insert(at, x).push(s.last()) =~= s.insert(at, x));
    } else {
        assert(s.push(x) =~= s.insert(at, x));
    }
}

proof fn lemma_place_of<T>(s: Seq<T>, key: spec_fn(T) -> u128, x: T) -> (at: int)
    ensures
        0 <= at <= s.len(),
        placed(s, key, x) == s.insert(at, x),
        forall|k: int| at <= k < s.len() ==> key(#[trigger] s[k]) < key(x),
        at > 0 ==> key(s[at - 1]) >= key(x),
    decreases s.len(),
{
    if s.len() > 0 && key(s.last()) < key(x) {
        let shorter = s.drop_last();
        let at = lemma_place_of(shorter, key, x);
        assert(shorter.insert(at, x).push(s.last()) =~= s.insert(at, x));
        assert forall|k: int| at <= k < s.len() implies key(#[trigger] s[k]) < key(x) by {
            if k < s.len() - 1 {
                assert(s[k] == shorter[k]);
            }
        }
        if at > 0 {
            assert(s[at - 1] == shorter[at - 1]);
        }
        at
    } else {
        assert(s.push(x) =~= s.insert(s.len() as int, x));
        s.len() as int
    }
}

/// The first `n` indices.
spec fn indices(n: nat) -> Seq<usize> {
    Seq::new(n, |i: int| i as usize)
}

proof fn lemma_indices_ranked(keys: Seq<u128>, key: spec_fn(usize) -> u128, n: nat)
    requires
        n <= keys.len() <= usize::MAX,
        key == |i: usize| keys[i as int],
    ensures
        ranking::is_ranking(keys.take(n as int), sorted(indices(n), key)),
    decreases n,
{
    if n == 0 {
    } else {
        let m = (n - 1) as nat;
        lemma_indices_ranked(keys, key, m);
        let some = keys.take(n as int);
        assert(some.drop_last() =~= keys.take(m as int));
        assert(indices(n).drop_last() =~= indices(m));
        assert(indices(n).last() == m as usize);
        let before = sorted(indices(m), key);
        let at = lemma_place_of(before, key, m as usize);
        assert forall|k: int| at <= k < before.len() implies some[#[trigger] before[k] as int]
            < some.last() by {
            assert(before[k] < m);
            assert(key(before[k]) < key(m as usize));
        }
        if at > 0 {
            assert(before[at - 1] < m);
        }
        ranking::lemma_inserted(some, before, at);
    }
}

/// Ranking the items of a list by a key sorts them.
pub proof fn ranking_sorts<T>(s: Seq<T>, key: spec_fn(T) -> u128)
    requires
        s.len() <= usize::MAX,
    ensures
        ({
            let order = ranking::ranking(s.map_values(key));
            Seq::new(order.len(), |k: int| s[order[k] as int]) == sorted(s, key)
        }),
{
    let keys = s.map_values(key);
    let key_at = |i: usize| keys[i as int];
    let item = |i: usize| s[i as int];
    let inside = |i: usize| (i as int) < s.len();
    let all_of_them = indices(s.len());
    assert(keys.take(keys.len() as int) =~= keys);
    lemma_indices_ranked(keys, key_at, s.len());
    let order = sorted(all_of_them, key_at);
    ranking::ranking_is_unique(keys, order, ranking::ranking(keys));
    assert(all(all_of_them, inside));
    assert forall|a: usize, b: usize| inside(a) && inside(b) implies (#[trigger] key_at(a)
        < #[trigger] key_at(b)) == (key(item(a)) < key(item(b))) by {
        assert(keys[a as int] == key(s[a as int]));
        assert(keys[b as int] == key(s[b as int]));
    }
    lemma_sorted_mapped(all_of_them, item, key_at, key, inside);
    assert(all_of_them.map_values(item) =~= s);
    assert(Seq::new(order.len(), |k: int| s[order[k] as int]) =~= order.map_values(item));
}

/// Items can be left out by two tests in either order.
pub proof fn lemma_kept_twice<T>(s: Seq<T>, one: spec_fn(T) -> bool, other: spec_fn(T) -> bool)
    ensures
        kept(kept(s, one), other) == kept(kept(s, other), one),
    decreases s.len(),
{
    if s.len() > 0 {
        let shorter = s.drop_last();
        let x = s.last();
        lemma_kept_twice(shorter, one, other);
        assert(kept(shorter, one).push(x).drop_last() =~= kept(shorter, one));
        assert(kept(shorter, other).push(x).drop_last() =~= kept(shorter, other));
    }
}

/// A test that holds for all leaves nothing out.
pub proof fn lemma_all_kept<T>(s: Seq<T>, test: spec_fn(T) -> bool)
    requires
        all(s, test),
    ensures
        kept(s, test) == s,
    decreases s.len(),
{
    if s.len() > 0 {
        lemma_all_shorter(s, test);
        lemma_all_kept(s.drop_last(), test);
        assert(s.drop_last().push(s.last()) =~= s);
    } else {
        assert(s =~= Seq::<T>::empty());
    }
}

/// Leaving items out of two lists and then joining them, or the other way round.
pub proof fn lemma_kept_of_both<T>(a: Seq<T>, b: Seq<T>, test: spec_fn(T) -> bool)
    ensures
        kept(a + b, test) == kept(a, test) + kept(b, test),
    decreases b.len(),
{
    if b.len() == 0 {
        assert(a + b =~= a);
        assert(kept(a, test) + kept(b, test) =~= kept(a, test));
    } else {
        lemma_kept_of_both(a, b.drop_last(), test);
        assert((a + b).drop_last() =~= a + b.drop_last());
        assert((a + b).last() == b.last());
        let k = kept(b.drop_last(), test);
        assert(kept(a, test) + k.push(b.last()) =~= (kept(a, test) + k).push(b.last()));
    }
}

/// A weaker test in front of a test changes nothing.
pub proof fn lemma_kept_first_by_less<T>(
    s: Seq<T>,
    weaker: spec_fn(T) -> bool,
    test: spec_fn(T) -> bool,
)
    requires
        forall|a: T| #[trigger] test(a) ==> weaker(a),
    ensures
        kept(kept(s, weaker), test) == kept(s, test),
    decreases s.len(),
{
    if s.len() > 0 {
        lemma_kept_first_by_less(s.drop_last(), weaker, test);
        let k = kept(s.drop_last(), weaker);
        assert(k.push(s.last()).drop_last() =~= k);
    }
}

/// Where those that are kept all come first, they are the front of the list.
pub proof fn lemma_kept_in_front<T>(s: Seq<T>, test: spec_fn(T) -> bool)
    requires
        forall|i: int, j: int|
            0 <= i <= j < s.len() && test(#[trigger] s[j]) ==> test(#[trigger] s[i]),
    ensures
        kept(s, test).len() <= s.len(),
        kept(s, test) == s.take(kept(s, test).len() as int),
    decreases s.len(),
{
    if s.len() > 0 {
        let shorter = s.drop_last();
        if test(s.last()) {
            assert(all(s, test)) by {
                assert forall|i: int| 0 <= i < s.len() implies test(#[trigger] s[i]) by {
                    assert(s[s.len() - 1] == s.last());
                }
            }
            lemma_all_kept(s, test);
            assert(s.take(s.len() as int) =~= s);
        } else {
            assert forall|i: int, j: int|
                0 <= i <= j < shorter.len() && test(#[trigger] shorter[j]) implies test(
                #[trigger] shorter[i],
            ) by {
                assert(shorter[i] == s[i] && shorter[j] == s[j]);
            }
            lemma_kept_in_front(shorter, test);
            let n = kept(shorter, test).len() as int;
            assert(shorter.take(n) =~= s.take(n));
        }
    } else {
        assert(s.take(0) =~= Seq::<T>::empty());
    }
}

proof fn lemma_placed_adds<T>(s: Seq<T>, key: spec_fn(T) -> u128, x: T)
    ensures
        placed(s, key, x).to_multiset() == s.to_multiset().insert(x),
    decreases s.len(),
{
    broadcast use vstd::seq_lib::group_to_multiset_ensures;

    if s.len() > 0 && key(s.last()) < key(x) {
        lemma_placed_adds(s.drop_last(), key, x);
        let rest = s.drop_last().to_multiset();
        assert(s =~= s.drop_last().push(s.last()));
        assert(rest.insert(x).insert(s.last()) =~= rest.insert(s.last()).insert(x));
    }
}

/// Sorting loses nothing and adds nothing.
pub proof fn lemma_sorted_is_rearranged<T>(s: Seq<T>, key: spec_fn(T) -> u128)
    ensures
        sorted(s, key).to_multiset() == s.to_multiset(),
    decreases s.len(),
{
    broadcast use vstd::seq_lib::group_to_multiset_ensures;

    if s.len() > 0 {
        lemma_sorted_is_rearranged(s.drop_last(), key);
        lemma_placed_adds(sorted(s.drop_last(), key), key, s.last());
        assert(s =~= s.drop_last().push(s.last()));
    } else {
        assert(sorted(s, key) =~= s);
    }
}

} // verus!
