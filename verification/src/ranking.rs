//! Ranking: best first, and what was first stays first among equals.
use vstd::prelude::*;

verus! {

/// Every index below `n` occurs, and nothing else, and nothing twice.
pub open spec fn all_once(order: Seq<usize>, n: nat) -> bool {
    &&& order.len() == n
    &&& forall|k: int| 0 <= k < order.len() ==> (#[trigger] order[k]) < n
    &&& forall|k: int, l: int|
        0 <= k < l < order.len() ==> #[trigger] order[k] != #[trigger] order[l]
}

/// Row `a` belongs before row `b`: it has the larger key, or the same key and came
/// first.
pub open spec fn outranks(keys: Seq<u128>, a: int, b: int) -> bool {
    keys[a] > keys[b] || (keys[a] == keys[b] && a < b)
}

/// `order` lists the rows best first.
pub open spec fn is_ranking(keys: Seq<u128>, order: Seq<usize>) -> bool {
    &&& all_once(order, keys.len())
    &&& forall|k: int, l: int|
        0 <= k < l < order.len() ==> outranks(
            keys,
            #[trigger] order[k] as int,
            #[trigger] order[l] as int,
        )
}

/// The rows, best first.
pub open spec fn ranking(keys: Seq<u128>) -> Seq<usize> {
    choose|order: Seq<usize>| is_ranking(keys, order)
}

/// Lists the rows with these keys best first. Rows that are in order already are
/// passed over quickly.
pub fn rank(keys: &Vec<u128>) -> (r: Vec<usize>)
    ensures
        r@ == ranking(keys@),
        is_ranking(keys@, r@),
{
    let mut order: Vec<usize> = Vec::new();
    let mut i: usize = 0;
    while i < keys.len()
        invariant
            i <= keys@.len(),
            all_once(order@, i as nat),
            forall|k: int, l: int|
                0 <= k < l < order@.len() ==> outranks(
                    keys@,
                    #[trigger] order@[k] as int,
                    #[trigger] order@[l] as int,
                ),
        decreases keys@.len() - i,
    {
        let ghost before = order@;
        let mut at: usize = order.len();
        while at > 0 && keys[order[at - 1]] < keys[i]
            invariant
                i < keys@.len(),
                order@ == before,
                all_once(before, i as nat),
                at <= before.len(),
                forall|k: int|
                    at <= k < before.len() ==> keys@[#[trigger] before[k] as int] < keys@[i as int],
            decreases at,
        {
            at = at - 1;
        }
        order.insert(at, i);
        proof {
            let after = order@;
            assert forall|k: int| 0 <= k < at implies outranks(
                keys@,
                #[trigger] before[k] as int,
                i as int,
            ) by {
                if k < at - 1 {
                    assert(outranks(keys@, before[k] as int, before[at - 1] as int));
                }
            }
            assert forall|k: int, l: int| 0 <= k < l < after.len() implies outranks(
                keys@,
                #[trigger] after[k] as int,
                #[trigger] after[l] as int,
            ) by {
                if l < at {
                    assert(after[k] == before[k] && after[l] == before[l]);
                } else if l == at {
                    assert(after[k] == before[k]);
                } else if k < at {
                    assert(after[k] == before[k] && after[l] == before[l - 1]);
                } else if k == at {
                    assert(after[l] == before[l - 1]);
                } else {
                    assert(after[k] == before[k - 1] && after[l] == before[l - 1]);
                }
            }
            assert forall|k: int| 0 <= k < after.len() implies (#[trigger] after[k]) < i + 1 by {
                if k < at {
                    assert(after[k] == before[k]);
                } else if k > at {
                    assert(after[k] == before[k - 1]);
                }
            }
        }
        i = i + 1;
    }
    proof {
        assert(is_ranking(keys@, order@));
        ranking_is_unique(keys@, order@, ranking(keys@));
    }
    order
}

proof fn lemma_last_is_somewhere(order: Seq<usize>, n: nat) -> (p: int)
    requires
        all_once(order, n),
        n > 0,
    ensures
        0 <= p < order.len(),
        order[p] == n - 1,
    decreases n, 0int,
{
    if exists|p: int| 0 <= p < order.len() && #[trigger] order[p] == n - 1 {
        choose|p: int| 0 <= p < order.len() && #[trigger] order[p] == n - 1
    } else {
        // All but the last of the entries lie below `n - 1` and are different.
        let shorter = order.drop_last();
        assert forall|k: int| 0 <= k < order.len() implies (#[trigger] order[k]) < n - 1 by {
            assert(order[k] != n - 1);
        }
        if n == 1 {
            assert(order[0] < 0);
            0
        } else {
            assert(all_once(shorter, (n - 1) as nat)) by {
                assert forall|k: int| 0 <= k < shorter.len() implies (#[trigger] shorter[k]) < n
                    - 1 by {
                    assert(shorter[k] == order[k]);
                }
                assert forall|k: int, l: int| 0 <= k < l < shorter.len() implies #[trigger] shorter[k]
                    != #[trigger] shorter[l] by {
                    assert(shorter[k] == order[k] && shorter[l] == order[l]);
                }
            }
            let last = order.last();
            lemma_all_occur(shorter, (n - 1) as nat, last as int);
            let q = choose|q: int| 0 <= q < shorter.len() && #[trigger] shorter[q] == last;
            assert(order[q] == order[order.len() - 1]);
            0
        }
    }
}

/// Every index occurs.
pub proof fn lemma_all_occur(order: Seq<usize>, n: nat, i: int)
    requires
        all_once(order, n),
        0 <= i < n,
    ensures
        exists|p: int| 0 <= p < order.len() && #[trigger] order[p] == i,
    decreases n, 1int,
{
    let p = lemma_last_is_somewhere(order, n);
    if i < n - 1 {
        let shorter = order.remove(p);
        lemma_without(order, n, p);
        lemma_all_occur(shorter, (n - 1) as nat, i);
        let q = choose|q: int| 0 <= q < shorter.len() && #[trigger] shorter[q] == i;
        if q < p {
            assert(order[q] == i);
        } else {
            assert(order[q + 1] == i);
        }
    }
}

proof fn lemma_without(order: Seq<usize>, n: nat, p: int)
    requires
        all_once(order, n),
        0 <= p < order.len(),
        order[p] == n - 1,
    ensures
        all_once(order.remove(p), (n - 1) as nat),
{
    let shorter = order.remove(p);
    assert forall|k: int| 0 <= k < shorter.len() implies (#[trigger] shorter[k]) < n - 1 by {
        let o = if k < p {
            k
        } else {
            k + 1
        };
        assert(shorter[k] == order[o]);
        assert(order[o] != order[p]);
    }
    assert forall|k: int, l: int| 0 <= k < l < shorter.len() implies #[trigger] shorter[k]
        != #[trigger] shorter[l] by {
        let o = if k < p {
            k
        } else {
            k + 1
        };
        let q = if l < p {
            l
        } else {
            l + 1
        };
        assert(shorter[k] == order[o] && shorter[l] == order[q]);
    }
}

proof fn lemma_same_ranking(keys: Seq<u128>, a: Seq<usize>, b: Seq<usize>, n: int)
    requires
        is_ranking(keys, a),
        is_ranking(keys, b),
        0 <= n <= keys.len(),
    ensures
        a.take(n) == b.take(n),
    decreases n,
{
    if n > 0 {
        let k = n - 1;
        lemma_same_ranking(keys, a, b, k);
        lemma_all_occur(b, keys.len(), a[k] as int);
        lemma_all_occur(a, keys.len(), b[k] as int);
        let l = choose|l: int| 0 <= l < b.len() && #[trigger] b[l] == a[k] as int;
        let m = choose|m: int| 0 <= m < a.len() && #[trigger] a[m] == b[k] as int;
        if l < k {
            assert(a.take(k)[l] == b.take(k)[l]);
            assert(a[l] != a[k]);
        }
        if m < k {
            assert(a.take(k)[m] == b.take(k)[m]);
            assert(b[m] != b[k]);
        }
        if l > k && m > k {
            assert(outranks(keys, a[k] as int, a[m] as int));
            assert(outranks(keys, b[k] as int, b[l] as int));
        }
        assert(a[k] == b[k]);
        assert(a.take(n) =~= a.take(k).push(a[k]));
        assert(b.take(n) =~= b.take(k).push(b[k]));
    }
}

/// There is only one way to list rows best first.
pub proof fn ranking_is_unique(keys: Seq<u128>, a: Seq<usize>, b: Seq<usize>)
    requires
        is_ranking(keys, a),
        is_ranking(keys, b),
    ensures
        a == b,
{
    lemma_same_ranking(keys, a, b, keys.len() as int);
    assert(a.take(keys.len() as int) =~= a);
    assert(b.take(keys.len() as int) =~= b);
}

proof fn lemma_place(keys: Seq<u128>, order: Seq<usize>, key: u128, p: int) -> (at: int)
    requires
        0 <= p <= order.len(),
        forall|k: int| p <= k < order.len() ==> keys[#[trigger] order[k] as int] < key,
    ensures
        0 <= at <= order.len(),
        forall|k: int| at <= k < order.len() ==> keys[#[trigger] order[k] as int] < key,
        at > 0 ==> keys[order[at - 1] as int] >= key,
    decreases p,
{
    if p > 0 && keys[order[p - 1] as int] < key {
        lemma_place(keys, order, key, p - 1)
    } else {
        p
    }
}

/// One more row goes behind all that it does not outrank.
pub proof fn lemma_inserted(keys: Seq<u128>, before: Seq<usize>, at: int)
    requires
        0 < keys.len() <= usize::MAX,
        is_ranking(keys.drop_last(), before),
        0 <= at <= before.len(),
        forall|k: int| at <= k < before.len() ==> keys[#[trigger] before[k] as int] < keys.last(),
        at > 0 ==> keys[before[at - 1] as int] >= keys.last(),
    ensures
        is_ranking(keys, before.insert(at, (keys.len() - 1) as usize)),
{
    let n = (keys.len() - 1) as usize;
    let fewer = keys.drop_last();
    let after = before.insert(at, n);
    assert forall|k: int| 0 <= k < before.len() implies fewer[#[trigger] before[k] as int]
        == keys[before[k] as int] by {
        assert(before[k] < fewer.len());
    }
    assert forall|k: int| 0 <= k < at implies outranks(
        keys,
        #[trigger] before[k] as int,
        n as int,
    ) by {
        if k < at - 1 {
            assert(outranks(fewer, before[k] as int, before[at - 1] as int));
        }
    }
    assert forall|k: int, l: int| 0 <= k < l < after.len() implies outranks(
        keys,
        #[trigger] after[k] as int,
        #[trigger] after[l] as int,
    ) by {
        if l < at {
            assert(after[k] == before[k] && after[l] == before[l]);
            assert(outranks(fewer, before[k] as int, before[l] as int));
        } else if l == at {
            assert(after[k] == before[k]);
        } else if k < at {
            assert(after[k] == before[k] && after[l] == before[l - 1]);
            assert(outranks(fewer, before[k] as int, before[l - 1] as int));
        } else if k == at {
            assert(after[l] == before[l - 1]);
        } else {
            assert(after[k] == before[k - 1] && after[l] == before[l - 1]);
            assert(outranks(fewer, before[k - 1] as int, before[l - 1] as int));
        }
    }
    assert forall|k: int| 0 <= k < after.len() implies (#[trigger] after[k]) < keys.len() by {
        if k < at {
            assert(after[k] == before[k]);
        } else if k > at {
            assert(after[k] == before[k - 1]);
        }
    }
}

proof fn lemma_some_ranking(keys: Seq<u128>) -> (order: Seq<usize>)
    requires
        keys.len() <= usize::MAX,
    ensures
        is_ranking(keys, order),
    decreases keys.len(),
{
    if keys.len() == 0 {
        Seq::empty()
    } else {
        let before = lemma_some_ranking(keys.drop_last());
        let at = lemma_place(keys, before, keys.last(), before.len() as int);
        lemma_inserted(keys, before, at);
        before.insert(at, (keys.len() - 1) as usize)
    }
}

/// Rows can always be listed best first.
pub proof fn ranking_exists(keys: Seq<u128>)
    requires
        keys.len() <= usize::MAX,
    ensures
        is_ranking(keys, ranking(keys)),
{
    let order = lemma_some_ranking(keys);
    assert(is_ranking(keys, order));
}

/// A sum over all values.
pub open spec fn total(values: Seq<nat>) -> nat
    decreases values.len(),
{
    if values.len() == 0 {
        0
    } else {
        total(values.drop_last()) + values.last()
    }
}

/// Values in the order of a list of indices.
pub open spec fn in_order(values: Seq<nat>, order: Seq<usize>) -> Seq<nat> {
    Seq::new(order.len(), |k: int| values[order[k] as int])
}

/// Taking one value out takes it off the total.
pub proof fn lemma_total_without(values: Seq<nat>, p: int)
    requires
        0 <= p < values.len(),
    ensures
        total(values) == total(values.remove(p)) + values[p],
    decreases values.len(),
{
    if p == values.len() - 1 {
        assert(values.remove(p) =~= values.drop_last());
    } else {
        lemma_total_without(values.drop_last(), p);
        assert(values.remove(p).drop_last() =~= values.drop_last().remove(p));
        assert(values.remove(p).last() == values.last());
    }
}

/// A total over the first values is not more than one over all.
pub proof fn lemma_total_grows(values: Seq<nat>, n: int)
    requires
        0 <= n <= values.len(),
    ensures
        total(values.take(n)) <= total(values),
        total(values.skip(n)) <= total(values),
        total(values) == total(values.take(n)) + total(values.skip(n)),
    decreases values.len(),
{
    if n == values.len() {
        assert(values.take(n) =~= values);
        assert(values.skip(n) =~= Seq::<nat>::empty());
    } else {
        lemma_total_grows(values.drop_last(), n);
        assert(values.drop_last().take(n) =~= values.take(n));
        assert(values.skip(n).drop_last() =~= values.drop_last().skip(n));
        assert(values.skip(n).last() == values.last());
    }
}

/// No value is more than all of them together.
pub proof fn lemma_each_is_less(values: Seq<nat>)
    ensures
        forall|i: int| 0 <= i < values.len() ==> #[trigger] values[i] <= total(values),
    decreases values.len(),
{
    if values.len() > 0 {
        lemma_each_is_less(values.drop_last());
        assert forall|i: int| 0 <= i < values.len() implies #[trigger] values[i] <= total(
            values,
        ) by {
            if i < values.len() - 1 {
                assert(values.drop_last()[i] == values[i]);
            }
        }
    }
}

/// The sum of the values at the indices from `from` up to `to`.
pub(crate) fn sum_of<F: Fn(usize) -> u64>(
    from: usize,
    to: usize,
    value: F,
    values: Ghost<Seq<nat>>,
) -> (r: u64)
    requires
        from <= to,
        values@.len() == to - from,
        total(values@) <= u64::MAX,
        forall|i: usize| from <= i < to ==> call_requires(value, (i,)),
        forall|i: usize, n: u64|
            from <= i < to && call_ensures(value, (i,), n) ==> n == values@[i - from],
    ensures
        r == total(values@),
{
    let mut sum: u64 = 0;
    let mut i: usize = from;
    while i < to
        invariant
            from <= i <= to,
            values@.len() == to - from,
            total(values@) <= u64::MAX,
            forall|j: usize| from <= j < to ==> call_requires(value, (j,)),
            forall|j: usize, n: u64|
                from <= j < to && call_ensures(value, (j,), n) ==> n == values@[j - from],
            sum == total(values@.take(i - from)),
        decreases to - i,
    {
        let n: u64 = value(i);
        proof {
            lemma_total_grows(values@, i - from + 1);
            assert(values@.take(i - from + 1).drop_last() =~= values@.take(i - from));
        }
        sum = sum + n;
        i = i + 1;
    }
    assert(values@.take(i - from) =~= values@);
    sum
}

/// The order does not change the total.
pub proof fn totals_do_not_depend_on_order(values: Seq<nat>, order: Seq<usize>)
    requires
        all_once(order, values.len()),
    ensures
        total(in_order(values, order)) == total(values),
    decreases values.len(),
{
    if values.len() > 0 {
        let n = values.len();
        let p = lemma_last_is_somewhere(order, n);
        let shorter = order.remove(p);
        lemma_without(order, n, p);
        totals_do_not_depend_on_order(values.drop_last(), shorter);
        lemma_total_without(in_order(values, order), p);
        assert(in_order(values, order).remove(p) =~= in_order(values.drop_last(), shorter)) by {
            assert forall|k: int| 0 <= k < shorter.len() implies #[trigger] in_order(
                values,
                order,
            ).remove(p)[k] == in_order(values.drop_last(), shorter)[k] by {
                assert(shorter[k] < n - 1);
                if k < p {
                    assert(shorter[k] == order[k]);
                } else {
                    assert(shorter[k] == order[k + 1]);
                }
            }
        }
    }
}

} // verus!
