//! Measuring a directory: how big it looks, and how much of that deleting it
//! would not give back.
//!
//! Walking the directory happens elsewhere. What the walk came across is handed
//! in as a list of [`Entry`]s, and what cannot be read is in that list too, so
//! that a partial measurement is never mistaken for a complete one.
use crate::links::{frees_bytes, Facts};
use std::collections::HashMap;
use vstd::prelude::*;

verus! {

broadcast use vstd::std_specs::hash::group_hash_axioms;

/// What is known of one entry that the walk came to.
#[derive(Debug, Clone, Copy)]
pub enum Kind {
    /// A regular file. `facts` is `None` where its links could not be looked at.
    File { len: u64, facts: Option<Facts> },
    /// A directory, a link, or anything else that is not a regular file.
    Other,
    /// The metadata could not be had.
    NoMetadata,
}

/// One step of the walk through a directory.
#[derive(Debug, Clone, Copy)]
pub enum Entry {
    /// Something is there. `closed` says that it is a directory whose contents
    /// could not be read.
    Seen { closed: bool, kind: Kind },
    /// The walk itself failed here.
    Failed,
}

/// Result of measuring a directory.
#[derive(Debug, Clone, Copy, PartialEq, Eq, Structural)]
pub struct Measured {
    /// Apparent size: every path to a file counts.
    pub bytes: u64,
    /// Of `bytes`, how much would survive deletion or was counted twice.
    pub shared_bytes: u64,
    /// How often something could not be read. Above zero, the sizes are only
    /// lower bounds.
    pub unreadable: u32,
}

impl Default for Measured {
    fn default() -> (r: Self)
        ensures
            r == (Measured { bytes: 0, shared_bytes: 0, unreadable: 0 }),
    {
        Measured { bytes: 0, shared_bytes: 0, unreadable: 0 }
    }
}

/// The size of the file at an entry, if it is one.
pub open spec fn len_at(e: Entry) -> nat {
    match e {
        Entry::Seen { kind: Kind::File { len, .. }, .. } => len as nat,
        _ => 0,
    }
}

/// The links of the file at an entry, if it is one and they are known.
pub open spec fn facts_at(e: Entry) -> Option<Facts> {
    match e {
        Entry::Seen { kind: Kind::File { facts, .. }, .. } => facts,
        _ => None,
    }
}

/// How many failures an entry stands for. That the links of a file are not known
/// only counts where they were asked for.
pub open spec fn failures_at(e: Entry, check_links: bool) -> nat {
    match e {
        Entry::Failed => 1,
        Entry::Seen { closed, kind } => (if closed {
            1nat
        } else {
            0nat
        }) + (match kind {
            Kind::NoMetadata => 1nat,
            Kind::File { facts: None, .. } => if check_links {
                1nat
            } else {
                0nat
            },
            _ => 0nat,
        }),
    }
}

/// The apparent size of the first `n` entries.
pub open spec fn apparent(s: Seq<Entry>, n: int) -> nat
    decreases n,
{
    if n <= 0 {
        0
    } else {
        apparent(s, n - 1) + len_at(s[n - 1])
    }
}

/// The failures among the first `n` entries.
pub open spec fn failures(s: Seq<Entry>, check_links: bool, n: int) -> nat
    decreases n,
{
    if n <= 0 {
        0
    } else {
        failures(s, check_links, n - 1) + failures_at(s[n - 1], check_links)
    }
}

/// The size of those of the first `n` entries whose links are known.
pub open spec fn accounted(s: Seq<Entry>, n: int) -> nat
    decreases n,
{
    if n <= 0 {
        0
    } else {
        accounted(s, n - 1) + (if facts_at(s[n - 1]) is Some {
            len_at(s[n - 1])
        } else {
            0
        })
    }
}

/// How many of the first `n` entries are paths to the physical file `id`.
pub open spec fn seen_inside(s: Seq<Entry>, id: (u64, u64), n: int) -> nat
    decreases n,
{
    if n <= 0 {
        0
    } else {
        seen_inside(s, id, n - 1) + (if facts_at(s[n - 1]) matches Some(f) && f.id == id {
            1nat
        } else {
            0nat
        })
    }
}

/// Entry `i` is the first path to its physical file.
pub open spec fn first_path(s: Seq<Entry>, i: int) -> bool {
    facts_at(s[i]) matches Some(f) && seen_inside(s, f.id, i) == 0
}

/// What deleting everything frees on account of entry `i`: the size of its file
/// if this is the first path to it and all its links are inside.
pub open spec fn freed_at(s: Seq<Entry>, i: int) -> nat {
    if first_path(s, i) && facts_at(s[i])->0.links <= seen_inside(
        s,
        facts_at(s[i])->0.id,
        s.len() as int,
    ) {
        len_at(s[i])
    } else {
        0
    }
}

/// What deleting everything frees on account of the first `n` entries.
pub open spec fn freed(s: Seq<Entry>, n: int) -> nat
    decreases n,
{
    if n <= 0 {
        0
    } else {
        freed(s, n - 1) + freed_at(s, n - 1)
    }
}

/// Sizes and counts that a machine word can hold.
pub open spec fn countable(s: Seq<Entry>, check_links: bool) -> bool {
    &&& apparent(s, s.len() as int) <= u64::MAX
    &&& failures(s, check_links, s.len() as int) <= u32::MAX
}

/// The measurement that a walk stands for.
pub open spec fn measured(s: Seq<Entry>, check_links: bool) -> Measured {
    let n = s.len() as int;
    Measured {
        bytes: apparent(s, n) as u64,
        shared_bytes: if check_links {
            (accounted(s, n) - freed(s, n)) as u64
        } else {
            0
        },
        unreadable: failures(s, check_links, n) as u32,
    }
}

proof fn lemma_sums_grow(s: Seq<Entry>, check_links: bool, i: int, n: int)
    requires
        0 <= i <= n,
    ensures
        apparent(s, i) <= apparent(s, n),
        failures(s, check_links, i) <= failures(s, check_links, n),
    decreases n,
{
    if i < n {
        lemma_sums_grow(s, check_links, i, n - 1);
    }
}

/// What is freed was accounted for, and what was accounted for is in the apparent
/// size: the shared bytes are never more than all bytes.
pub proof fn shared_is_part_of_the_size(s: Seq<Entry>, n: int)
    requires
        0 <= n <= s.len(),
    ensures
        freed(s, n) <= accounted(s, n) <= apparent(s, n),
    decreases n,
{
    if n > 0 {
        shared_is_part_of_the_size(s, n - 1);
    }
}

/// The key under which a physical file is remembered.
pub open spec fn key_of(id: (u64, u64)) -> u128 {
    (id.0 * 0x1_0000_0000_0000_0000 + id.1) as u128
}

fn key(id: (u64, u64)) -> (r: u128)
    ensures
        r == key_of(id),
{
    id.0 as u128 * 0x1_0000_0000_0000_0000 + id.1 as u128
}

proof fn lemma_key(a: (u64, u64), b: (u64, u64))
    ensures
        key_of(a) == key_of(b) <==> a == b,
        key_of(a) == a.0 * 0x1_0000_0000_0000_0000 + a.1,
{
}

/// One physical file seen inside a directory, however many paths lead to it.
#[derive(Debug, Clone, Copy)]
pub struct Occupant {
    /// Total links to this data anywhere on the volume.
    pub links: u32,
    /// How many paths inside the directory lead to it, as far as that can be
    /// counted.
    pub seen_inside: u32,
    /// The entry of the first of those paths.
    pub first: usize,
}

/// A table of the physical files among the first `n` entries.
pub open spec fn tabled(s: Seq<Entry>, n: int, table: Map<u128, Occupant>) -> bool {
    &&& forall|i: int|
        0 <= i < n ==> (facts_at(#[trigger] s[i]) matches Some(f) ==> table.contains_key(
            key_of(f.id),
        ))
    &&& forall|id: (u64, u64)| #[trigger]
        table.contains_key(key_of(id)) ==> {
            let o = table[key_of(id)];
            &&& 0 <= o.first < n
            &&& facts_at(s[o.first as int]) matches Some(f) && f.id == id && f.links == o.links
            &&& seen_inside(s, id, o.first as int) == 0
            &&& o.seen_inside == if seen_inside(s, id, n) <= u32::MAX {
                seen_inside(s, id, n)
            } else {
                u32::MAX as nat
            }
        }
}

proof fn lemma_unseen(s: Seq<Entry>, id: (u64, u64), n: int)
    requires
        0 <= n <= s.len(),
        forall|i: int|
            0 <= i < n ==> (facts_at(#[trigger] s[i]) matches Some(f) ==> f.id != id),
    ensures
        seen_inside(s, id, n) == 0,
    decreases n,
{
    if n > 0 {
        lemma_unseen(s, id, n - 1);
    }
}

proof fn lemma_seen(s: Seq<Entry>, id: (u64, u64), i: int, n: int)
    requires
        0 <= i < n <= s.len(),
        facts_at(s[i]) matches Some(f) && f.id == id,
    ensures
        seen_inside(s, id, n) > 0,
    decreases n,
{
    if i < n - 1 {
        lemma_seen(s, id, i, n - 1);
    }
}

/// Measures a directory from what a walk through it came across. Only where links
/// are looked at is anything shared.
pub fn dir_size(entries: &Vec<Entry>, check_links: bool) -> (m: Measured)
    requires
        countable(entries@, check_links),
    ensures
        m == measured(entries@, check_links),
        m.shared_bytes <= m.bytes,
{
    let ghost s = entries@;
    let mut m = Measured::default();
    let mut occupants: HashMap<u128, Occupant> = HashMap::new();
    let mut total: u64 = 0;
    let mut i: usize = 0;
    proof {
        assert forall|id: (u64, u64)| !(#[trigger] occupants@.contains_key(key_of(id))) by {}
    }
    while i < entries.len()
        invariant
            s == entries@,
            i <= s.len(),
            countable(s, check_links),
            m.bytes == apparent(s, i as int),
            m.unreadable == failures(s, check_links, i as int),
            m.shared_bytes == 0,
            check_links ==> total == accounted(s, i as int),
            check_links ==> tabled(s, i as int, occupants@),
        decreases s.len() - i,
    {
        proof {
            lemma_sums_grow(s, check_links, i + 1, s.len() as int);
            shared_is_part_of_the_size(s, i + 1);
        }
        let ghost before = occupants@;
        match entries[i] {
            Entry::Failed => {
                m.unreadable = m.unreadable + 1;
            },
            Entry::Seen { closed, kind } => {
                if closed {
                    m.unreadable = m.unreadable + 1;
                }
                match kind {
                    Kind::File { len, facts } => {
                        m.bytes = m.bytes + len;
                        if check_links {
                            match facts {
                                Some(f) => {
                                    total = total + len;
                                    let k: u128 = key(f.id);
                                    let o = match occupants.get(&k) {
                                        Some(o) => Occupant {
                                            links: o.links,
                                            seen_inside: o.seen_inside.saturating_add(1),
                                            first: o.first,
                                        },
                                        None => Occupant {
                                            links: f.links,
                                            seen_inside: 1,
                                            first: i,
                                        },
                                    };
                                    proof {
                                        lemma_key(f.id, f.id);
                                        if !before.contains_key(k) {
                                            assert forall|j: int| 0 <= j < i implies (facts_at(
                                                #[trigger] s[j],
                                            ) matches Some(g) ==> g.id != f.id) by {}
                                            lemma_unseen(s, f.id, i as int);
                                        }
                                    }
                                    occupants.insert(k, o);
                                    assert(tabled(s, i + 1, occupants@)) by {
                                        assert forall|id: (u64, u64)| #[trigger]
                                            occupants@.contains_key(key_of(id)) implies {
                                            let o = occupants@[key_of(id)];
                                            &&& 0 <= o.first < i + 1
                                            &&& facts_at(s[o.first as int]) matches Some(f)
                                                && f.id == id && f.links == o.links
                                            &&& seen_inside(s, id, o.first as int) == 0
                                            &&& o.seen_inside == if seen_inside(s, id, i + 1)
                                                <= u32::MAX {
                                                seen_inside(s, id, i + 1)
                                            } else {
                                                u32::MAX as nat
                                            }
                                        } by {
                                            lemma_key(id, f.id);
                                            if id != f.id {
                                                assert(before.contains_key(key_of(id)));
                                            }
                                        }
                                    }
                                },
                                None => {
                                    m.unreadable = m.unreadable + 1;
                                },
                            }
                        }
                    },
                    Kind::Other => {},
                    Kind::NoMetadata => {
                        m.unreadable = m.unreadable + 1;
                    },
                }
            },
        }
        i = i + 1;
    }
    if check_links {
        let mut back: u64 = 0;
        let mut j: usize = 0;
        while j < entries.len()
            invariant
                s == entries@,
                j <= s.len(),
                back == freed(s, j as int),
                tabled(s, s.len() as int, occupants@),
                apparent(s, s.len() as int) <= u64::MAX,
            decreases s.len() - j,
        {
            proof {
                lemma_sums_grow(s, check_links, j + 1, s.len() as int);
                shared_is_part_of_the_size(s, j + 1);
            }
            if let Entry::Seen { kind: Kind::File { len, facts: Some(f) }, .. } = entries[j] {
                let k: u128 = key(f.id);
                assert(facts_at(s[j as int]) is Some);
                if let Some(o) = occupants.get(&k) {
                    proof {
                        lemma_key(f.id, f.id);
                        if o.first < j {
                            lemma_seen(s, f.id, o.first as int, j as int);
                        } else if o.first > j {
                            lemma_seen(s, f.id, j as int, o.first as int);
                        }
                    }
                    if o.first == j && frees_bytes(o.links, o.seen_inside) {
                        back = back + len;
                    }
                }
            }
            j = j + 1;
        }
        proof {
            shared_is_part_of_the_size(s, s.len() as int);
        }
        m.shared_bytes = total.saturating_sub(back);
    }
    m
}

/// Whether a measurement is worth reporting. An empty directory is nothing; one
/// that could not be read is not the same as one that is not there.
pub fn is_worth_reporting(m: Measured) -> (r: bool)
    ensures
        r == (m.bytes > 0 || m.unreadable > 0),
{
    m.bytes > 0 || m.unreadable > 0
}

/// The size of those of the first `n` entries whose links are not known.
pub open spec fn unaccounted(s: Seq<Entry>, n: int) -> nat
    decreases n,
{
    if n <= 0 {
        0
    } else {
        unaccounted(s, n - 1) + (if facts_at(s[n - 1]) is None {
            len_at(s[n - 1])
        } else {
            0
        })
    }
}

proof fn lemma_size_splits(s: Seq<Entry>, n: int)
    ensures
        apparent(s, n) == accounted(s, n) + unaccounted(s, n),
    decreases n,
{
    if n > 0 {
        lemma_size_splits(s, n - 1);
    }
}

/// What is not shared is what deletion gives back: each physical file once, if all
/// its links are inside, and every file whose links are not known.
pub proof fn the_rest_is_what_deletion_gives_back(s: Seq<Entry>)
    requires
        countable(s, true),
    ensures
        measured(s, true).bytes - measured(s, true).shared_bytes == freed(s, s.len() as int)
            + unaccounted(s, s.len() as int),
{
    shared_is_part_of_the_size(s, s.len() as int);
    lemma_size_splits(s, s.len() as int);
}

proof fn lemma_all_freed(s: Seq<Entry>, n: int)
    requires
        0 <= n <= s.len(),
        forall|i: int|
            0 <= i < s.len() ==> (facts_at(#[trigger] s[i]) matches Some(f) ==> f.links <= 1),
        forall|i: int, j: int|
            0 <= i < j < s.len() && facts_at(#[trigger] s[i]) is Some && facts_at(
                #[trigger] s[j],
            ) is Some ==> facts_at(s[i])->0.id != facts_at(s[j])->0.id,
    ensures
        freed(s, n) == accounted(s, n),
    decreases n,
{
    if n > 0 {
        lemma_all_freed(s, n - 1);
        if let Some(f) = facts_at(s[n - 1]) {
            assert forall|i: int| 0 <= i < n - 1 implies (facts_at(#[trigger] s[i]) matches Some(g)
                ==> g.id != f.id) by {}
            lemma_unseen(s, f.id, n - 1);
            lemma_seen(s, f.id, n - 1, s.len() as int);
        }
    }
}

/// In a tree without hard links nothing is shared.
pub proof fn a_plain_tree_shares_nothing(s: Seq<Entry>)
    requires
        forall|i: int|
            0 <= i < s.len() ==> (facts_at(#[trigger] s[i]) matches Some(f) ==> f.links <= 1),
        forall|i: int, j: int|
            0 <= i < j < s.len() && facts_at(#[trigger] s[i]) is Some && facts_at(
                #[trigger] s[j],
            ) is Some ==> facts_at(s[i])->0.id != facts_at(s[j])->0.id,
    ensures
        measured(s, true).shared_bytes == 0,
{
    lemma_all_freed(s, s.len() as int);
}

proof fn lemma_outside_links(s: Seq<Entry>, n: int)
    requires
        0 <= n <= s.len(),
        forall|i: int|
            0 <= i < s.len() ==> (facts_at(#[trigger] s[i]) matches Some(f) ==> f.links
                > seen_inside(s, f.id, s.len() as int)),
    ensures
        freed(s, n) == 0,
    decreases n,
{
    if n > 0 {
        lemma_outside_links(s, n - 1);
        assert(facts_at(s[n - 1]) is Some ==> facts_at(s[n - 1])->0.links > 0);
    }
}

/// Where every file has a link outside the directory, all that was accounted for
/// is shared.
pub proof fn links_from_outside_leave_nothing(s: Seq<Entry>)
    requires
        countable(s, true),
        forall|i: int|
            0 <= i < s.len() ==> (facts_at(#[trigger] s[i]) matches Some(f) ==> f.links
                > seen_inside(s, f.id, s.len() as int)),
    ensures
        measured(s, true).shared_bytes == accounted(s, s.len() as int),
{
    lemma_outside_links(s, s.len() as int);
    shared_is_part_of_the_size(s, s.len() as int);
}

/// An entry is a path to the physical file `id`.
pub open spec fn leads_to(e: Entry, id: (u64, u64)) -> bool {
    e matches Entry::Seen { kind: Kind::File { facts: Some(f), .. }, .. } && f.id == id
}

proof fn lemma_sums_before(s: Seq<Entry>, e: Entry, check_links: bool, n: int)
    requires
        n <= s.len(),
    ensures
        apparent(s.push(e), n) == apparent(s, n),
        failures(s.push(e), check_links, n) == failures(s, check_links, n),
        unaccounted(s.push(e), n) == unaccounted(s, n),
    decreases n,
{
    if n > 0 {
        lemma_sums_before(s, e, check_links, n - 1);
        assert(s.push(e)[n - 1] == s[n - 1]);
    }
}

proof fn lemma_seen_before(s: Seq<Entry>, e: Entry, id: (u64, u64), n: int)
    requires
        n <= s.len(),
    ensures
        seen_inside(s.push(e), id, n) == seen_inside(s, id, n),
    decreases n,
{
    if n > 0 {
        lemma_seen_before(s, e, id, n - 1);
        assert(s.push(e)[n - 1] == s[n - 1]);
    }
}

/// Every entry adds to the size what its file holds, to the failures what could not be
/// read of it, and to the paths of a physical file itself, if it is one.
pub proof fn every_entry_adds_what_it_holds(
    s: Seq<Entry>,
    e: Entry,
    check_links: bool,
    id: (u64, u64),
)
    requires
        countable(s.push(e), check_links),
    ensures
        measured(s.push(e), check_links).bytes == measured(s, check_links).bytes + (match e {
            Entry::Seen { kind: Kind::File { len, .. }, .. } => len as int,
            _ => 0,
        }),
        measured(s.push(e), check_links).unreadable == measured(s, check_links).unreadable + (
        match e {
            Entry::Failed => 1int,
            Entry::Seen { closed: true, kind: Kind::NoMetadata } => 2,
            Entry::Seen { closed: true, kind: Kind::File { facts: None, .. } } => if check_links {
                2
            } else {
                1
            },
            Entry::Seen { closed: true, .. } => 1,
            Entry::Seen { kind: Kind::NoMetadata, .. } => 1,
            Entry::Seen { kind: Kind::File { facts: None, .. }, .. } => if check_links {
                1
            } else {
                0
            },
            _ => 0,
        }),
        seen_inside(s.push(e), id, s.len() as int + 1) == seen_inside(s, id, s.len() as int) + (
        if leads_to(e, id) {
            1int
        } else {
            0
        }),
{
    let n = s.len() as int;
    lemma_sums_before(s, e, check_links, n);
    lemma_seen_before(s, e, id, n);
    assert(s.push(e)[n] == e);
}

/// Without an eye on links nothing counts as shared.
pub proof fn links_that_are_not_followed_share_nothing(s: Seq<Entry>)
    ensures
        measured(s, false).shared_bytes == 0,
{
}

/// What deleting all of it would give back.
pub open spec fn gives_back(s: Seq<Entry>) -> int {
    measured(s, true).bytes - measured(s, true).shared_bytes
}

proof fn lemma_countable_before(s: Seq<Entry>, e: Entry)
    requires
        countable(s.push(e), true),
    ensures
        countable(s, true),
{
    lemma_sums_before(s, e, true, s.len() as int);
    assert(s.push(e)[s.len() as int] == e);
}

/// A file whose links are not known is taken to come back, and what is no file adds
/// nothing.
pub proof fn what_is_not_known_comes_back(s: Seq<Entry>, e: Entry)
    requires
        countable(s.push(e), true),
        !(e matches Entry::Seen { kind: Kind::File { facts: Some(_), .. }, .. }),
    ensures
        gives_back(s.push(e)) == gives_back(s) + (match e {
            Entry::Seen { kind: Kind::File { len, .. }, .. } => len as int,
            _ => 0,
        }),
{
    let n = s.len() as int;
    let all = s.push(e);
    lemma_countable_before(s, e);
    the_rest_is_what_deletion_gives_back(s);
    the_rest_is_what_deletion_gives_back(all);
    lemma_sums_before(s, e, true, n);
    assert(all[n] == e);
    lemma_freed_apart(s, e, n);
}

/// Entries that lead to other files free as much with another entry behind them as
/// without.
proof fn lemma_freed_apart(s: Seq<Entry>, e: Entry, n: int)
    requires
        n <= s.len(),
        forall|i: int|
            0 <= i < s.len() ==> (facts_at(#[trigger] s[i]) matches Some(f) ==> !leads_to(
                e,
                f.id,
            )),
    ensures
        freed(s.push(e), n) == freed(s, n),
    decreases n,
{
    if n > 0 {
        lemma_freed_apart(s, e, n - 1);
        let all = s.push(e);
        assert(all[n - 1] == s[n - 1]);
        if facts_at(s[n - 1]) is Some {
            let id = facts_at(s[n - 1])->0.id;
            lemma_seen_before(s, e, id, n - 1);
            lemma_seen_before(s, e, id, s.len() as int);
            assert(all[s.len() as int] == e);
        }
    }
}

proof fn lemma_not_seen(s: Seq<Entry>, id: (u64, u64), n: int)
    requires
        0 <= n <= s.len(),
    ensures
        seen_inside(s, id, n) == 0 <==> forall|i: int|
            0 <= i < n ==> !leads_to(#[trigger] s[i], id),
    decreases n,
{
    if n > 0 {
        lemma_not_seen(s, id, n - 1);
        if seen_inside(s, id, n) == 0 {
            assert forall|i: int| 0 <= i < n implies !leads_to(#[trigger] s[i], id) by {}
        }
    }
}

/// A file that is met for the first time comes back if this is its only link, and else
/// does not yet.
pub proof fn a_new_file_comes_back_without_other_links(
    s: Seq<Entry>,
    closed: bool,
    len: u64,
    f: Facts,
)
    requires
        countable(
            s.push(Entry::Seen { closed, kind: Kind::File { len, facts: Some(f) } }),
            true,
        ),
        forall|i: int| 0 <= i < s.len() ==> !leads_to(#[trigger] s[i], f.id),
    ensures
        gives_back(s.push(Entry::Seen { closed, kind: Kind::File { len, facts: Some(f) } }))
            == gives_back(s) + (if f.links <= 1 {
            len as int
        } else {
            0
        }),
{
    let e = Entry::Seen { closed, kind: Kind::File { len, facts: Some(f) } };
    let n = s.len() as int;
    let all = s.push(e);
    lemma_countable_before(s, e);
    the_rest_is_what_deletion_gives_back(s);
    the_rest_is_what_deletion_gives_back(all);
    lemma_sums_before(s, e, true, n);
    assert(all[n] == e);
    assert forall|i: int| 0 <= i < s.len() implies (facts_at(#[trigger] s[i]) matches Some(g)
        ==> !leads_to(e, g.id)) by {
        assert(!leads_to(s[i], f.id));
    }
    lemma_freed_apart(s, e, n);
    lemma_not_seen(s, f.id, n);
    lemma_seen_before(s, e, f.id, n);
}

proof fn lemma_freed_completed(s: Seq<Entry>, e: Entry, f: Facts, first: int, n: int)
    requires
        0 <= n <= s.len(),
        facts_at(e) == Some(f),
        0 <= first < s.len(),
        leads_to(s[first], f.id),
        forall|i: int| 0 <= i < first ==> !leads_to(#[trigger] s[i], f.id),
    ensures
        freed(s.push(e), n) == freed(s, n) + (if first < n && facts_at(s[first])->0.links
            == seen_inside(s, f.id, s.len() as int) + 1 {
            len_at(s[first])
        } else {
            0
        }),
    decreases n,
{
    if n > 0 {
        lemma_freed_completed(s, e, f, first, n - 1);
        let all = s.push(e);
        let i = n - 1;
        assert(all[i] == s[i]);
        if facts_at(s[i]) is Some {
            let id = facts_at(s[i])->0.id;
            lemma_seen_before(s, e, id, i);
            lemma_seen_before(s, e, id, s.len() as int);
            assert(all[s.len() as int] == e);
            lemma_not_seen(s, id, i);
            if id == f.id && i != first {
                assert(leads_to(s[i], f.id));
                assert(first < i);
                assert(!first_path(s, i));
                assert(!first_path(all, i));
            }
        }
    }
}

/// Another path to a file that was met before gives nothing back by itself. With it the
/// file comes back if no link to it is missing any more, and then once.
pub proof fn another_path_completes_a_file_or_adds_nothing(
    s: Seq<Entry>,
    closed: bool,
    len: u64,
    f: Facts,
    first: int,
)
    requires
        countable(
            s.push(Entry::Seen { closed, kind: Kind::File { len, facts: Some(f) } }),
            true,
        ),
        0 <= first < s.len(),
        leads_to(s[first], f.id),
        forall|i: int| 0 <= i < first ==> !leads_to(#[trigger] s[i], f.id),
    ensures
        gives_back(s.push(Entry::Seen { closed, kind: Kind::File { len, facts: Some(f) } }))
            == gives_back(s) + (match s[first] {
            Entry::Seen { kind: Kind::File { len, facts: Some(g) }, .. } => if g.links
                == seen_inside(s, f.id, s.len() as int) + 1 {
                len as int
            } else {
                0
            },
            _ => 0,
        }),
{
    let e = Entry::Seen { closed, kind: Kind::File { len, facts: Some(f) } };
    let n = s.len() as int;
    let all = s.push(e);
    lemma_countable_before(s, e);
    the_rest_is_what_deletion_gives_back(s);
    the_rest_is_what_deletion_gives_back(all);
    lemma_sums_before(s, e, true, n);
    assert(all[n] == e);
    lemma_freed_completed(s, e, f, first, n);
    lemma_seen_before(s, e, f.id, n);
    lemma_not_seen(s, f.id, n);
    assert(!first_path(all, n));
}

} // verus!
