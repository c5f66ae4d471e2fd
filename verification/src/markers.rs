//! Recognising projects from directory entries.
//!
//! The names of a directory's entries are at hand by the time it has been read, so
//! which detector claims it, and which of its entries need no further look, is
//! decided from the names alone, against an index that is built once per scan.
use crate::detector;
use crate::detector::Detector;
use crate::paths;
use crate::paths::{components, Component, Part};
use crate::text;
use vstd::hash_map::StringHashMap;
use vstd::hash_set::StringHashSet;
use vstd::prelude::*;
use vstd::string::*;

verus! {

/// Directory names that are never walked into.
pub open spec fn never_descended(name: Seq<char>) -> bool {
    name == ".git"@ || name == "$RECYCLE.BIN"@ || name == "System Volume Information"@
}

fn is_never_descended(name: &str) -> (r: bool)
    ensures
        r == never_descended(name@),
{
    let n = name.to_owned();
    n == ".git".to_owned() || n == "$RECYCLE.BIN".to_owned() || n
        == "System Volume Information".to_owned()
}

/// A part as it is written.
pub open spec fn part_text(p: Part) -> Seq<char> {
    match p {
        Part::Root => "/"@,
        Part::Here => "."@,
        Part::Up => ".."@,
        Part::Name(n) => n,
    }
}

/// A target of the detector has this name, or starts with it.
pub open spec fn prunes(d: Detector, name: Seq<char>) -> bool {
    exists|i: int|
        0 <= i < d.reclaimable@.len() && {
            let p = paths::parts((#[trigger] d.reclaimable@[i]).path@);
            p.len() > 0 && part_text(p[0]) == name
        }
}

/// The first detector from `i` on that claims a directory with these names.
pub open spec fn claimant_from(
    detectors: Seq<Detector>,
    names: Seq<Seq<char>>,
    i: int,
) -> Option<usize>
    decreases detectors.len() - i,
{
    if i >= detectors.len() {
        None
    } else if detector::claims(detectors[i], names) {
        Some(i as usize)
    } else {
        claimant_from(detectors, names, i + 1)
    }
}

/// The first detector that claims a directory with these names.
pub open spec fn claimant(detectors: Seq<Detector>, names: Seq<Seq<char>>) -> Option<usize> {
    claimant_from(detectors, names, 0)
}

proof fn lemma_claimant_is(detectors: Seq<Detector>, names: Seq<Seq<char>>, i: int, at: int)
    requires
        0 <= i <= at < detectors.len() <= usize::MAX,
        detector::claims(detectors[at], names),
        forall|k: int| i <= k < at ==> !detector::claims(#[trigger] detectors[k], names),
    ensures
        claimant_from(detectors, names, i) == Some(at as usize),
    decreases at - i,
{
    if i < at {
        assert(!detector::claims(detectors[i], names));
        lemma_claimant_is(detectors, names, i + 1, at);
    }
}

proof fn lemma_no_claimant(detectors: Seq<Detector>, names: Seq<Seq<char>>, i: int)
    requires
        0 <= i,
        forall|k: int|
            i <= k < detectors.len() ==> !detector::claims(#[trigger] detectors[k], names),
    ensures
        claimant_from(detectors, names, i) is None,
    decreases detectors.len() - i,
{
    if i < detectors.len() {
        assert(!detector::claims(detectors[i], names));
        lemma_no_claimant(detectors, names, i + 1);
    }
}

/// Detector `k` has a marker of this name, counting only the first `j` markers of
/// detector `i` and none of those after it.
spec fn marked(detectors: Seq<Detector>, name: Seq<char>, k: int, i: int, j: int) -> bool {
    exists|a: int|
        0 <= k < detectors.len() && 0 <= a < detectors[k].markers@.len() && (k < i || (k == i && a
            < j)) && #[trigger] detectors[k].markers@[a]@ == name
}

spec fn marker_table(
    detectors: Seq<Detector>,
    table: Map<Seq<char>, usize>,
    i: int,
    j: int,
) -> bool {
    &&& forall|name: Seq<char>, k: int| #[trigger]
        marked(detectors, name, k, i, j) ==> table.contains_key(name) && table[name] <= k
    &&& forall|name: Seq<char>| #[trigger]
        table.contains_key(name) ==> marked(detectors, name, table[name] as int, i, j)
}

/// Marker filename to detector, and the names each detector wants pruned once it
/// has claimed a directory.
pub struct MarkerIndex {
    by_marker: StringHashMap<usize>,
    prune: Vec<StringHashSet>,
    detectors: Ghost<Seq<Detector>>,
}

impl View for MarkerIndex {
    type V = Seq<Detector>;

    closed spec fn view(&self) -> Seq<Detector> {
        self.detectors@
    }
}

/// One entry of a directory.
#[derive(Debug)]
pub struct Child {
    pub name: String,
    pub is_dir: bool,
}

/// What reading one directory comes to.
#[derive(Debug)]
pub struct Visit {
    /// Entries that are directories.
    pub dirs: u64,
    /// Entries that are not.
    pub files: u64,
    /// The detector that claims the directory.
    pub matched: Option<usize>,
    /// For each entry, whether the walk goes on with it.
    pub keep: Vec<bool>,
}

/// The names of the first `n` entries, as far as the entries could be read.
pub open spec fn names_of(children: Seq<Option<Child>>, n: int) -> Seq<Seq<char>>
    decreases n,
{
    if n <= 0 {
        Seq::empty()
    } else {
        match children[n - 1] {
            Some(c) => names_of(children, n - 1).push(c.name@),
            None => names_of(children, n - 1),
        }
    }
}

/// How many of the first `n` entries are directories, or are not.
pub open spec fn entries_of(children: Seq<Option<Child>>, is_dir: bool, n: int) -> nat
    decreases n,
{
    if n <= 0 {
        0
    } else {
        entries_of(children, is_dir, n - 1) + (match children[n - 1] {
            Some(c) => if c.is_dir == is_dir {
                1nat
            } else {
                0nat
            },
            None => 0nat,
        })
    }
}

/// Whether the walk goes on with an entry of a directory that `matched` claims.
pub open spec fn walked_on(
    detectors: Seq<Detector>,
    matched: Option<usize>,
    child: Option<Child>,
) -> bool {
    match child {
        None => false,
        Some(c) => !never_descended(c.name@) && (matched matches Some(i) ==> !prunes(
            detectors[i as int],
            c.name@,
        )),
    }
}

fn first_component(path: &str) -> (r: Option<String>)
    ensures
        r is Some <==> paths::parts(path@).len() > 0,
        r matches Some(t) ==> t@ == part_text(paths::parts(path@)[0]),
{
    let c = components(path);
    assert(paths::views(c@).len() == c@.len());
    if c.len() == 0 {
        return None;
    }
    assert(paths::views(c@)[0] == c@[0]@);
    match &c[0] {
        Component::Root => Some("/".to_owned()),
        Component::Here => Some(".".to_owned()),
        Component::Up => Some("..".to_owned()),
        Component::Name(n) => Some(n.clone()),
    }
}

fn prune_set(d: &Detector) -> (r: StringHashSet)
    ensures
        forall|name: Seq<char>| #[trigger] r@.contains(name) <==> prunes(*d, name),
{
    let mut r = StringHashSet::new();
    let mut i: usize = 0;
    while i < d.reclaimable.len()
        invariant
            i <= d.reclaimable@.len(),
            forall|name: Seq<char>| #[trigger]
                r@.contains(name) <==> exists|k: int|
                    0 <= k < i && {
                        let p = paths::parts((#[trigger] d.reclaimable@[k]).path@);
                        p.len() > 0 && part_text(p[0]) == name
                    },
        decreases d.reclaimable@.len() - i,
    {
        let ghost before = r@;
        if let Some(t) = first_component(d.reclaimable[i].path.as_str()) {
            let ghost text = t@;
            r.insert(t);
            assert forall|name: Seq<char>| #[trigger] r@.contains(name) implies exists|k: int|
                0 <= k < i + 1 && {
                    let p = paths::parts((#[trigger] d.reclaimable@[k]).path@);
                    p.len() > 0 && part_text(p[0]) == name
                } by {
                if name == text {
                    assert(part_text(paths::parts(d.reclaimable@[i as int].path@)[0]) == name);
                } else {
                    assert(before.contains(name));
                }
            }
            assert forall|name: Seq<char>| before.contains(name) implies #[trigger] r@.contains(
                name,
            ) by {}
        }
        i = i + 1;
    }
    r
}

impl MarkerIndex {
    #[verifier::type_invariant]
    spec fn valid(self) -> bool {
        let ds = self.detectors@;
        &&& ds.len() <= usize::MAX
        &&& marker_table(ds, self.by_marker@, ds.len() as int, 0)
        &&& self.prune@.len() == ds.len()
        &&& forall|i: int, name: Seq<char>|
            #![trigger self.prune@[i]@.contains(name)]
            0 <= i < ds.len() ==> (self.prune@[i]@.contains(name) <==> prunes(ds[i], name))
    }

    /// Takes in the detectors of a scan. Where several share a marker, the first
    /// of them has it.
    pub fn build(detectors: &Vec<Detector>) -> (r: Self)
        ensures
            r@ == detectors@,
    {
        let ghost ds = detectors@;
        let mut by_marker: StringHashMap<usize> = StringHashMap::new();
        let mut prune: Vec<StringHashSet> = Vec::new();
        let mut i: usize = 0;
        while i < detectors.len()
            invariant
                ds == detectors@,
                i <= ds.len(),
                marker_table(ds, by_marker@, i as int, 0),
                prune@.len() == i,
                forall|k: int, name: Seq<char>|
                    #![trigger prune@[k]@.contains(name)]
                    0 <= k < i ==> (prune@[k]@.contains(name) <==> prunes(ds[k], name)),
            decreases ds.len() - i,
        {
            let markers = &detectors[i].markers;
            let mut j: usize = 0;
            while j < markers.len()
                invariant
                    ds == detectors@,
                    i < ds.len(),
                    markers == ds[i as int].markers,
                    j <= markers@.len(),
                    marker_table(ds, by_marker@, i as int, j as int),
                decreases markers@.len() - j,
            {
                let ghost before = by_marker@;
                let ghost name = markers@[j as int]@;
                if !by_marker.contains_key(markers[j].as_str()) {
                    by_marker.insert(markers[j].clone(), i);
                }
                proof {
                    assert(marked(ds, name, i as int, i as int, j + 1)) by {
                        assert(ds[i as int].markers@[j as int]@ == name);
                    }
                    assert forall|n: Seq<char>, k: int| #[trigger]
                        marked(ds, n, k, i as int, j + 1) implies by_marker@.contains_key(n)
                        && by_marker@[n] <= k by {
                        let a = choose|a: int|
                            0 <= k < ds.len() && 0 <= a < ds[k].markers@.len() && (k < i || (k == i
                                && a < j + 1)) && #[trigger] ds[k].markers@[a]@ == n;
                        if k < i || a < j {
                            assert(marked(ds, n, k, i as int, j as int)) by {
                                assert(ds[k].markers@[a]@ == n);
                            }
                        } else if before.contains_key(name) {
                            assert(marked(ds, name, before[name] as int, i as int, j as int));
                        }
                    }
                    assert forall|n: Seq<char>| #[trigger] by_marker@.contains_key(n) implies marked(
                        ds,
                        n,
                        by_marker@[n] as int,
                        i as int,
                        j + 1,
                    ) by {
                        if before.contains_key(n) {
                            let k = before[n] as int;
                            assert(marked(ds, n, k, i as int, j as int));
                            let a = choose|a: int|
                                0 <= k < ds.len() && 0 <= a < ds[k].markers@.len() && (k < i || (k
                                    == i && a < j)) && #[trigger] ds[k].markers@[a]@ == n;
                            assert(ds[k].markers@[a]@ == n);
                        }
                    }
                }
                j = j + 1;
            }
            prune.push(prune_set(&detectors[i]));
            proof {
                let n = markers@.len() as int;
                assert forall|name: Seq<char>, k: int|
                    marked(ds, name, k, i as int, n) <==> #[trigger] marked(
                        ds,
                        name,
                        k,
                        i + 1,
                        0,
                    ) by {
                    if marked(ds, name, k, i as int, n) {
                        let a = choose|a: int|
                            0 <= k < ds.len() && 0 <= a < ds[k].markers@.len() && (k < i || (k == i
                                && a < n)) && #[trigger] ds[k].markers@[a]@ == name;
                        assert(ds[k].markers@[a]@ == name);
                    }
                    if marked(ds, name, k, i + 1, 0) {
                        let a = choose|a: int|
                            0 <= k < ds.len() && 0 <= a < ds[k].markers@.len() && (k < i + 1 || (k
                                == i + 1 && a < 0)) && #[trigger] ds[k].markers@[a]@ == name;
                        assert(ds[k].markers@[a]@ == name);
                    }
                }
                assert forall|name: Seq<char>| #[trigger] by_marker@.contains_key(name) implies marked(
                    ds,
                    name,
                    by_marker@[name] as int,
                    i + 1,
                    0,
                ) by {
                    assert(marked(ds, name, by_marker@[name] as int, i as int, n));
                }
            }
            i = i + 1;
        }
        MarkerIndex { by_marker, prune, detectors: Ghost(ds) }
    }

    proof fn lemma_marks(self, name: Seq<char>, k: int)
        requires
            self.valid(),
            0 <= k < self@.len(),
        ensures
            marked(self@, name, k, self@.len() as int, 0) <==> detector::marks(self@[k], name),
    {
        let ds = self@;
        if detector::marks(ds[k], name) {
            let a = choose|a: int|
                0 <= a < ds[k].markers@.len() && #[trigger] ds[k].markers@[a]@ == name;
            assert(ds[k].markers@[a]@ == name);
        }
    }

    proof fn lemma_lowest(self, names: Seq<Seq<char>>, lowest: Option<usize>)
        requires
            self.valid(),
            forall|j: int|
                0 <= j < names.len() && self.by_marker@.contains_key(#[trigger] names[j]) ==> (
                lowest matches Some(m) && m <= self.by_marker@[names[j]]),
            lowest matches Some(m) ==> exists|j: int|
                0 <= j < names.len() && self.by_marker@.contains_key(#[trigger] names[j])
                    && self.by_marker@[names[j]] == m,
        ensures
            lowest == claimant(self@, names),
    {
        let ds = self@;
        assert forall|k: int| 0 <= k < ds.len() && detector::claims(#[trigger] ds[k], names) implies (
        lowest matches Some(m) && m <= k) by {
            let j = choose|j: int|
                0 <= j < names.len() && detector::marks(ds[k], #[trigger] names[j]);
            self.lemma_marks(names[j], k);
        }
        match lowest {
            Some(m) => {
                let j = choose|j: int|
                    0 <= j < names.len() && self.by_marker@.contains_key(#[trigger] names[j])
                        && self.by_marker@[names[j]] == m;
                assert(marked(ds, names[j], m as int, ds.len() as int, 0));
                self.lemma_marks(names[j], m as int);
                lemma_claimant_is(ds, names, 0, m as int);
            },
            None => {
                lemma_no_claimant(ds, names, 0);
            },
        }
    }

    /// Which detector, if any, claims a directory with entries of these names?
    pub fn detector_for(&self, names: &Vec<String>) -> (r: Option<usize>)
        ensures
            r == claimant(self@, text::texts(names@)),
            r matches Some(i) ==> i < self@.len(),
    {
        proof {
            use_type_invariant(self);
        }
        let ghost all = text::texts(names@);
        let mut lowest: Option<usize> = None;
        let mut i: usize = 0;
        while i < names.len()
            invariant
                self.valid(),
                all == text::texts(names@),
                i <= names@.len(),
                forall|j: int|
                    0 <= j < i && self.by_marker@.contains_key(#[trigger] all[j]) ==> (
                    lowest matches Some(m) && m <= self.by_marker@[all[j]]),
                lowest matches Some(m) ==> exists|j: int|
                    0 <= j < i && self.by_marker@.contains_key(#[trigger] all[j])
                        && self.by_marker@[all[j]] == m,
            decreases names@.len() - i,
        {
            assert(all[i as int] == names@[i as int]@);
            if let Some(m) = self.by_marker.get(names[i].as_str()) {
                lowest = lower(lowest, *m);
            }
            i = i + 1;
        }
        proof {
            self.lemma_lowest(all, lowest);
            if let Some(m) = lowest {
                let j = choose|j: int|
                    0 <= j < i && self.by_marker@.contains_key(#[trigger] all[j])
                        && self.by_marker@[all[j]] == m;
                assert(marked(self@, all[j], m as int, self@.len() as int, 0));
            }
        }
        lowest
    }

    /// Reads one directory from its entries, `None` standing for an entry that
    /// could not be read: counts them, finds the detector that claims it, and says
    /// which entries the walk goes on with.
    pub fn visit(&self, children: &Vec<Option<Child>>) -> (r: Visit)
        ensures
            r.dirs == entries_of(children@, true, children@.len() as int),
            r.files == entries_of(children@, false, children@.len() as int),
            r.matched == claimant(self@, names_of(children@, children@.len() as int)),
            r.matched matches Some(i) ==> i < self@.len(),
            r.keep@.len() == children@.len(),
            forall|i: int|
                0 <= i < children@.len() ==> #[trigger] r.keep@[i] == walked_on(
                    self@,
                    r.matched,
                    children@[i],
                ),
    {
        proof {
            use_type_invariant(self);
        }
        let ghost cs = children@;
        let mut dirs: u64 = 0;
        let mut files: u64 = 0;
        let mut matched: Option<usize> = None;
        let mut i: usize = 0;
        while i < children.len()
            invariant
                self.valid(),
                cs == children@,
                i <= cs.len(),
                dirs + files <= i,
                dirs == entries_of(cs, true, i as int),
                files == entries_of(cs, false, i as int),
                forall|j: int|
                    0 <= j < names_of(cs, i as int).len() && self.by_marker@.contains_key(
                        #[trigger] names_of(cs, i as int)[j],
                    ) ==> (matched matches Some(m) && m <= self.by_marker@[names_of(
                        cs,
                        i as int,
                    )[j]]),
                matched matches Some(m) ==> exists|j: int|
                    0 <= j < names_of(cs, i as int).len() && self.by_marker@.contains_key(
                        #[trigger] names_of(cs, i as int)[j],
                    ) && self.by_marker@[names_of(cs, i as int)[j]] == m,
            decreases cs.len() - i,
        {
            let ghost before = names_of(cs, i as int);
            let ghost after = names_of(cs, i + 1);
            let ghost lowest = matched;
            if let Some(c) = &children[i] {
                if c.is_dir {
                    dirs = dirs + 1;
                } else {
                    files = files + 1;
                }
                if let Some(m) = self.by_marker.get(c.name.as_str()) {
                    matched = lower(matched, *m);
                }
                proof {
                    assert(after == before.push(c.name@));
                    assert(after[before.len() as int] == c.name@);
                    if let Some(m) = matched {
                        if lowest == matched {
                            let j = choose|j: int|
                                0 <= j < before.len() && self.by_marker@.contains_key(
                                    #[trigger] before[j],
                                ) && self.by_marker@[before[j]] == m;
                            assert(after[j] == before[j]);
                        }
                    }
                    assert forall|j: int|
                        0 <= j < after.len() && self.by_marker@.contains_key(
                            #[trigger] after[j],
                        ) implies (matched matches Some(m) && m <= self.by_marker@[after[j]]) by {
                        if j < before.len() {
                            assert(after[j] == before[j]);
                        }
                    }
                }
            }
            i = i + 1;
        }
        let ghost names = names_of(cs, cs.len() as int);
        proof {
            self.lemma_lowest(names, matched);
            if let Some(m) = matched {
                let j = choose|j: int|
                    0 <= j < names.len() && self.by_marker@.contains_key(#[trigger] names[j])
                        && self.by_marker@[names[j]] == m;
                assert(marked(self@, names[j], m as int, self@.len() as int, 0));
            }
        }
        let mut keep: Vec<bool> = Vec::new();
        let mut i: usize = 0;
        while i < children.len()
            invariant
                self.valid(),
                cs == children@,
                i <= cs.len(),
                keep@.len() == i,
                matched matches Some(m) ==> m < self@.len(),
                forall|k: int|
                    0 <= k < i ==> #[trigger] keep@[k] == walked_on(self@, matched, cs[k]),
            decreases cs.len() - i,
        {
            let on = match &children[i] {
                None => false,
                Some(c) => if is_never_descended(c.name.as_str()) {
                    false
                } else {
                    match matched {
                        None => true,
                        Some(m) => !self.prune[m].contains(c.name.as_str()),
                    }
                },
            };
            keep.push(on);
            i = i + 1;
        }
        Visit { dirs, files, matched, keep }
    }
}

fn lower(a: Option<usize>, b: usize) -> (r: Option<usize>)
    ensures
        r == Some(
            if a matches Some(x) && x <= b {
                a->0
            } else {
                b
            },
        ),
{
    match a {
        Some(x) => if x <= b {
            Some(x)
        } else {
            Some(b)
        },
        None => Some(b),
    }
}

proof fn lemma_claimant_from(detectors: Seq<Detector>, names: Seq<Seq<char>>, i: int)
    requires
        0 <= i,
        detectors.len() <= usize::MAX,
    ensures
        claimant_from(detectors, names, i) matches Some(at) ==> i <= at < detectors.len()
            && detector::claims(detectors[at as int], names) && forall|k: int|
            i <= k < at ==> !detector::claims(#[trigger] detectors[k], names),
        claimant_from(detectors, names, i) is None ==> forall|k: int|
            i <= k < detectors.len() ==> !detector::claims(#[trigger] detectors[k], names),
    decreases detectors.len() - i,
{
    if i < detectors.len() && !detector::claims(detectors[i], names) {
        lemma_claimant_from(detectors, names, i + 1);
    }
}

/// A directory is claimed by the first detector that has a marker in it, whatever
/// the order of its entries, and by none only if none has one.
pub proof fn the_first_match_claims(detectors: Seq<Detector>, names: Seq<Seq<char>>)
    requires
        detectors.len() <= usize::MAX,
    ensures
        claimant(detectors, names) matches Some(at) ==> at < detectors.len() && detector::claims(
            detectors[at as int],
            names,
        ) && forall|k: int| 0 <= k < at ==> !detector::claims(#[trigger] detectors[k], names),
        claimant(detectors, names) is None ==> forall|k: int|
            0 <= k < detectors.len() ==> !detector::claims(#[trigger] detectors[k], names),
{
    lemma_claimant_from(detectors, names, 0);
}

/// One of the first `n` entries could be read and has this name.
pub open spec fn has_entry(children: Seq<Option<Child>>, n: int, name: Seq<char>) -> bool {
    exists|i: int|
        0 <= i < n && (#[trigger] children[i]) is Some && (children[i]->0).name@ == name
}

/// Entries are counted once each: those that could be read are directories or files,
/// and the counts grow by exactly the entries that are added.
pub proof fn every_entry_is_counted_once(children: Seq<Option<Child>>, n: int)
    requires
        0 <= n <= children.len(),
    ensures
        entries_of(children, true, n) + entries_of(children, false, n) == names_of(
            children,
            n,
        ).len(),
        n < children.len() ==> entries_of(children, true, n + 1) == entries_of(children, true, n) + (
        if children[n] is Some && (children[n]->0).is_dir {
            1int
        } else {
            0int
        }),
        forall|i: int|
            0 <= i < n && (#[trigger] children[i]) is Some ==> names_of(children, n).contains(
                (children[i]->0).name@,
            ),
        forall|j: int|
            0 <= j < names_of(children, n).len() ==> has_entry(
                children,
                n,
                #[trigger] names_of(children, n)[j],
            ),
    decreases n,
{
    if n > 0 {
        every_entry_is_counted_once(children, n - 1);
        let before = names_of(children, n - 1);
        let after = names_of(children, n);
        assert forall|i: int| 0 <= i < n && (#[trigger] children[i]) is Some implies after.contains(
            (children[i]->0).name@,
        ) by {
            if i == n - 1 {
                assert(after[after.len() - 1] == (children[i]->0).name@);
            } else {
                let j = before.index_of((children[i]->0).name@);
                assert(before.contains((children[i]->0).name@));
                assert(after[j] == before[j]);
            }
        }
        assert forall|j: int| 0 <= j < after.len() implies has_entry(
            children,
            n,
            #[trigger] after[j],
        ) by {
            if j < before.len() {
                assert(after[j] == before[j]);
                assert(has_entry(children, n - 1, before[j]));
                let i = choose|i: int|
                    0 <= i < n - 1 && (#[trigger] children[i]) is Some && (children[i]->0).name@
                        == before[j];
                assert(children[i] is Some);
            } else {
                assert(children[n - 1] is Some);
            }
        }
    }
}

/// A walk goes on with an entry that could be read unless its name is one of three, or
/// is that of the first directory on the way to a target of the detector that claims
/// the directory.
pub proof fn only_targets_are_pruned(ds: Seq<Detector>, matched: Option<usize>, c: Child)
    ensures
        walked_on(ds, matched, Some(c)) <==> {
            &&& c.name@ != ".git"@
            &&& c.name@ != "$RECYCLE.BIN"@
            &&& c.name@ != "System Volume Information"@
            &&& matched matches Some(m) ==> forall|i: int|
                0 <= i < ds[m as int].reclaimable@.len() && paths::parts(
                    (#[trigger] ds[m as int].reclaimable@[i]).path@,
                ).len() > 0 ==> part_text(
                    paths::parts(ds[m as int].reclaimable@[i].path@)[0],
                ) != c.name@
        },
        !walked_on(ds, matched, None),
{
}

} // verus!
