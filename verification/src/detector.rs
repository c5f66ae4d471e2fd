//! Detectors describe *one ecosystem*: how to recognise a project and what is
//! safe to reclaim inside it.
//!
//! A detector is data, and it is data that strangers contribute. What it may say
//! is therefore checked here and not left to whoever reads it: every path it
//! names lies inside the project, no path contains another, and each comes with
//! the command that restores it.
use crate::paths;
use crate::paths::{components, is_absolute, is_within, Component};
use crate::text;
use crate::text::{chars_of, is_blank};
use vstd::prelude::*;
use vstd::string::*;

verus! {

/// A single reclaimable target inside a recognised project.
#[derive(Debug, Clone)]
pub struct Reclaimable {
    /// Path relative to the project root, such as `node_modules` or `.next/cache`.
    pub path: String,
    /// The command a user would run to regenerate this. Shown, never executed.
    pub restore_command: String,
    /// Rough wall-clock seconds to regenerate. Order of magnitude is the point.
    pub rebuild_seconds: u32,
    /// Skipped unless the user asks for aggressive targets.
    pub aggressive_only: bool,
}

/// One ecosystem.
#[derive(Debug, Clone)]
pub struct Detector {
    /// Stable machine id.
    pub id: String,
    /// Human label shown in output.
    pub name: String,
    /// A directory is a project of this kind if any marker exists at its root.
    pub markers: Vec<String>,
    /// What can be deleted, and what it costs to restore.
    pub reclaimable: Vec<Reclaimable>,
}

/// Why a single target is refused.
#[derive(Debug, Clone, Copy, PartialEq, Eq, Structural)]
pub enum Fault {
    Empty,
    Backslash,
    Absolute,
    Escapes,
    NoRestoreCommand,
}

/// Why a detector is refused.
#[derive(Debug)]
pub enum DetectorError {
    Malformed { id: String },
    IdMismatch { id: String, found: String },
    NoMarkers { id: String },
    NoTargets { id: String },
    BadTarget { id: String, path: String, fault: Fault },
    Overlap { id: String, first: String, second: String },
}

/// The content of a [`DetectorError`].
pub enum Refusal {
    Malformed { id: Seq<char> },
    IdMismatch { id: Seq<char>, found: Seq<char> },
    NoMarkers { id: Seq<char> },
    NoTargets { id: Seq<char> },
    BadTarget { id: Seq<char>, path: Seq<char>, fault: Fault },
    Overlap { id: Seq<char>, first: Seq<char>, second: Seq<char> },
}

impl View for DetectorError {
    type V = Refusal;

    open spec fn view(&self) -> Refusal {
        match self {
            DetectorError::Malformed { id } => Refusal::Malformed { id: id@ },
            DetectorError::IdMismatch { id, found } => Refusal::IdMismatch {
                id: id@,
                found: found@,
            },
            DetectorError::NoMarkers { id } => Refusal::NoMarkers { id: id@ },
            DetectorError::NoTargets { id } => Refusal::NoTargets { id: id@ },
            DetectorError::BadTarget { id, path, fault } => Refusal::BadTarget {
                id: id@,
                path: path@,
                fault: *fault,
            },
            DetectorError::Overlap { id, first, second } => Refusal::Overlap {
                id: id@,
                first: first@,
                second: second@,
            },
        }
    }
}

/// The words of a refusal.
pub open spec fn refusal_text(r: Refusal) -> Seq<char> {
    match r {
        Refusal::Malformed { id } => "detector '"@ + id + "' is not valid TOML"@,
        Refusal::IdMismatch { id, found } => "detector '"@ + id + "': `id` field is '"@ + found
            + "', must match the filename"@,
        Refusal::NoMarkers { id } => "detector '"@ + id + "': needs at least one marker"@,
        Refusal::NoTargets { id } => "detector '"@ + id
            + "': needs at least one reclaimable target"@,
        Refusal::BadTarget { id, path, fault } => match fault {
            Fault::Empty => "detector '"@ + id + "': empty reclaimable path"@,
            Fault::Backslash => "detector '"@ + id + "': path '"@ + path
                + "' uses backslashes; separate with '/' on every platform"@,
            Fault::Absolute => "detector '"@ + id + "': path '"@ + path
                + "' is absolute; paths are relative to the project root"@,
            Fault::Escapes => "detector '"@ + id + "': path '"@ + path
                + "' must stay inside the project — no '..', no root, no drive prefix"@,
            Fault::NoRestoreCommand => "detector '"@ + id + "': path '"@ + path
                + "' has no restore_command; if it cannot be regenerated by a stated command it is not reclaimable"@,
        },
        Refusal::Overlap { id, first, second } => "detector '"@ + id + "': paths '"@ + first
            + "' and '"@ + second + "' overlap; one contains the other"@,
    }
}

impl DetectorError {
    /// What to tell whoever contributed the detector.
    pub fn message(&self) -> (r: String)
        ensures
            r@ == refusal_text(self@),
    {
        let mut r = String::new();
        r.append("detector '");
        match self {
            DetectorError::Malformed { id } => {
                r.append(id.as_str());
                r.append("' is not valid TOML");
            },
            DetectorError::IdMismatch { id, found } => {
                r.append(id.as_str());
                r.append("': `id` field is '");
                r.append(found.as_str());
                r.append("', must match the filename");
            },
            DetectorError::NoMarkers { id } => {
                r.append(id.as_str());
                r.append("': needs at least one marker");
            },
            DetectorError::NoTargets { id } => {
                r.append(id.as_str());
                r.append("': needs at least one reclaimable target");
            },
            DetectorError::BadTarget { id, path, fault } => {
                r.append(id.as_str());
                match fault {
                    Fault::Empty => {
                        r.append("': empty reclaimable path");
                    },
                    Fault::Backslash => {
                        r.append("': path '");
                        r.append(path.as_str());
                        r.append("' uses backslashes; separate with '/' on every platform");
                    },
                    Fault::Absolute => {
                        r.append("': path '");
                        r.append(path.as_str());
                        r.append("' is absolute; paths are relative to the project root");
                    },
                    Fault::Escapes => {
                        r.append("': path '");
                        r.append(path.as_str());
                        r.append(
                            "' must stay inside the project — no '..', no root, no drive prefix",
                        );
                    },
                    Fault::NoRestoreCommand => {
                        r.append("': path '");
                        r.append(path.as_str());
                        r.append(
                            "' has no restore_command; if it cannot be regenerated by a stated command it is not reclaimable",
                        );
                    },
                }
            },
            DetectorError::Overlap { id, first, second } => {
                r.append(id.as_str());
                r.append("': paths '");
                r.append(first.as_str());
                r.append("' and '");
                r.append(second.as_str());
                r.append("' overlap; one contains the other");
            },
        }
        assert(r@ =~= refusal_text(self@));
        r
    }
}

/// A letter and a colon in front, which names a drive on some platforms.
pub open spec fn drive_prefix(p: Seq<char>) -> bool {
    p.len() >= 2 && p[1] == ':' && (('a' as u32) <= (p[0] as u32) <= ('z' as u32) || ('A' as u32)
        <= (p[0] as u32) <= ('Z' as u32))
}

/// Starts at the root of the filesystem or of a drive.
pub open spec fn rooted(p: Seq<char>) -> bool {
    paths::absolute(p) || (drive_prefix(p) && p.len() >= 3 && p[2] == '/')
}

/// Every part is a plain name.
pub open spec fn all_names(p: Seq<paths::Part>) -> bool {
    forall|i: int| 0 <= i < p.len() ==> #[trigger] p[i] is Name
}

/// What is wrong with a target, if anything is. The first fault counts.
pub open spec fn target_fault(path: Seq<char>, command: Seq<char>) -> Option<Fault> {
    if text::blank(path) {
        Some(Fault::Empty)
    } else if path.contains('\\') {
        Some(Fault::Backslash)
    } else if rooted(path) {
        Some(Fault::Absolute)
    } else if drive_prefix(path) || !all_names(paths::parts(path)) {
        Some(Fault::Escapes)
    } else if text::blank(command) {
        Some(Fault::NoRestoreCommand)
    } else {
        None
    }
}

/// One of two paths contains the other, or they are the same.
pub open spec fn overlapping(a: Seq<char>, b: Seq<char>) -> bool {
    paths::within(a, b) || paths::within(b, a)
}

/// The first faulty target from `i` on.
pub open spec fn first_fault(id: Seq<char>, rs: Seq<Reclaimable>, i: int) -> Option<Refusal>
    decreases rs.len() - i,
{
    if i >= rs.len() {
        None
    } else {
        match target_fault(rs[i].path@, rs[i].restore_command@) {
            Some(fault) => Some(Refusal::BadTarget { id, path: rs[i].path@, fault }),
            None => first_fault(id, rs, i + 1),
        }
    }
}

/// The first target from `j` on that overlaps with target `i`.
pub open spec fn first_overlap_with(
    id: Seq<char>,
    rs: Seq<Reclaimable>,
    i: int,
    j: int,
) -> Option<Refusal>
    decreases rs.len() - j,
{
    if j >= rs.len() {
        None
    } else if overlapping(rs[i].path@, rs[j].path@) {
        Some(Refusal::Overlap { id, first: rs[i].path@, second: rs[j].path@ })
    } else {
        first_overlap_with(id, rs, i, j + 1)
    }
}

/// The first pair of overlapping targets whose earlier one is at `i` or later.
pub open spec fn first_overlap(id: Seq<char>, rs: Seq<Reclaimable>, i: int) -> Option<Refusal>
    decreases rs.len() - i,
{
    if i >= rs.len() {
        None
    } else {
        match first_overlap_with(id, rs, i, i + 1) {
            Some(f) => Some(f),
            None => first_overlap(id, rs, i + 1),
        }
    }
}

/// What is wrong with the paths of a detector, if anything is. A faulty target
/// comes before an overlap.
pub open spec fn paths_refusal(d: Detector) -> Option<Refusal> {
    match first_fault(d.id@, d.reclaimable@, 0) {
        Some(f) => Some(f),
        None => first_overlap(d.id@, d.reclaimable@, 0),
    }
}

/// What is wrong with a detector that was read under `id`, if anything is.
pub open spec fn refusal(id: Seq<char>, d: Option<Detector>) -> Option<Refusal> {
    match d {
        None => Some(Refusal::Malformed { id }),
        Some(d) => if d.id@ != id {
            Some(Refusal::IdMismatch { id, found: d.id@ })
        } else if d.markers@.len() == 0 {
            Some(Refusal::NoMarkers { id })
        } else if d.reclaimable@.len() == 0 {
            Some(Refusal::NoTargets { id })
        } else {
            paths_refusal(d)
        },
    }
}

/// One of the markers of a detector has this name.
pub open spec fn marks(d: Detector, name: Seq<char>) -> bool {
    exists|i: int| 0 <= i < d.markers@.len() && #[trigger] d.markers@[i]@ == name
}

/// One of the names is that of a marker.
pub open spec fn claims(d: Detector, names: Seq<Seq<char>>) -> bool {
    exists|j: int| 0 <= j < names.len() && marks(d, #[trigger] names[j])
}

impl Detector {
    /// Does a directory that holds entries of these names look like a project of
    /// this ecosystem?
    pub fn matches(&self, names: &Vec<String>) -> (r: bool)
        ensures
            r == claims(*self, text::texts(names@)),
    {
        let mut i: usize = 0;
        while i < self.markers.len()
            invariant
                i <= self.markers@.len(),
                forall|a: int, b: int|
                    0 <= a < i && 0 <= b < names@.len() ==> #[trigger] self.markers@[a]@
                        != #[trigger] names@[b]@,
            decreases self.markers@.len() - i,
        {
            let mut j: usize = 0;
            while j < names.len()
                invariant
                    i < self.markers@.len(),
                    j <= names@.len(),
                    forall|b: int| 0 <= b < j ==> self.markers@[i as int]@ != #[trigger] names@[b]@,
                decreases names@.len() - j,
            {
                if self.markers[i] == names[j] {
                    assert(text::texts(names@)[j as int] == self.markers@[i as int]@);
                    return true;
                }
                j = j + 1;
            }
            i = i + 1;
        }
        assert forall|j: int| 0 <= j < text::texts(names@).len() implies !marks(
            *self,
            #[trigger] text::texts(names@)[j],
        ) by {
            assert(text::texts(names@)[j] == names@[j]@);
        }
        false
    }
}

fn has_drive_prefix(v: &Vec<char>) -> (r: bool)
    ensures
        r == drive_prefix(v@),
{
    v.len() >= 2 && v[1] == ':' && (('a' as u32 <= v[0] as u32 && v[0] as u32 <= 'z' as u32) || (
    'A' as u32 <= v[0] as u32 && v[0] as u32 <= 'Z' as u32))
}

fn check_target(path: &str, command: &str) -> (r: Option<Fault>)
    ensures
        r == target_fault(path@, command@),
{
    if is_blank(path) {
        return Some(Fault::Empty);
    }
    let v = chars_of(path);
    let mut i: usize = 0;
    while i < v.len()
        invariant
            i <= v@.len(),
            v@ == path@,
            !text::blank(path@),
            forall|k: int| 0 <= k < i ==> v@[k] != '\\',
        decreases v@.len() - i,
    {
        if v[i] == '\\' {
            assert(path@.contains('\\'));
            return Some(Fault::Backslash);
        }
        i = i + 1;
    }
    let drive = has_drive_prefix(&v);
    if is_absolute(path) || (drive && v.len() >= 3 && v[2] == '/') {
        return Some(Fault::Absolute);
    }
    if drive {
        return Some(Fault::Escapes);
    }
    let c = components(path);
    let mut i: usize = 0;
    while i < c.len()
        invariant
            i <= c@.len(),
            paths::views(c@) == paths::parts(path@),
            !text::blank(path@),
            !path@.contains('\\'),
            !rooted(path@),
            !drive_prefix(path@),
            forall|k: int| 0 <= k < i ==> #[trigger] paths::parts(path@)[k] is Name,
        decreases c@.len() - i,
    {
        assert(paths::views(c@)[i as int] == c@[i as int]@);
        match &c[i] {
            Component::Name(_) => {},
            _ => {
                assert(!(paths::parts(path@)[i as int] is Name));
                return Some(Fault::Escapes);
            },
        }
        i = i + 1;
    }
    if is_blank(command) {
        return Some(Fault::NoRestoreCommand);
    }
    None
}

/// Enforces that a detector can only name things inside a project, each with the
/// command that restores it and none inside another.
pub fn validate_paths(d: &Detector) -> (r: Result<(), DetectorError>)
    ensures
        r is Ok <==> paths_refusal(*d) is None,
        r matches Err(e) ==> paths_refusal(*d) == Some(e@),
{
    let mut i: usize = 0;
    while i < d.reclaimable.len()
        invariant
            i <= d.reclaimable@.len(),
            first_fault(d.id@, d.reclaimable@, 0) == first_fault(d.id@, d.reclaimable@, i as int),
        decreases d.reclaimable@.len() - i,
    {
        let t = &d.reclaimable[i];
        match check_target(t.path.as_str(), t.restore_command.as_str()) {
            Some(fault) => {
                return Err(
                    DetectorError::BadTarget { id: d.id.clone(), path: t.path.clone(), fault },
                );
            },
            None => {},
        }
        i = i + 1;
    }
    let mut i: usize = 0;
    while i < d.reclaimable.len()
        invariant
            i <= d.reclaimable@.len(),
            first_fault(d.id@, d.reclaimable@, 0) is None,
            first_overlap(d.id@, d.reclaimable@, 0) == first_overlap(
                d.id@,
                d.reclaimable@,
                i as int,
            ),
        decreases d.reclaimable@.len() - i,
    {
        let a = &d.reclaimable[i];
        let mut j: usize = i + 1;
        while j < d.reclaimable.len()
            invariant
                i < j <= d.reclaimable@.len(),
                *a == d.reclaimable@[i as int],
                first_fault(d.id@, d.reclaimable@, 0) is None,
                first_overlap(d.id@, d.reclaimable@, 0) == first_overlap(
                    d.id@,
                    d.reclaimable@,
                    i as int,
                ),
                first_overlap_with(d.id@, d.reclaimable@, i as int, i + 1) == first_overlap_with(
                    d.id@,
                    d.reclaimable@,
                    i as int,
                    j as int,
                ),
            decreases d.reclaimable@.len() - j,
        {
            let b = &d.reclaimable[j];
            if is_within(a.path.as_str(), b.path.as_str()) || is_within(
                b.path.as_str(),
                a.path.as_str(),
            ) {
                return Err(
                    DetectorError::Overlap {
                        id: d.id.clone(),
                        first: a.path.clone(),
                        second: b.path.clone(),
                    },
                );
            }
            j = j + 1;
        }
        i = i + 1;
    }
    Ok(())
}

/// Checks one detector that was read under `id`. `None` stands for data that
/// could not be read as a detector at all.
pub fn check_detector(id: &String, d: Option<Detector>) -> (r: Result<Detector, DetectorError>)
    ensures
        r is Ok <==> refusal(id@, d) is None,
        r matches Ok(found) ==> d == Some(found),
        r matches Err(e) ==> refusal(id@, d) == Some(e@),
{
    match d {
        None => Err(DetectorError::Malformed { id: id.clone() }),
        Some(d) => {
            if d.id != *id {
                return Err(DetectorError::IdMismatch { id: id.clone(), found: d.id.clone() });
            }
            if d.markers.len() == 0 {
                return Err(DetectorError::NoMarkers { id: id.clone() });
            }
            if d.reclaimable.len() == 0 {
                return Err(DetectorError::NoTargets { id: id.clone() });
            }
            match validate_paths(&d) {
                Ok(()) => Ok(d),
                Err(e) => Err(e),
            }
        },
    }
}

/// The first detector of a list that is refused, from `i` on.
pub open spec fn first_refusal(
    bundle: Seq<(String, Option<Detector>)>,
    i: int,
) -> Option<Refusal>
    decreases bundle.len() - i,
{
    if i >= bundle.len() {
        None
    } else {
        match refusal(bundle[i].0@, bundle[i].1) {
            Some(f) => Some(f),
            None => first_refusal(bundle, i + 1),
        }
    }
}

/// Checks every bundled detector, in order. One that is refused refuses them all,
/// so that a bad contribution fails loudly.
pub fn load_builtin(bundle: Vec<(String, Option<Detector>)>) -> (r: Result<
    Vec<Detector>,
    DetectorError,
>)
    ensures
        r is Ok <==> first_refusal(bundle@, 0) is None,
        r matches Ok(ds) ==> ds@.len() == bundle@.len() && forall|i: int|
            0 <= i < ds@.len() ==> bundle@[i].1 == Some(#[trigger] ds@[i]),
        r matches Err(e) ==> first_refusal(bundle@, 0) == Some(e@),
{
    let ghost all = bundle@;
    let mut ds: Vec<Detector> = Vec::new();
    for entry in it: bundle
        invariant
            it.seq() == all,
            ds@.len() == it.index(),
            forall|k: int| 0 <= k < ds@.len() ==> all[k].1 == Some(#[trigger] ds@[k]),
            first_refusal(all, 0) == first_refusal(all, it.index()),
    {
        let (id, d) = entry;
        match check_detector(&id, d) {
            Ok(found) => ds.push(found),
            Err(e) => return Err(e),
        }
    }
    Ok(ds)
}

proof fn lemma_no_fault(id: Seq<char>, rs: Seq<Reclaimable>, i: int, k: int)
    requires
        first_fault(id, rs, i) is None,
        0 <= i <= k < rs.len(),
    ensures
        target_fault(rs[k].path@, rs[k].restore_command@) is None,
    decreases k - i,
{
    if i < k {
        lemma_no_fault(id, rs, i + 1, k);
    }
}

proof fn lemma_no_overlap_with(id: Seq<char>, rs: Seq<Reclaimable>, i: int, j: int, k: int)
    requires
        first_overlap_with(id, rs, i, j) is None,
        0 <= j <= k < rs.len(),
    ensures
        !overlapping(rs[i].path@, rs[k].path@),
    decreases k - j,
{
    if j < k {
        lemma_no_overlap_with(id, rs, i, j + 1, k);
    }
}

proof fn lemma_no_overlap(id: Seq<char>, rs: Seq<Reclaimable>, from: int, i: int, k: int)
    requires
        first_overlap(id, rs, from) is None,
        0 <= from <= i < k < rs.len(),
    ensures
        !overlapping(rs[i].path@, rs[k].path@),
    decreases i - from,
{
    if from < i {
        lemma_no_overlap(id, rs, from + 1, i, k);
    } else {
        lemma_no_overlap_with(id, rs, i, i + 1, k);
    }
}

/// Every target of an accepted detector lies strictly inside whatever directory
/// it is joined to: its parts are those of the directory and then at least one
/// name, with no way up and no fresh start.
pub proof fn accepted_targets_stay_inside(d: Detector, k: int, root: Seq<char>)
    requires
        paths_refusal(d) is None,
        0 <= k < d.reclaimable@.len(),
    ensures
        ({
            let path = d.reclaimable@[k].path@;
            let place = paths::joined_path(root, path);
            &&& paths::parts(place) == paths::parts(root) + paths::parts(path)
            &&& paths::parts(path).len() > 0
            &&& all_names(paths::parts(path))
            &&& paths::within(place, root)
            &&& !paths::same_place(place, root)
        }),
{
    lemma_no_fault(d.id@, d.reclaimable@, 0, k);
    let path = d.reclaimable@[k].path@;
    let p = paths::parts(path);
    assert(path.len() > 0);
    if paths::head_parts(path).len() > 0 {
        assert(p[0] == paths::head_parts(path)[0]);
        assert(!(p[0] is Name));
    }
    paths::lemma_first_slash(path);
    paths::parts_of_joined(root, path);
    let r = paths::parts(root);
    let place = paths::joined_path(root, path);
    assert(p =~= paths::tail_parts(path));
    let first = path.take(paths::first_slash(path) as int);
    if first == seq!['.'] {
        assert(first.len() == 1 && first[0] == path[0]);
        assert(paths::head_parts(path).len() > 0);
    }
    assert(p.len() > 0);
    assert((r + p).take(r.len() as int) =~= r);
    assert((r + p).len() > r.len());
}

/// No target of an accepted detector contains another, so no byte is counted
/// twice and no deletion makes another fail.
pub proof fn accepted_targets_are_apart(d: Detector, i: int, k: int)
    requires
        paths_refusal(d) is None,
        0 <= i < k < d.reclaimable@.len(),
    ensures
        !overlapping(d.reclaimable@[i].path@, d.reclaimable@[k].path@),
{
    lemma_no_overlap(d.id@, d.reclaimable@, 0, i, k);
}

/// Every target of an accepted detector states how to get it back.
pub proof fn accepted_targets_can_be_restored(d: Detector, k: int)
    requires
        paths_refusal(d) is None,
        0 <= k < d.reclaimable@.len(),
    ensures
        !text::blank(d.reclaimable@[k].restore_command@),
{
    lemma_no_fault(d.id@, d.reclaimable@, 0, k);
}

/// Two paths part ways: at some place, before either ends, they have different parts.
pub open spec fn part_ways(a: Seq<char>, b: Seq<char>) -> bool {
    exists|x: int|
        0 <= x < paths::parts(a).len() && x < paths::parts(b).len() && #[trigger] paths::parts(a)[x]
            != paths::parts(b)[x]
}

/// Paths overlap or part ways, and never both.
pub proof fn paths_overlap_or_part_ways(a: Seq<char>, b: Seq<char>)
    ensures
        overlapping(a, b) <==> paths::parts(a).is_prefix_of(paths::parts(b)) || paths::parts(
            b,
        ).is_prefix_of(paths::parts(a)),
        overlapping(a, b) <==> !part_ways(a, b),
{
    let p = paths::parts(a);
    let q = paths::parts(b);
    if paths::within(a, b) {
        assert(q =~= p.subrange(0, q.len() as int));
        assert(q.is_prefix_of(p));
        assert forall|x: int| 0 <= x < p.len() && x < q.len() implies #[trigger] p[x] == q[x] by {
            assert(p.take(q.len() as int)[x] == q[x]);
        }
    }
    if paths::within(b, a) {
        assert(p =~= q.subrange(0, p.len() as int));
        assert(p.is_prefix_of(q));
        assert forall|x: int| 0 <= x < p.len() && x < q.len() implies #[trigger] p[x] == q[x] by {
            assert(q.take(p.len() as int)[x] == p[x]);
        }
    }
    if q.is_prefix_of(p) {
        assert(p.take(q.len() as int) =~= q);
    }
    if p.is_prefix_of(q) {
        assert(q.take(p.len() as int) =~= p);
    }
    if !part_ways(a, b) {
        if p.len() <= q.len() {
            assert(q.take(p.len() as int) =~= p);
        } else {
            assert(p.take(q.len() as int) =~= q);
        }
    }
}

/// A target that says nothing wrong: something is named, by names alone and without a
/// backslash or a drive, and there is a command.
pub open spec fn sound_target(r: Reclaimable) -> bool {
    let p = r.path@;
    &&& !text::blank(p)
    &&& !text::blank(r.restore_command@)
    &&& forall|i: int| 0 <= i < p.len() ==> #[trigger] p[i] != '\\'
    &&& forall|x: int| 0 <= x < paths::parts(p).len() ==> #[trigger] paths::parts(p)[x] is Name
    &&& !(p.len() >= 2 && p[1] == ':' && ('a' as u32 <= p[0] as u32 <= 'z' as u32 || 'A' as u32
        <= p[0] as u32 <= 'Z' as u32))
}

proof fn lemma_sound_target(r: Reclaimable)
    ensures
        target_fault(r.path@, r.restore_command@) is None <==> sound_target(r),
{
    let p = r.path@;
    if p.contains('\\') {
        let i = choose|i: int| 0 <= i < p.len() && p[i] == '\\';
        assert(p[i] == '\\');
    }
    if paths::absolute(p) {
        assert(paths::parts(p)[0] == paths::Part::Root);
    }
    if sound_target(r) {
        assert(all_names(paths::parts(p)));
    }
}

proof fn lemma_first_fault(id: Seq<char>, rs: Seq<Reclaimable>, i: int)
    requires
        0 <= i,
    ensures
        match first_fault(id, rs, i) {
            Some(f) => exists|k: int|
                i <= k < rs.len() && !sound_target(#[trigger] rs[k]) && f == (Refusal::BadTarget {
                    id,
                    path: rs[k].path@,
                    fault: target_fault(rs[k].path@, rs[k].restore_command@)->0,
                }) && forall|l: int| i <= l < k ==> sound_target(#[trigger] rs[l]),
            None => forall|k: int| i <= k < rs.len() ==> sound_target(#[trigger] rs[k]),
        },
    decreases rs.len() - i,
{
    if i < rs.len() {
        lemma_sound_target(rs[i]);
        lemma_first_fault(id, rs, i + 1);
        if sound_target(rs[i]) && first_fault(id, rs, i + 1) is Some {
            let f = first_fault(id, rs, i + 1)->0;
            let k = choose|k: int|
                i + 1 <= k < rs.len() && !sound_target(#[trigger] rs[k]) && f == (
                Refusal::BadTarget {
                    id,
                    path: rs[k].path@,
                    fault: target_fault(rs[k].path@, rs[k].restore_command@)->0,
                }) && forall|l: int| i + 1 <= l < k ==> sound_target(#[trigger] rs[l]);
            assert(!sound_target(rs[k]));
        }
    }
}

proof fn lemma_first_overlap_with(id: Seq<char>, rs: Seq<Reclaimable>, i: int, j: int)
    requires
        0 <= i < rs.len(),
        0 <= j,
    ensures
        match first_overlap_with(id, rs, i, j) {
            Some(f) => exists|k: int|
                j <= k < rs.len() && !part_ways(rs[i].path@, (#[trigger] rs[k]).path@) && f == (
                Refusal::Overlap { id, first: rs[i].path@, second: rs[k].path@ }),
            None => forall|k: int|
                j <= k < rs.len() ==> part_ways(rs[i].path@, (#[trigger] rs[k]).path@),
        },
    decreases rs.len() - j,
{
    if j < rs.len() {
        paths_overlap_or_part_ways(rs[i].path@, rs[j].path@);
        lemma_first_overlap_with(id, rs, i, j + 1);
    }
}

/// Some two targets, the earlier at `from` or later, overlap, and this is said of them.
spec fn overlap_found(id: Seq<char>, rs: Seq<Reclaimable>, from: int, f: Refusal) -> bool {
    exists|i: int, k: int|
        from <= i < k < rs.len() && !part_ways(
            (#[trigger] rs[i]).path@,
            (#[trigger] rs[k]).path@,
        ) && f == (Refusal::Overlap { id, first: rs[i].path@, second: rs[k].path@ })
}

proof fn lemma_first_overlap(id: Seq<char>, rs: Seq<Reclaimable>, from: int)
    requires
        0 <= from,
    ensures
        match first_overlap(id, rs, from) {
            Some(f) => overlap_found(id, rs, from, f),
            None => forall|i: int, k: int|
                from <= i < k < rs.len() ==> part_ways(
                    (#[trigger] rs[i]).path@,
                    (#[trigger] rs[k]).path@,
                ),
        },
    decreases rs.len() - from,
{
    if from < rs.len() {
        lemma_first_overlap_with(id, rs, from, from + 1);
        lemma_first_overlap(id, rs, from + 1);
        if let Some(f) = first_overlap_with(id, rs, from, from + 1) {
            let k = choose|k: int|
                from + 1 <= k < rs.len() && !part_ways(
                    rs[from].path@,
                    (#[trigger] rs[k]).path@,
                ) && f == (Refusal::Overlap { id, first: rs[from].path@, second: rs[k].path@ });
            assert(overlap_found(id, rs, from, f));
        } else if let Some(f) = first_overlap(id, rs, from + 1) {
            assert(overlap_found(id, rs, from + 1, f));
            assert(overlap_found(id, rs, from, f));
        }
    }
}

/// Exactly the detectors are accepted that were read under their own name, have a
/// marker and a target, and whose targets are sound and part ways two by two.
pub proof fn what_is_sound_is_accepted(id: Seq<char>, d: Detector)
    ensures
        refusal(id, Some(d)) is None <==> {
            &&& d.id@ == id
            &&& d.markers@.len() > 0
            &&& d.reclaimable@.len() > 0
            &&& forall|k: int|
                0 <= k < d.reclaimable@.len() ==> sound_target(#[trigger] d.reclaimable@[k])
            &&& forall|i: int, k: int|
                0 <= i < k < d.reclaimable@.len() ==> part_ways(
                    (#[trigger] d.reclaimable@[i]).path@,
                    (#[trigger] d.reclaimable@[k]).path@,
                )
        },
        refusal(id, None) is Some,
{
    lemma_first_fault(d.id@, d.reclaimable@, 0);
    lemma_first_overlap(d.id@, d.reclaimable@, 0);
}

/// A detector is only refused for an overlap where all of its targets are sound and one
/// of the two that are named contains the other.
pub proof fn only_overlaps_are_called_overlaps(id: Seq<char>, d: Detector)
    requires
        refusal(id, Some(d)) is Some,
        refusal(id, Some(d))->0 is Overlap,
    ensures
        exists|i: int, k: int|
            0 <= i < k < d.reclaimable@.len() && !part_ways(
                (#[trigger] d.reclaimable@[i]).path@,
                (#[trigger] d.reclaimable@[k]).path@,
            ) && refusal(id, Some(d))->0 == (Refusal::Overlap {
                id,
                first: d.reclaimable@[i].path@,
                second: d.reclaimable@[k].path@,
            }),
        forall|k: int| 0 <= k < d.reclaimable@.len() ==> sound_target(#[trigger] d.reclaimable@[k]),
{
    lemma_first_fault(d.id@, d.reclaimable@, 0);
    lemma_first_overlap(d.id@, d.reclaimable@, 0);
    let f = refusal(id, Some(d))->0;
    assert(overlap_found(id, d.reclaimable@, 0, f));
}

/// The target that is refused is not sound, all before it are, and what is said of it
/// is true of it.
pub proof fn a_refused_target_has_the_fault(id: Seq<char>, d: Detector)
    requires
        refusal(id, Some(d)) is Some,
        refusal(id, Some(d))->0 is BadTarget,
    ensures
        exists|k: int|
            0 <= k < d.reclaimable@.len() && !sound_target(#[trigger] d.reclaimable@[k])
                && refusal(id, Some(d))->0->path == d.reclaimable@[k].path@ && (forall|l: int|
                0 <= l < k ==> sound_target(#[trigger] d.reclaimable@[l])) && {
                let p = d.reclaimable@[k].path@;
                match refusal(id, Some(d))->0->fault {
                    Fault::Empty => text::blank(p),
                    Fault::Backslash => p.contains('\\'),
                    Fault::Absolute => p[0] == '/' || (p.len() >= 3 && p[1] == ':' && p[2] == '/'),
                    Fault::Escapes => p[1] == ':' || exists|x: int|
                        0 <= x < paths::parts(p).len() && !(#[trigger] paths::parts(p)[x] is Name),
                    Fault::NoRestoreCommand => text::blank(d.reclaimable@[k].restore_command@),
                }
            },
{
    lemma_first_fault(d.id@, d.reclaimable@, 0);
    lemma_first_overlap(d.id@, d.reclaimable@, 0);
    let rs = d.reclaimable@;
    let f = first_fault(d.id@, rs, 0)->0;
    let k = choose|k: int|
        0 <= k < rs.len() && !sound_target(#[trigger] rs[k]) && f == (Refusal::BadTarget {
            id: d.id@,
            path: rs[k].path@,
            fault: target_fault(rs[k].path@, rs[k].restore_command@)->0,
        }) && forall|l: int| 0 <= l < k ==> sound_target(#[trigger] rs[l]);
    lemma_sound_target(rs[k]);
    assert(!sound_target(d.reclaimable@[k]));
}

/// A bundle is accepted exactly when every detector in it is.
pub proof fn one_bad_detector_refuses_the_bundle(
    bundle: Seq<(String, Option<Detector>)>,
    i: int,
)
    requires
        0 <= i,
    ensures
        first_refusal(bundle, i) is None <==> forall|k: int|
            i <= k < bundle.len() ==> refusal((#[trigger] bundle[k]).0@, bundle[k].1) is None,
    decreases bundle.len() - i,
{
    if i < bundle.len() {
        one_bad_detector_refuses_the_bundle(bundle, i + 1);
        if first_refusal(bundle, i) is None {
            assert forall|k: int| i <= k < bundle.len() implies refusal(
                (#[trigger] bundle[k]).0@,
                bundle[k].1,
            ) is None by {
                if k > i {
                    assert(first_refusal(bundle, i + 1) is None);
                }
            }
        }
    }
}

/// A detector claims a directory exactly when the directory holds an entry with the
/// name of one of its markers.
pub proof fn a_marker_is_what_claims(d: Detector, names: Seq<Seq<char>>)
    ensures
        claims(d, names) <==> exists|i: int, j: int|
            0 <= i < d.markers@.len() && 0 <= j < names.len() && (#[trigger] d.markers@[i])@
                == #[trigger] names[j],
{
    if claims(d, names) {
        let j = choose|j: int| 0 <= j < names.len() && marks(d, #[trigger] names[j]);
        let i = choose|i: int|
            0 <= i < d.markers@.len() && #[trigger] d.markers@[i]@ == names[j];
        assert(d.markers@[i]@ == names[j]);
    }
    if exists|i: int, j: int|
        0 <= i < d.markers@.len() && 0 <= j < names.len() && (#[trigger] d.markers@[i])@
            == #[trigger] names[j] {
        let (i, j) = choose|i: int, j: int|
            0 <= i < d.markers@.len() && 0 <= j < names.len() && (#[trigger] d.markers@[i])@
                == #[trigger] names[j];
        assert(marks(d, names[j]));
    }
}

} // verus!
