//! What the command line prints besides the report: the progress of a scan, and the
//! ecosystems that are known.
use crate::detector::Detector;
use crate::page;
use crate::paths;
use crate::paths::file_name;
use crate::scan::{Event, EventView, Progress};
use crate::text;
use crate::text::{join, push_clipped, push_decimal, push_left_aligned, push_line};
use vstd::prelude::*;
use vstd::string::*;

verus! {

/// What is known of a scan while it is going on.
#[derive(Debug)]
pub struct Watch {
    /// How many projects have been found.
    pub found: u64,
    /// What is being measured.
    pub current: String,
}

/// The content of a [`Watch`].
pub struct WatchView {
    pub found: u64,
    pub current: Seq<char>,
}

impl View for Watch {
    type V = WatchView;

    open spec fn view(&self) -> WatchView {
        WatchView { found: self.found, current: self.current@ }
    }
}

/// The name of what is being measured, so that a long pause on one directory is
/// explained.
pub open spec fn current_text(root: Seq<char>, ecosystem: Seq<char>) -> Seq<char> {
    (match paths::last_name(root) {
        Some(n) => n,
        None => Seq::empty(),
    }) + " ["@ + ecosystem + "]"@
}

/// The progress line.
pub open spec fn progress_text(w: WatchView, p: Progress) -> Seq<char> {
    "\r  "@ + text::decimal(p.dirs as nat) + " dirs · "@ + text::decimal(p.files as nat)
        + " files · "@ + text::decimal(w.found as nat) + " projects · "@ + text::clipped(
        w.current,
        40,
    ) + "   "@
}

impl WatchView {
    /// After an event.
    pub open spec fn after(self, e: EventView) -> WatchView {
        match e {
            EventView::Found { root, ecosystem } => WatchView {
                found: if self.found < u64::MAX {
                    (self.found + 1) as u64
                } else {
                    u64::MAX
                },
                current: current_text(root, ecosystem),
            },
            _ => self,
        }
    }
}

impl Watch {
    /// Starts with nothing found.
    pub fn new() -> (r: Self)
        ensures
            r@ == (WatchView { found: 0, current: Seq::empty() }),
    {
        let r = Watch { found: 0, current: String::new() };
        assert(r@.current =~= Seq::<char>::empty());
        r
    }

    /// Takes in an event. The line is only redrawn when the counts are passed on.
    pub fn on_event(&mut self, e: &Event) -> (r: Option<String>)
        ensures
            final(self)@ == old(self)@.after(e@),
            r is Some <==> e@ is Progress,
            r matches Some(t) ==> t@ == progress_text(old(self)@, e@->Progress_0),
    {
        match e {
            Event::Found { root, ecosystem } => {
                self.found = self.found.saturating_add(1);
                let mut s = match file_name(root.as_str()) {
                    Some(n) => n,
                    None => String::new(),
                };
                s.append(" [");
                s.append(ecosystem.as_str());
                s.append("]");
                assert(s@ =~= current_text(root@, ecosystem@));
                self.current = s;
                None
            },
            Event::Project(_) => None,
            Event::Progress(p) => {
                let mut r = String::new();
                r.append("\r  ");
                push_decimal(&mut r, p.dirs);
                r.append(" dirs · ");
                push_decimal(&mut r, p.files);
                r.append(" files · ");
                push_decimal(&mut r, self.found);
                r.append(" projects · ");
                push_clipped(&mut r, self.current.as_str(), 40);
                r.append("   ");
                assert(r@ =~= progress_text(self@, *p));
                Some(r)
            },
        }
    }
}

/// One ecosystem in the list.
pub open spec fn detector_text(d: Detector) -> Seq<char> {
    "  "@ + text::left_aligned(d.id@, 10) + " "@ + text::left_aligned(d.name@, 18) + " markers: "@
        + text::joined(text::texts(d.markers@), ", "@)
}

/// The list of the ecosystems that are known.
pub open spec fn detector_lines(ds: Seq<Detector>) -> Seq<Seq<char>> {
    seq![text::decimal(ds.len()) + " ecosystems supported:"@, Seq::<char>::empty()]
        + ds.map_values(|d: Detector| detector_text(d)) + seq![
        Seq::<char>::empty(),
        "Missing yours? Add detectors/<id>.toml — see CONTRIBUTING.md"@,
    ]
}

fn detector_line(d: &Detector) -> (r: String)
    ensures
        r@ == detector_text(*d),
{
    let mut r = String::new();
    r.append("  ");
    push_left_aligned(&mut r, d.id.as_str(), 10);
    r.append(" ");
    push_left_aligned(&mut r, d.name.as_str(), 18);
    r.append(" markers: ");
    r.append(join(&d.markers, ", ").as_str());
    assert(r@ =~= detector_text(*d));
    r
}

/// The list of the ecosystems that are known.
pub fn list_detectors(detectors: &Vec<Detector>) -> (r: Vec<String>)
    ensures
        text::texts(r@) == detector_lines(detectors@),
{
    let ghost each = detectors@.map_values(|d: Detector| detector_text(d));
    let mut first = String::new();
    push_decimal(&mut first, detectors.len() as u64);
    first.append(" ecosystems supported:");
    let ghost head = seq![
        text::decimal(detectors@.len()) + " ecosystems supported:"@,
        Seq::<char>::empty(),
    ];
    assert(first@ =~= head[0]);
    let mut r: Vec<String> = Vec::new();
    push_line(&mut r, first);
    push_line(&mut r, String::new());
    assert(text::texts(r@) =~= head + each.take(0));
    let mut i: usize = 0;
    while i < detectors.len()
        invariant
            i <= detectors@.len(),
            each == detectors@.map_values(|d: Detector| detector_text(d)),
            text::texts(r@) == head + each.take(i as int),
        decreases detectors@.len() - i,
    {
        let ghost before = text::texts(r@);
        push_line(&mut r, detector_line(&detectors[i]));
        proof {
            assert(each.take(i + 1) =~= each.take(i as int).push(each[i as int]));
            assert(head + each.take(i + 1) =~= before.push(each[i as int]));
        }
        i = i + 1;
    }
    assert(each.take(i as int) =~= each);
    let ghost before = text::texts(r@);
    push_line(&mut r, String::new());
    push_line(
        &mut r,
        "Missing yours? Add detectors/<id>.toml — see CONTRIBUTING.md".to_owned(),
    );
    assert(text::texts(r@) =~= before + seq![
        Seq::<char>::empty(),
        "Missing yours? Add detectors/<id>.toml — see CONTRIBUTING.md"@,
    ]);
    r
}

/// Every part stands in what they are joined to.
pub proof fn lemma_joined_shows(parts: Seq<Seq<char>>, sep: Seq<char>, k: int)
    requires
        0 <= k < parts.len(),
    ensures
        page::shows(text::joined(parts, sep), parts[k]),
    decreases parts.len(),
{
    let none = Seq::<char>::empty();
    let whole = text::joined(parts, sep);
    if parts.len() == 1 {
        assert(whole =~= none + parts[0] + none);
        page::lemma_shows(none, parts[0], none);
    } else {
        let front = text::joined(parts.drop_last(), sep);
        if k == parts.len() - 1 {
            assert(whole =~= (front + sep) + parts[k] + none);
            page::lemma_shows(front + sep, parts[k], none);
        } else {
            lemma_joined_shows(parts.drop_last(), sep, k);
            assert(parts.drop_last()[k] == parts[k]);
            assert(whole =~= none + front + (sep + parts.last()));
            page::lemma_still_shows(none, front, sep + parts.last(), parts[k]);
        }
    }
}

/// A line tells of an ecosystem: what it is called and everything that marks it.
pub open spec fn tells_of(line: Seq<char>, d: Detector) -> bool {
    &&& page::shows(line, d.id@)
    &&& page::shows(line, d.name@)
    &&& forall|k: int| 0 <= k < d.markers@.len() ==> page::shows(line, (#[trigger] d.markers@[k])@)
}

#[verifier::rlimit(40)]
#[verifier::spinoff_prover]
proof fn lemma_detector_text(d: Detector)
    ensures
        tells_of(detector_text(d), d),
{
    let line = detector_text(d);
    let id = text::left_aligned(d.id@, 10);
    let name = text::left_aligned(d.name@, 18);
    let marks = text::joined(text::texts(d.markers@), ", "@);
    let none = Seq::<char>::empty();
    let pad = id.skip(d.id@.len() as int);
    assert(id =~= none + d.id@ + pad);
    page::lemma_shows(none, d.id@, pad);
    let gap = name.skip(d.name@.len() as int);
    assert(name =~= none + d.name@ + gap);
    page::lemma_shows(none, d.name@, gap);
    let z1 = " "@ + name + " markers: "@ + marks;
    assert(line =~= "  "@ + id + z1);
    page::lemma_still_shows("  "@, id, z1, d.id@);
    let a2 = "  "@ + id + " "@;
    let z2 = " markers: "@ + marks;
    assert(line =~= a2 + name + z2);
    page::lemma_still_shows(a2, name, z2, d.name@);
    let a3 = a2 + name + " markers: "@;
    assert(line =~= a3 + marks + none);
    assert forall|k: int| 0 <= k < d.markers@.len() implies page::shows(
        line,
        (#[trigger] d.markers@[k])@,
    ) by {
        lemma_joined_shows(text::texts(d.markers@), ", "@, k);
        page::lemma_still_shows(a3, marks, none, d.markers@[k]@);
    }
}

/// Every ecosystem has a line in the list, in the order in which they are known, and the
/// list says how many there are.
pub proof fn every_ecosystem_is_listed(ds: Seq<Detector>, i: int)
    requires
        0 <= i < ds.len(),
    ensures
        detector_lines(ds).len() == ds.len() + 4,
        tells_of(detector_lines(ds)[2 + i], ds[i]),
        page::shows(detector_lines(ds)[0], text::decimal(ds.len())),
{
    let lines = detector_lines(ds);
    lemma_detector_text(ds[i]);
    assert(lines[2 + i] == detector_text(ds[i]));
    let n = text::decimal(ds.len());
    let none = Seq::<char>::empty();
    page::lemma_shows(none, n, " ecosystems supported:"@);
    assert(lines[0] =~= none + n + " ecosystems supported:"@);
}

/// Progress says how many directories and files have been seen and how many projects were
/// found, and names the one at hand, of which forty characters are shown.
pub proof fn progress_is_told(w: WatchView, p: Progress)
    ensures
        ({
            let line = progress_text(w, p);
            &&& page::shows(line, text::decimal(p.dirs as nat) + " dirs"@)
            &&& page::shows(line, text::decimal(p.files as nat) + " files"@)
            &&& page::shows(line, text::decimal(w.found as nat) + " projects"@)
            &&& w.current.len() <= 40 ==> page::shows(line, w.current)
            &&& w.current.len() > 40 ==> page::shows(line, w.current.take(40))
        }),
{
    reveal_strlit(" dirs · ");
    reveal_strlit(" files · ");
    reveal_strlit(" projects · ");
    reveal_strlit(" dirs");
    reveal_strlit(" files");
    reveal_strlit(" projects");
    reveal_strlit(" · ");
    assert(" dirs · "@ =~= " dirs"@ + " · "@);
    assert(" files · "@ =~= " files"@ + " · "@);
    assert(" projects · "@ =~= " projects"@ + " · "@);
    let d = text::decimal(p.dirs as nat);
    let f = text::decimal(p.files as nat);
    let n = text::decimal(w.found as nat);
    let c = text::clipped(w.current, 40);
    lemma_progress(d, f, n, c);
}

#[verifier::rlimit(40)]
#[verifier::spinoff_prover]
proof fn lemma_progress(d: Seq<char>, f: Seq<char>, n: Seq<char>, c: Seq<char>)
    ensures
        ({
            let line = "\r  "@ + d + (" dirs"@ + " · "@) + f + (" files"@ + " · "@) + n + (
            " projects"@ + " · "@) + c + "   "@;
            &&& page::shows(line, d + " dirs"@)
            &&& page::shows(line, f + " files"@)
            &&& page::shows(line, n + " projects"@)
            &&& page::shows(line, c)
        }),
{
    let s = " · "@;
    let line = "\r  "@ + d + (" dirs"@ + s) + f + (" files"@ + s) + n + (" projects"@ + s) + c
        + "   "@;
    let x = d + " dirs"@;
    let y = f + " files"@;
    let z = n + " projects"@;
    let tail = s + c + "   "@;
    let b1 = s + y + s + z + tail;
    assert(line =~= "\r  "@ + x + b1);
    page::lemma_shows("\r  "@, x, b1);
    let a2 = "\r  "@ + x + s;
    assert(line =~= a2 + y + (s + z + tail));
    page::lemma_shows(a2, y, s + z + tail);
    let a3 = a2 + y + s;
    assert(line =~= a3 + z + tail);
    page::lemma_shows(a3, z, tail);
    let a4 = a3 + z + s;
    assert(line =~= a4 + c + "   "@);
    page::lemma_shows(a4, c, "   "@);
}

/// Only a project that is found counts as one and is at hand then; nothing else changes
/// what is told.
pub proof fn only_what_is_found_counts(w: WatchView, e: EventView)
    requires
        w.found < u64::MAX,
    ensures
        match e {
            EventView::Found { root, ecosystem } => {
                &&& w.after(e).found == w.found + 1
                &&& page::shows(w.after(e).current, ecosystem)
                &&& paths::last_name(root) matches Some(n) ==> page::shows(
                    w.after(e).current,
                    n,
                )
            },
            _ => w.after(e) == w,
        },
{
    match e {
        EventView::Found { root, ecosystem } => {
            let n = match paths::last_name(root) {
                Some(n) => n,
                None => Seq::empty(),
            };
            let line = current_text(root, ecosystem);
            assert(line =~= Seq::<char>::empty() + n + (" ["@ + ecosystem + "]"@));
            page::lemma_shows(Seq::empty(), n, " ["@ + ecosystem + "]"@);
            page::lemma_shows(n + " ["@, ecosystem, "]"@);
        },
        _ => {},
    }
}

} // verus!
