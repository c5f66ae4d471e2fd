//! Everything the interface decides, and nothing it draws.
//!
//! [`App`] holds the rows, the selection, the scroll position and the mode. The
//! safety rules hold here too: a row whose work is not backed up, or that has not
//! been measured, can never be selected, and what is handed over for deletion is
//! exactly what is selected.
use crate::binary64::Binary64;
use crate::chart;
use crate::chart::{break_even_at, draw, units, Bars, Units};
use crate::figures;
use crate::figures::bytes;
use crate::git::GitState;
use crate::paths;
use crate::paths::is_same_place;
use crate::ranking;
use crate::ranking::sum_of;
use crate::reclaim;
use crate::reclaim::{Doomed, DoomedView, Outcome};
use crate::scan;
use crate::scan::{Event, EventView, Progress, Project, ProjectView, Target, TargetView};
use crate::sorting;
use crate::text;
use crate::text::push_decimal;
use vstd::prelude::*;
use vstd::string::*;

verus! {

/// The bar field for decisions that must not shift when the window is resized:
/// where the break-even line falls.
pub const CUT_FIELD: usize = 16;

/// What the interface is doing right now.
#[derive(Debug, PartialEq, Eq)]
pub enum Mode {
    /// Nothing scanned yet.
    Idle,
    Scanning,
    Browsing,
    /// Showing exactly what is about to be deleted, waiting for a yes.
    Confirming,
    /// Deleting. Deliberately not interruptible.
    Reclaiming,
    Done(String),
    /// Key reference. Remembers where to go back to.
    Help(Box<Mode>),
}

impl Clone for Mode {
    fn clone(&self) -> (r: Self)
        ensures
            r == *self,
        decreases self,
    {
        match self {
            Mode::Idle => Mode::Idle,
            Mode::Scanning => Mode::Scanning,
            Mode::Browsing => Mode::Browsing,
            Mode::Confirming => Mode::Confirming,
            Mode::Reclaiming => Mode::Reclaiming,
            Mode::Done(s) => Mode::Done(s.clone()),
            Mode::Help(back) => Mode::Help(Box::new((**back).clone())),
        }
    }
}

/// One line in the list. A project contributes one row per reclaimable target,
/// because the decision is per directory.
#[derive(Debug, Clone)]
pub struct Row {
    pub project: Project,
    /// Index into `project.targets`, or `None` while the project has been
    /// recognised but not yet measured.
    pub target: Option<usize>,
    pub selected: bool,
}

/// The content of a [`Row`].
pub struct RowView {
    pub project: ProjectView,
    pub target: Option<usize>,
    pub selected: bool,
}

impl View for Row {
    type V = RowView;

    open spec fn view(&self) -> RowView {
        RowView { project: self.project@, target: self.target, selected: self.selected }
    }
}

/// The contents of a list of rows.
pub open spec fn row_views(v: Seq<Row>) -> Seq<RowView> {
    v.map_values(|r: Row| r@)
}

impl RowView {
    /// The target of the row, once it has been measured.
    pub open spec fn measured(self) -> Option<TargetView> {
        match self.target {
            Some(i) => if i < self.project.targets.len() {
                Some(self.project.targets[i as int])
            } else {
                None
            },
            None => None,
        }
    }

    /// Measured, and in a project whose work is backed up.
    pub open spec fn selectable(self) -> bool {
        self.project.git_state.safe() && self.measured() is Some
    }

    /// What the row returns.
    pub open spec fn bytes(self) -> u64 {
        match self.measured() {
            Some(t) => t.reclaimable(),
            None => 0,
        }
    }

    /// How long the row takes to rebuild.
    pub open spec fn seconds(self) -> u32 {
        match self.measured() {
            Some(t) => t.rebuild_seconds,
            None => 0,
        }
    }

    /// What the row is ranked by.
    pub open spec fn efficiency(self) -> Binary64 {
        match self.measured() {
            Some(t) => t.efficiency(),
            None => Binary64::Zero,
        }
    }

    /// Measured before not yet measured, then backed up before not, then by what
    /// is returned per second.
    pub open spec fn key(self) -> u128 {
        ((if self.measured() is Some {
            0x2_0000_0000_0000_0000int
        } else {
            0int
        }) + (if self.project.git_state.safe() {
            0x1_0000_0000_0000_0000int
        } else {
            0int
        }) + self.efficiency().bits()) as u128
    }
}

impl Row {
    /// The target of the row, once it has been measured.
    pub fn measured(&self) -> (r: Option<&Target>)
        ensures
            r is Some <==> self@.measured() is Some,
            r matches Some(t) ==> self@.measured() == Some(t@),
    {
        match self.target {
            Some(i) => if i < self.project.targets.len() {
                Some(&self.project.targets[i])
            } else {
                None
            },
            None => None,
        }
    }

    /// Whether the row may be selected. Work that is not backed up is visible but
    /// untouchable, and a row without a known size is refused too.
    pub fn selectable(&self) -> (r: bool)
        ensures
            r == self@.selectable(),
    {
        self.project.git_state.is_safe_to_reclaim() && self.measured().is_some()
    }

    /// What the row returns, nothing while it is not measured.
    pub fn reclaimable_bytes(&self) -> (r: u64)
        ensures
            r == self@.bytes(),
    {
        match self.measured() {
            Some(t) => t.reclaimable_bytes(),
            None => 0,
        }
    }

    /// How long the row takes to rebuild, nothing while it is not measured.
    pub fn rebuild_seconds(&self) -> (r: u32)
        ensures
            r == self@.seconds(),
    {
        match self.measured() {
            Some(t) => t.rebuild_seconds,
            None => 0,
        }
    }

    /// What the row is ranked by, zero while it is not measured.
    pub fn efficiency(&self) -> (r: Binary64)
        ensures
            r == self@.efficiency(),
            r.valid(),
    {
        match self.measured() {
            Some(t) => t.efficiency(),
            None => Binary64::Zero,
        }
    }

    fn key(&self) -> (r: u128)
        ensures
            r == self@.key(),
    {
        let m: u128 = if self.measured().is_some() {
            0x2_0000_0000_0000_0000
        } else {
            0
        };
        let s: u128 = if self.project.git_state.is_safe_to_reclaim() {
            0x1_0000_0000_0000_0000
        } else {
            0
        };
        m + s + self.efficiency().to_bits() as u128
    }
}

/// The interface. The rate is the bit pattern of the megabytes per second at which
/// reclaiming breaks even.
#[derive(Debug)]
pub struct App {
    pub mode: Mode,
    pub rows: Vec<Row>,
    pub cursor: usize,
    /// First visible row.
    pub offset: usize,
    pub progress: Progress,
    pub roots: Vec<String>,
    pub worth_rate: u64,
    /// Show rows below break-even. Off by default.
    pub show_below: bool,
    pub quit: bool,
    /// Rows visible at once.
    pub viewport: usize,
}

/// The content of an [`App`].
pub struct AppView {
    pub mode: Mode,
    pub rows: Seq<RowView>,
    pub cursor: usize,
    pub offset: usize,
    pub progress: Progress,
    pub roots: Seq<Seq<char>>,
    pub worth_rate: u64,
    pub show_below: bool,
    pub quit: bool,
    pub viewport: usize,
}

impl View for App {
    type V = AppView;

    open spec fn view(&self) -> AppView {
        AppView {
            mode: self.mode,
            rows: row_views(self.rows@),
            cursor: self.cursor,
            offset: self.offset,
            progress: self.progress,
            roots: text::texts(self.roots@),
            worth_rate: self.worth_rate,
            show_below: self.show_below,
            quit: self.quit,
            viewport: self.viewport,
        }
    }
}

/// Those of the first `n` indices that a test holds for.
pub open spec fn which(test: spec_fn(int) -> bool, n: int) -> Seq<int>
    decreases n,
{
    if n <= 0 {
        Seq::empty()
    } else if test(n - 1) {
        which(test, n - 1).push(n - 1)
    } else {
        which(test, n - 1)
    }
}

/// The rows at some indices.
pub open spec fn rows_at(rows: Seq<RowView>, at: Seq<int>) -> Seq<RowView> {
    at.map_values(|i: int| rows[i])
}

/// Holds for a row that can be reclaimed.
pub open spec fn is_selectable(rows: Seq<RowView>) -> spec_fn(int) -> bool {
    |i: int| rows[i].selectable()
}

/// Holds for a row whose work is not backed up.
pub open spec fn is_blocked(rows: Seq<RowView>) -> spec_fn(int) -> bool {
    |i: int| !rows[i].project.git_state.safe()
}

/// Holds for a row that is selected.
pub open spec fn is_selected(rows: Seq<RowView>) -> spec_fn(int) -> bool {
    |i: int| rows[i].selected
}

/// The rows that can be reclaimed.
pub open spec fn eligible(rows: Seq<RowView>) -> Seq<RowView> {
    rows_at(rows, which(is_selectable(rows), rows.len() as int))
}

/// The rows whose work is not backed up.
pub open spec fn blocked(rows: Seq<RowView>) -> Seq<RowView> {
    rows_at(rows, which(is_blocked(rows), rows.len() as int))
}

/// The rows that are selected.
pub open spec fn selected(rows: Seq<RowView>) -> Seq<RowView> {
    rows_at(rows, which(is_selected(rows), rows.len() as int))
}

/// What some rows return.
pub open spec fn bytes_of(rows: Seq<RowView>) -> Seq<nat> {
    rows.map_values(|r: RowView| r.bytes() as nat)
}

/// How long some rows take to rebuild.
pub open spec fn seconds_of(rows: Seq<RowView>) -> Seq<nat> {
    rows.map_values(|r: RowView| r.seconds() as nat)
}

/// The magnitudes of some rows.
pub open spec fn units_of(rows: Seq<RowView>, rate: u64) -> Seq<Units> {
    rows.map_values(|r: RowView| chart::units_of(r.bytes(), r.seconds(), rate))
}

/// Totals over all rows that machine words can hold.
pub open spec fn totals_fit(rows: Seq<RowView>) -> bool {
    &&& ranking::total(bytes_of(rows)) <= u64::MAX
    &&& ranking::total(seconds_of(rows)) <= u64::MAX
}

/// How many rows are worth reclaiming.
pub open spec fn cut_of(rows: Seq<RowView>, rate: u64) -> nat {
    let drawn = chart::drawn(units_of(eligible(rows), rate), CUT_FIELD);
    match chart::first_not_leaning(drawn, 0) {
        Some(i) => i as nat,
        None => eligible(rows).len(),
    }
}

impl AppView {
    /// Whether row `i` can be seen: everything, or what is worth reclaiming and
    /// what is selected.
    pub open spec fn shows(self, i: int) -> bool {
        self.show_below || i < cut_of(self.rows, self.worth_rate) || self.rows[i].selected
    }

    /// Holds for a row that can be seen.
    pub open spec fn is_shown(self) -> spec_fn(int) -> bool {
        |i: int| self.shows(i)
    }

    /// Where the rows are that can be seen.
    pub open spec fn visible_at(self) -> Seq<int> {
        which(self.is_shown(), self.rows.len() as int)
    }

    /// The rows that can be seen.
    pub open spec fn visible(self) -> Seq<RowView> {
        rows_at(self.rows, self.visible_at())
    }

    /// The bars of the rows that can be seen.
    pub open spec fn bars(self, field: usize) -> Seq<Bars> {
        chart::drawn(units_of(self.visible(), self.worth_rate), field)
    }
}

/// Indices are listed once, in order, and exactly where the test holds.
pub proof fn lemma_which(test: spec_fn(int) -> bool, n: int)
    requires
        0 <= n,
    ensures
        which(test, n).len() <= n,
        forall|k: int|
            0 <= k < which(test, n).len() ==> 0 <= #[trigger] which(test, n)[k] < n
                && test(which(test, n)[k]),
        forall|k: int, l: int|
            0 <= k < l < which(test, n).len() ==> #[trigger] which(test, n)[k]
                < #[trigger] which(test, n)[l],
        forall|i: int|
            0 <= i < n && #[trigger] test(i) ==> which(test, n).contains(i),
    decreases n,
{
    if n > 0 {
        lemma_which(test, n - 1);
        let before = which(test, n - 1);
        let after = which(test, n);
        assert forall|i: int| 0 <= i < n && #[trigger] test(i) implies after.contains(i) by {
            if i == n - 1 {
                assert(after[after.len() - 1] == i);
            } else {
                let k = choose|k: int| 0 <= k < before.len() && before[k] == i;
                assert(after[k] == i);
            }
        }
    }
}

/// A total over some of the rows is not more than one over all of them.
pub proof fn lemma_part_total(
    rows: Seq<RowView>,
    test: spec_fn(int) -> bool,
    n: int,
    f: spec_fn(RowView) -> nat,
)
    requires
        0 <= n <= rows.len(),
    ensures
        ranking::total(rows_at(rows, which(test, n)).map_values(f)) <= ranking::total(
            rows.take(n).map_values(f),
        ),
    decreases n,
{
    if n > 0 {
        lemma_part_total(rows, test, n - 1, f);
        let before = rows_at(rows, which(test, n - 1)).map_values(f);
        let after = rows_at(rows, which(test, n)).map_values(f);
        assert(rows.take(n).map_values(f).drop_last() =~= rows.take(n - 1).map_values(f));
        if test(n - 1) {
            assert(after.drop_last() =~= before);
        }
    }
}

fn units_of_rows(rows: &Vec<&Row>, rate: u64) -> (r: Vec<Units>)
    ensures
        r@ == units_of(ref_views(rows@), rate),
        forall|i: int| 0 <= i < r@.len() ==> (#[trigger] r@[i]).valid(),
{
    let ghost views = ref_views(rows@);
    let mut r: Vec<Units> = Vec::new();
    let mut i: usize = 0;
    while i < rows.len()
        invariant
            i <= rows@.len(),
            views == ref_views(rows@),
            r@.len() == i,
            forall|k: int| 0 <= k < i ==> (#[trigger] r@[k]).valid(),
            forall|k: int| 0 <= k < i ==> #[trigger] r@[k] == units_of(views, rate)[k],
        decreases rows@.len() - i,
    {
        r.push(units(rows[i].reclaimable_bytes(), rows[i].rebuild_seconds(), rate));
        i = i + 1;
    }
    assert(r@ =~= units_of(views, rate));
    r
}

/// The contents of a list of rows.
pub open spec fn ref_views(v: Seq<&Row>) -> Seq<RowView> {
    v.map_values(|r: &Row| r@)
}

fn sum_bytes(rows: &Vec<&Row>) -> (r: u64)
    requires
        ranking::total(bytes_of(ref_views(rows@))) <= u64::MAX,
    ensures
        r == ranking::total(bytes_of(ref_views(rows@))),
{
    let value = |i: usize| -> (n: u64)
        requires
            i < rows@.len(),
        ensures
            n == rows@[i as int]@.bytes(),
        { rows[i].reclaimable_bytes() };
    sum_of(0, rows.len(), value, Ghost(bytes_of(ref_views(rows@))))
}

fn sum_seconds(rows: &Vec<&Row>) -> (r: u64)
    requires
        ranking::total(seconds_of(ref_views(rows@))) <= u64::MAX,
    ensures
        r == ranking::total(seconds_of(ref_views(rows@))),
{
    let value = |i: usize| -> (n: u64)
        requires
            i < rows@.len(),
        ensures
            n == rows@[i as int]@.seconds(),
        { rows[i].rebuild_seconds() as u64 };
    sum_of(0, rows.len(), value, Ghost(seconds_of(ref_views(rows@))))
}

/// The totals over a part of the rows fit where those over all rows do.
pub proof fn lemma_part_fits(rows: Seq<RowView>, test: spec_fn(int) -> bool)
    requires
        totals_fit(rows),
    ensures
        totals_fit(rows_at(rows, which(test, rows.len() as int))),
{
    let n = rows.len() as int;
    assert(rows.take(n) =~= rows);
    lemma_part_total(rows, test, n, |r: RowView| r.bytes() as nat);
    lemma_part_total(rows, test, n, |r: RowView| r.seconds() as nat);
    let part = rows_at(rows, which(test, n));
    assert(part.map_values(|r: RowView| r.bytes() as nat) =~= bytes_of(part));
    assert(part.map_values(|r: RowView| r.seconds() as nat) =~= seconds_of(part));
    assert(rows.map_values(|r: RowView| r.bytes() as nat) =~= bytes_of(rows));
    assert(rows.map_values(|r: RowView| r.seconds() as nat) =~= seconds_of(rows));
}

impl App {
    /// Starts with nothing scanned.
    pub fn new(roots: Vec<String>, worth_rate: u64) -> (r: Self)
        ensures
            r@ == (AppView {
                mode: Mode::Idle,
                rows: Seq::empty(),
                cursor: 0,
                offset: 0,
                progress: Progress { dirs: 0, files: 0 },
                roots: text::texts(roots@),
                worth_rate,
                show_below: false,
                quit: false,
                viewport: 20,
            }),
    {
        let r = App {
            mode: Mode::Idle,
            rows: Vec::new(),
            cursor: 0,
            offset: 0,
            progress: Progress::default(),
            roots,
            worth_rate,
            show_below: false,
            quit: false,
            viewport: 20,
        };
        assert(r@.rows =~= Seq::<RowView>::empty());
        r
    }

    fn eligible(&self) -> (r: Vec<&Row>)
        ensures
            ref_views(r@) == eligible(self@.rows),
    {
        let ghost rows = self@.rows;
        let mut r: Vec<&Row> = Vec::new();
        let mut i: usize = 0;
        assert(ref_views(r@) =~= rows_at(rows, which(is_selectable(rows), 0)));
        while i < self.rows.len()
            invariant
                i <= self.rows@.len(),
                rows == row_views(self.rows@),
                ref_views(r@) == rows_at(rows, which(is_selectable(rows), i as int)),
            decreases self.rows@.len() - i,
        {
            let ghost before = ref_views(r@);
            let row = &self.rows[i];
            assert(rows[i as int] == row@);
            if row.selectable() {
                r.push(row);
                assert(ref_views(r@) =~= before.push(row@));
                assert(rows_at(rows, which(is_selectable(rows), i + 1)) =~= before.push(row@));
            }
            i = i + 1;
        }
        r
    }

    /// What the rows that can be reclaimed return together.
    pub fn eligible_bytes(&self) -> (r: u64)
        requires
            totals_fit(self@.rows),
        ensures
            r == ranking::total(bytes_of(eligible(self@.rows))),
    {
        proof {
            lemma_part_fits(self@.rows, is_selectable(self@.rows));
        }
        sum_bytes(&self.eligible())
    }

    /// How long the rows that can be reclaimed take to rebuild together.
    pub fn eligible_seconds(&self) -> (r: u64)
        requires
            totals_fit(self@.rows),
        ensures
            r == ranking::total(seconds_of(eligible(self@.rows))),
    {
        proof {
            lemma_part_fits(self@.rows, is_selectable(self@.rows));
        }
        sum_seconds(&self.eligible())
    }

    /// What the rows whose work is not backed up would return together.
    pub fn blocked_bytes(&self) -> (r: u64)
        requires
            totals_fit(self@.rows),
        ensures
            r == ranking::total(bytes_of(blocked(self@.rows))),
    {
        let ghost rows = self@.rows;
        let mut held: Vec<&Row> = Vec::new();
        let mut i: usize = 0;
        assert(ref_views(held@) =~= rows_at(rows, which(is_blocked(rows), 0)));
        while i < self.rows.len()
            invariant
                i <= self.rows@.len(),
                rows == row_views(self.rows@),
                ref_views(held@) == rows_at(rows, which(is_blocked(rows), i as int)),
            decreases self.rows@.len() - i,
        {
            let ghost before = ref_views(held@);
            let row = &self.rows[i];
            assert(rows[i as int] == row@);
            if !row.project.git_state.is_safe_to_reclaim() {
                held.push(row);
                assert(ref_views(held@) =~= before.push(row@));
                assert(rows_at(rows, which(is_blocked(rows), i + 1)) =~= before.push(row@));
            }
            i = i + 1;
        }
        proof {
            lemma_part_fits(rows, is_blocked(rows));
        }
        sum_bytes(&held)
    }

    /// Where break-even falls in the list. Found at a fixed width, so that resizing
    /// the window cannot change which rows are worth reclaiming, and over the rows
    /// that can be reclaimed alone.
    pub fn cut_index(&self) -> (r: usize)
        ensures
            r == cut_of(self@.rows, self@.worth_rate),
    {
        let rows = self.eligible();
        let us = units_of_rows(&rows, self.worth_rate);
        let drawn = draw(&us, CUT_FIELD);
        assert(ref_views(rows@).len() == rows@.len());
        match break_even_at(&drawn) {
            Some(i) => i,
            None => rows.len(),
        }
    }

    fn is_shown(&self, i: usize, cut: usize) -> (r: bool)
        requires
            i < self.rows@.len(),
            cut == cut_of(self@.rows, self@.worth_rate),
        ensures
            r == self@.shows(i as int),
    {
        assert(self@.rows[i as int] == self.rows@[i as int]@);
        self.show_below || i < cut || self.rows[i].selected
    }

    fn visible_indices(&self) -> (r: Vec<usize>)
        ensures
            r@.map_values(|i: usize| i as int) == self@.visible_at(),
            forall|k: int| 0 <= k < r@.len() ==> (#[trigger] r@[k]) < self.rows@.len(),
    {
        let cut = self.cut_index();
        let mut r: Vec<usize> = Vec::new();
        let mut i: usize = 0;
        assert(r@.map_values(|i: usize| i as int) =~= which(self@.is_shown(), 0));
        while i < self.rows.len()
            invariant
                i <= self.rows@.len(),
                cut == cut_of(self@.rows, self@.worth_rate),
                r@.map_values(|i: usize| i as int) == which(self@.is_shown(), i as int),
                forall|k: int| 0 <= k < r@.len() ==> (#[trigger] r@[k]) < self.rows@.len(),
            decreases self.rows@.len() - i,
        {
            let ghost before = r@.map_values(|i: usize| i as int);
            if self.is_shown(i, cut) {
                r.push(i);
                assert(r@.map_values(|i: usize| i as int) =~= before.push(i as int));
            }
            i = i + 1;
        }
        r
    }

    /// Rows that can currently be seen: everything, or only what is worth
    /// reclaiming, and anything that is selected, which must never vanish.
    pub fn visible(&self) -> (r: Vec<&Row>)
        ensures
            ref_views(r@) == self@.visible(),
    {
        let at = self.visible_indices();
        let ghost spots = at@.map_values(|i: usize| i as int);
        let mut r: Vec<&Row> = Vec::new();
        let mut k: usize = 0;
        while k < at.len()
            invariant
                k <= at@.len(),
                spots == at@.map_values(|i: usize| i as int),
                forall|j: int| 0 <= j < at@.len() ==> (#[trigger] at@[j]) < self.rows@.len(),
                r@.len() == k,
                forall|j: int| 0 <= j < k ==> (#[trigger] r@[j])@ == self@.rows[spots[j]],
            decreases at@.len() - k,
        {
            assert(at@[k as int] < self.rows@.len());
            r.push(&self.rows[at[k]]);
            k = k + 1;
        }
        assert(ref_views(r@) =~= self@.visible());
        r
    }

    /// How many rows can be seen.
    pub fn visible_len(&self) -> (r: usize)
        ensures
            r == self@.visible().len(),
    {
        let at = self.visible_indices();
        assert(at@.map_values(|i: usize| i as int).len() == at@.len());
        at.len()
    }

    /// The bars of the rows that can be seen, on one scale, so that the balance
    /// point means the same on every line.
    pub fn bars(&self, field: usize) -> (r: Vec<Bars>)
        ensures
            r@ == self@.bars(field),
    {
        let rows = self.visible();
        let us = units_of_rows(&rows, self.worth_rate);
        draw(&us, field)
    }

    /// The rows that are selected.
    pub fn selected_rows(&self) -> (r: Vec<&Row>)
        ensures
            ref_views(r@) == selected(self@.rows),
    {
        let ghost rows = self@.rows;
        let mut r: Vec<&Row> = Vec::new();
        let mut i: usize = 0;
        assert(ref_views(r@) =~= rows_at(rows, which(is_selected(rows), 0)));
        while i < self.rows.len()
            invariant
                i <= self.rows@.len(),
                rows == row_views(self.rows@),
                ref_views(r@) == rows_at(rows, which(is_selected(rows), i as int)),
            decreases self.rows@.len() - i,
        {
            let ghost before = ref_views(r@);
            let row = &self.rows[i];
            assert(rows[i as int] == row@);
            if row.selected {
                r.push(row);
                assert(ref_views(r@) =~= before.push(row@));
                assert(rows_at(rows, which(is_selected(rows), i + 1)) =~= before.push(row@));
            }
            i = i + 1;
        }
        r
    }

    /// What the selected rows return together.
    pub fn selected_bytes(&self) -> (r: u64)
        requires
            totals_fit(self@.rows),
        ensures
            r == ranking::total(bytes_of(selected(self@.rows))),
    {
        proof {
            lemma_part_fits(self@.rows, is_selected(self@.rows));
        }
        sum_bytes(&self.selected_rows())
    }

    /// How long the selected rows take to rebuild together.
    pub fn selected_seconds(&self) -> (r: u64)
        requires
            totals_fit(self@.rows),
        ensures
            r == ranking::total(seconds_of(selected(self@.rows))),
    {
        proof {
            lemma_part_fits(self@.rows, is_selected(self@.rows));
        }
        sum_seconds(&self.selected_rows())
    }
}

/// Holds for a row that is selected and measured.
pub open spec fn is_doomed(rows: Seq<RowView>) -> spec_fn(int) -> bool {
    |i: int| rows[i].selected && rows[i].measured() is Some
}

/// A row as a target that is up for deletion.
pub open spec fn as_doomed(r: RowView) -> DoomedView {
    DoomedView { project: r.project, target: r.measured()->0 }
}

/// What is up for deletion: every row that is selected and measured.
pub open spec fn doomed_of(rows: Seq<RowView>) -> Seq<DoomedView> {
    rows_at(rows, which(is_doomed(rows), rows.len() as int)).map_values(
        |r: RowView| as_doomed(r),
    )
}

/// The first row on the screen, moved no further than it takes for the cursor to
/// be on it.
pub open spec fn scrolled(cursor: usize, offset: usize, viewport: usize) -> usize {
    let vp = if viewport >= 1 {
        viewport
    } else {
        1
    };
    if cursor < offset {
        cursor
    } else if cursor - offset >= vp {
        (cursor + 1 - vp) as usize
    } else {
        offset
    }
}

/// What rows are ranked by.
pub open spec fn row_key() -> spec_fn(RowView) -> u128 {
    |r: RowView| r.key()
}

/// The rows, best deal first, those that are not backed up behind them and those
/// that are not measured at the end.
pub open spec fn ranked_rows(rows: Seq<RowView>) -> Seq<RowView> {
    sorting::sorted(rows, row_key())
}

/// A project that has been recognised and not measured.
pub open spec fn placeholder(root: Seq<char>, ecosystem: Seq<char>) -> RowView {
    RowView {
        project: ProjectView {
            root,
            ecosystem,
            git_state: GitState::Unknown,
            targets: Seq::empty(),
        },
        target: None,
        selected: false,
    }
}

/// A row of this project is in the list.
pub open spec fn lists(rows: Seq<RowView>, root: Seq<char>) -> bool {
    exists|i: int|
        0 <= i < rows.len() && paths::same_place((#[trigger] rows[i]).project.root, root)
}

/// The list after a project was recognised.
pub open spec fn rows_after_found(
    rows: Seq<RowView>,
    root: Seq<char>,
    ecosystem: Seq<char>,
) -> Seq<RowView> {
    if lists(rows, root) {
        rows
    } else {
        rows.push(placeholder(root, ecosystem))
    }
}

/// A directory that has been selected.
pub open spec fn has_selected(rows: Seq<RowView>, path: Seq<char>) -> bool {
    exists|i: int|
        0 <= i < rows.len() && (#[trigger] rows[i]).selected && (rows[i].measured() matches Some(t)
            && paths::same_place(t.path, path))
}

/// Holds for a row of another project.
pub open spec fn is_elsewhere(rows: Seq<RowView>, root: Seq<char>) -> spec_fn(int) -> bool {
    |i: int| !paths::same_place(rows[i].project.root, root)
}

/// One row for each target of a project. A directory that was selected stays
/// selected, as long as the project's work is backed up.
pub open spec fn rows_of(rows: Seq<RowView>, p: ProjectView) -> Seq<RowView> {
    Seq::new(
        p.targets.len(),
        |i: int|
            RowView {
                project: p,
                target: Some(i as usize),
                selected: p.git_state.safe() && has_selected(rows, p.targets[i].path),
            },
    )
}

/// The list, not yet ranked, after a project was measured.
pub open spec fn rows_after_project(rows: Seq<RowView>, p: ProjectView) -> Seq<RowView> {
    rows_at(rows, which(is_elsewhere(rows, p.root), rows.len() as int)) + rows_of(rows, p)
}

/// The same rows with nothing selected.
pub open spec fn none_selected(rows: Seq<RowView>) -> Seq<RowView> {
    rows.map_values(|r: RowView| RowView { selected: false, ..r })
}

/// The same rows, and those before the cut that can be selected are.
pub open spec fn selected_above(rows: Seq<RowView>, cut: nat) -> Seq<RowView> {
    Seq::new(
        rows.len(),
        |i: int|
            if i < cut && rows[i].selectable() {
                RowView { selected: true, ..rows[i] }
            } else {
                rows[i]
            },
    )
}

impl AppView {
    /// With the cursor on a row that can be seen, and that row on the screen.
    pub open spec fn clamped(self) -> AppView {
        let n = self.visible().len();
        if n == 0 {
            AppView { cursor: 0, offset: 0, ..self }
        } else {
            let cursor = if self.cursor < n {
                self.cursor
            } else {
                (n - 1) as usize
            };
            AppView { cursor, offset: scrolled(cursor, self.offset, self.viewport), ..self }
        }
    }

    /// With the cursor on the visible row nearest to an index.
    pub open spec fn moved_to(self, index: int) -> AppView {
        let n = self.visible().len();
        if n == 0 {
            self
        } else {
            let cursor = (if index < 0 {
                0
            } else if index < n {
                index
            } else {
                n - 1
            }) as usize;
            AppView { cursor, offset: scrolled(cursor, self.offset, self.viewport), ..self }
        }
    }

    /// With the best deals first.
    pub open spec fn ranked(self) -> AppView {
        (AppView { rows: ranked_rows(self.rows), ..self }).clamped()
    }

    /// After an event of the scan.
    pub open spec fn after_event(self, e: EventView) -> AppView {
        match e {
            EventView::Found { root, ecosystem } => AppView {
                rows: rows_after_found(self.rows, root, ecosystem),
                ..self
            },
            EventView::Project(p) => (AppView {
                rows: rows_after_project(self.rows, p),
                ..self
            }).ranked(),
            EventView::Progress(progress) => AppView { progress, ..self },
        }
    }

    /// With the row under the cursor selected or not selected any more, if it can
    /// be.
    pub open spec fn toggled(self) -> AppView {
        if self.cursor < self.visible_at().len() && self.rows[self.visible_at()[self.cursor as int]].selectable() {
            let i = self.visible_at()[self.cursor as int];
            let r = self.rows[i];
            AppView {
                rows: self.rows.update(i, RowView { selected: !r.selected, ..r }),
                ..self
            }
        } else {
            self
        }
    }

    /// With everything selected that is worth reclaiming and safe to touch.
    pub open spec fn with_best_selected(self) -> AppView {
        AppView {
            rows: selected_above(self.rows, cut_of(self.rows, self.worth_rate)),
            ..self
        }
    }
}

fn scroll_offset(cursor: usize, offset: usize, viewport: usize) -> (r: usize)
    ensures
        r == scrolled(cursor, offset, viewport),
{
    let vp: usize = if viewport >= 1 {
        viewport
    } else {
        1
    };
    if cursor < offset {
        cursor
    } else if cursor - offset >= vp {
        cursor - vp + 1
    } else {
        offset
    }
}

impl App {
    fn clamp_cursor(&mut self)
        ensures
            final(self)@ == old(self)@.clamped(),
    {
        let n = self.visible_len();
        if n == 0 {
            self.cursor = 0;
            self.offset = 0;
        } else {
            if self.cursor >= n {
                self.cursor = n - 1;
            }
            self.offset = scroll_offset(self.cursor, self.offset, self.viewport);
        }
    }

    fn place_cursor(&mut self, index: i128)
        ensures
            final(self)@ == old(self)@.moved_to(index as int),
    {
        let n = self.visible_len();
        if n == 0 {
            return;
        }
        self.cursor = if index < 0 {
            0
        } else if index < n as i128 {
            index as usize
        } else {
            n - 1
        };
        self.offset = scroll_offset(self.cursor, self.offset, self.viewport);
    }

    /// Moves the cursor by some rows, as far as there are any.
    pub fn move_by(&mut self, delta: isize)
        ensures
            final(self)@ == old(self)@.moved_to(old(self)@.cursor + delta),
    {
        let index: i128 = self.cursor as i128 + delta as i128;
        self.place_cursor(index);
    }

    /// Moves the cursor to a row, or to the last one.
    pub fn move_to(&mut self, index: usize)
        ensures
            final(self)@ == old(self)@.moved_to(index as int),
    {
        self.place_cursor(index as i128);
    }

    /// Best deal first. Rows that are not measured, so that the list does not
    /// thrash during a scan, and rows that are not backed up, which are no
    /// decisions at all, sink below the ranking.
    fn rank(&mut self)
        ensures
            final(self)@ == old(self)@.ranked(),
    {
        let ghost rows = self@.rows;
        let ghost key_of = row_key();
        let mut given: Vec<Row> = Vec::new();
        std::mem::swap(&mut given, &mut self.rows);
        let ghost all = given@;
        assert(rows == row_views(all));
        let mut out: Vec<Row> = Vec::new();
        let mut keys: Vec<u128> = Vec::new();
        assert(rows.take(0) =~= Seq::<RowView>::empty());
        assert(row_views(out@) =~= ranked_rows(rows.take(0)));
        for row in it: given
            invariant
                it.seq() == all,
                rows == row_views(all),
                key_of == row_key(),
                row_views(out@) == ranked_rows(rows.take(it.index() as int)),
                keys@ == row_views(out@).map_values(key_of),
        {
            let ghost i = it.index() as int;
            let ghost before = row_views(out@);
            let ghost view = row@;
            assert(rows[i] == view);
            let key: u128 = row.key();
            let mut at: usize = keys.len();
            while at > 0 && keys[at - 1] < key
                invariant
                    at <= keys@.len(),
                    key_of == row_key(),
                    keys@ == before.map_values(key_of),
                    forall|k: int| at <= k < before.len() ==> key_of(#[trigger] before[k]) < key,
                decreases at,
            {
                assert(keys@[at - 1] == key_of(before[at - 1]));
                at = at - 1;
            }
            out.insert(at, row);
            keys.insert(at, key);
            proof {
                if at > 0 {
                    assert(keys@[at - 1] == key_of(before[at - 1]));
                }
                sorting::lemma_placed_at(before, key_of, view, at as int);
                assert(rows.take(i + 1).drop_last() =~= rows.take(i));
                assert(rows.take(i + 1).last() == view);
                assert(row_views(out@) =~= before.insert(at as int, view));
                assert(keys@ =~= row_views(out@).map_values(key_of));
            }
        }
        assert(rows.take(rows.len() as int) =~= rows);
        self.rows = out;
        self.clamp_cursor();
    }
}

/// The words at the end of a deletion.
pub open spec fn done_text(out: Outcome) -> Seq<char> {
    "Freed "@ + figures::bytes_text(out.freed as nat) + " across "@ + text::decimal(
        out.removed as nat,
    ) + " target(s)."@ + (if out.failures > 0 {
        " "@ + text::decimal(out.failures as nat) + " could not be removed."@
    } else {
        Seq::empty()
    }) + (if out.refused > 0 {
        " "@ + text::decimal(out.refused as nat)
            + " refused — did not resolve inside their project."@
    } else {
        Seq::empty()
    })
}

/// Holds for a row that is not selected.
pub open spec fn is_left(rows: Seq<RowView>) -> spec_fn(int) -> bool {
    |i: int| !rows[i].selected
}

/// The rows after a deletion. What was selected is gone if all of it was removed.
pub open spec fn rows_after_deletion(rows: Seq<RowView>, out: Outcome) -> Seq<RowView> {
    none_selected(
        if out.failures == 0 && out.refused == 0 {
            rows_at(rows, which(is_left(rows), rows.len() as int))
        } else {
            rows
        },
    )
}

fn done_message(out: Outcome) -> (r: String)
    ensures
        r@ == done_text(out),
{
    let mut r = String::new();
    r.append("Freed ");
    r.append(bytes(out.freed).as_str());
    r.append(" across ");
    push_decimal(&mut r, out.removed as u64);
    r.append(" target(s).");
    if out.failures > 0 {
        r.append(" ");
        push_decimal(&mut r, out.failures as u64);
        r.append(" could not be removed.");
    }
    if out.refused > 0 {
        r.append(" ");
        push_decimal(&mut r, out.refused as u64);
        r.append(" refused — did not resolve inside their project.");
    }
    assert(r@ =~= done_text(out));
    r
}

impl App {
    fn has_row_of(&self, root: &str) -> (r: bool)
        ensures
            r == lists(self@.rows, root@),
    {
        let ghost rows = self@.rows;
        let mut i: usize = 0;
        while i < self.rows.len()
            invariant
                i <= self.rows@.len(),
                rows == row_views(self.rows@),
                forall|k: int|
                    0 <= k < i ==> !paths::same_place((#[trigger] rows[k]).project.root, root@),
            decreases self.rows@.len() - i,
        {
            assert(rows[i as int] == self.rows@[i as int]@);
            if is_same_place(self.rows[i].project.root.as_str(), root) {
                return true;
            }
            i = i + 1;
        }
        false
    }

    fn has_selected_path(&self, path: &str) -> (r: bool)
        ensures
            r == has_selected(self@.rows, path@),
    {
        let ghost rows = self@.rows;
        let mut i: usize = 0;
        while i < self.rows.len()
            invariant
                i <= self.rows@.len(),
                rows == row_views(self.rows@),
                forall|k: int|
                    0 <= k < i ==> !((#[trigger] rows[k]).selected && (rows[k].measured() matches Some(
                        t,
                    ) && paths::same_place(t.path, path@))),
            decreases self.rows@.len() - i,
        {
            assert(rows[i as int] == self.rows@[i as int]@);
            if self.rows[i].selected {
                if let Some(t) = self.rows[i].measured() {
                    if is_same_place(t.path.as_str(), path) {
                        assert(rows[i as int].selected);
                        return true;
                    }
                }
            }
            i = i + 1;
        }
        false
    }

    /// Replaces the rows of a project with one row per measured target. What was
    /// selected stays selected, by path.
    fn absorb(&mut self, p: Project)
        ensures
            final(self)@ == old(self)@.after_event(EventView::Project(p@)),
    {
        let ghost rows = self@.rows;
        let safe = p.git_state.is_safe_to_reclaim();
        let mut fresh: Vec<Row> = Vec::new();
        let mut i: usize = 0;
        while i < p.targets.len()
            invariant
                i <= p.targets@.len(),
                safe == p@.git_state.safe(),
                rows == self@.rows,
                self@ == old(self)@,
                fresh@.len() == i,
                forall|k: int| 0 <= k < i ==> (#[trigger] fresh@[k])@ == rows_of(rows, p@)[k],
            decreases p.targets@.len() - i,
        {
            assert(p@.targets[i as int] == p.targets@[i as int]@);
            let selected = safe && self.has_selected_path(p.targets[i].path.as_str());
            fresh.push(Row { project: p.duplicate(), target: Some(i), selected });
            i = i + 1;
        }
        assert(row_views(fresh@) =~= rows_of(rows, p@));
        let mut given: Vec<Row> = Vec::new();
        std::mem::swap(&mut given, &mut self.rows);
        let ghost all = given@;
        let mut kept: Vec<Row> = Vec::new();
        assert(row_views(kept@) =~= rows_at(rows, which(is_elsewhere(rows, p.root@), 0)));
        for row in it: given
            invariant
                it.seq() == all,
                rows == row_views(all),
                row_views(kept@) == rows_at(
                    rows,
                    which(is_elsewhere(rows, p.root@), it.index() as int),
                ),
        {
            let ghost i = it.index() as int;
            let ghost before = row_views(kept@);
            assert(rows[i] == row@);
            if !is_same_place(row.project.root.as_str(), p.root.as_str()) {
                kept.push(row);
                assert(row_views(kept@) =~= before.push(row@));
                assert(rows_at(rows, which(is_elsewhere(rows, p.root@), i + 1)) =~= before.push(
                    row@,
                ));
            }
        }
        let ghost others = row_views(kept@);
        let ghost new_rows = fresh@;
        assert(others + row_views(new_rows.take(0)) =~= others);
        for row in it: fresh
            invariant
                it.seq() == new_rows,
                row_views(kept@) == others + row_views(new_rows.take(it.index() as int)),
        {
            let ghost i = it.index() as int;
            let ghost before = row_views(kept@);
            kept.push(row);
            proof {
                assert(row_views(kept@) =~= before.push(row@));
                assert(new_rows.take(i + 1) =~= new_rows.take(i).push(row));
                assert(row_views(new_rows.take(i + 1)) =~= row_views(new_rows.take(i)).push(row@));
                assert(others + row_views(new_rows.take(i + 1)) =~= before.push(row@));
            }
        }
        assert(new_rows.take(new_rows.len() as int) =~= new_rows);
        self.rows = kept;
        assert(self@.rows == rows_after_project(rows, p@));
        self.rank();
    }

    /// Takes in what the scan has passed on. A project appears the moment it is
    /// recognised, without a size, and is replaced once it is measured.
    pub fn on_scan_event(&mut self, event: Event)
        ensures
            final(self)@ == old(self)@.after_event(event@),
    {
        match event {
            Event::Found { root, ecosystem } => {
                if !self.has_row_of(root.as_str()) {
                    let ghost rows = self@.rows;
                    let targets: Vec<Target> = Vec::new();
                    assert(scan::target_views(targets@) =~= Seq::<TargetView>::empty());
                    let row = Row {
                        project: Project { root, ecosystem, git_state: GitState::Unknown, targets },
                        target: None,
                        selected: false,
                    };
                    let ghost view = row@;
                    self.rows.push(row);
                    assert(self@.rows =~= rows.push(view));
                }
            },
            Event::Project(p) => {
                self.absorb(p);
            },
            Event::Progress(p) => {
                self.progress = p;
            },
        }
    }

    /// The scan has come to its end.
    pub fn scan_finished(&mut self)
        ensures
            final(self)@ == (AppView {
                mode: if old(self)@.mode is Scanning {
                    Mode::Browsing
                } else {
                    old(self)@.mode
                },
                ..old(self)@
            }).ranked(),
    {
        if matches!(self.mode, Mode::Scanning) {
            self.mode = Mode::Browsing;
        }
        self.rank();
    }

    fn cursor_row_index(&self) -> (r: Option<usize>)
        ensures
            r is Some <==> self@.cursor < self@.visible_at().len(),
            r matches Some(i) ==> i < self.rows@.len() && i as int
                == self@.visible_at()[self@.cursor as int],
    {
        let at = self.visible_indices();
        let ghost spots = at@.map_values(|i: usize| i as int);
        assert(spots.len() == at@.len());
        if self.cursor < at.len() {
            assert(at@[self.cursor as int] < self.rows@.len());
            assert(spots[self.cursor as int] == at@[self.cursor as int] as int);
            Some(at[self.cursor])
        } else {
            None
        }
    }

    fn set_selected(&mut self, i: usize, selected: bool)
        requires
            i < old(self).rows@.len(),
        ensures
            final(self)@ == (AppView {
                rows: old(self)@.rows.update(
                    i as int,
                    RowView { selected, ..old(self)@.rows[i as int] },
                ),
                ..old(self)@
            }),
            final(self).rows@.len() == old(self).rows@.len(),
    {
        let ghost before = self@;
        self.rows[i].selected = selected;
        assert(self@.rows =~= before.rows.update(
            i as int,
            RowView { selected, ..before.rows[i as int] },
        ));
    }

    /// Selects the row under the cursor, or does not select it any more. Rows that
    /// are not backed up or not measured are refused.
    pub fn toggle(&mut self)
        ensures
            final(self)@ == old(self)@.toggled(),
    {
        if let Some(i) = self.cursor_row_index() {
            assert(self@.rows[i as int] == self.rows@[i as int]@);
            if self.rows[i].selectable() {
                let selected = !self.rows[i].selected;
                self.set_selected(i, selected);
            }
        }
    }

    /// Selects everything above break-even that is safe to touch: what the chart
    /// recommends.
    pub fn select_above_line(&mut self)
        ensures
            final(self)@ == old(self)@.with_best_selected(),
    {
        let ghost start = self@;
        let cut = self.cut_index();
        let ghost goal = selected_above(start.rows, cut as nat);
        let mut i: usize = 0;
        let n = self.rows.len();
        assert(start.rows.len() == n);
        while i < n
            invariant
                i <= n == self.rows@.len(),
                start.rows.len() == n,
                goal == selected_above(start.rows, cut as nat),
                self@ == (AppView { rows: self@.rows, ..start }),
                self@.rows.len() == n,
                forall|k: int| 0 <= k < i ==> #[trigger] self@.rows[k] == goal[k],
                forall|k: int| i <= k < n ==> #[trigger] self@.rows[k] == start.rows[k],
            decreases n - i,
        {
            assert(self@.rows[i as int] == self.rows@[i as int]@);
            if i < cut && self.rows[i].selectable() {
                self.set_selected(i, true);
            }
            i = i + 1;
        }
        assert(self@.rows =~= goal);
    }

    /// Selects nothing.
    pub fn select_none(&mut self)
        ensures
            final(self)@ == (AppView { rows: none_selected(old(self)@.rows), ..old(self)@ }),
    {
        let ghost start = self@;
        let ghost goal = none_selected(start.rows);
        let mut i: usize = 0;
        let n = self.rows.len();
        assert(start.rows.len() == n);
        while i < n
            invariant
                i <= n == self.rows@.len(),
                start.rows.len() == n,
                goal == none_selected(start.rows),
                self@ == (AppView { rows: self@.rows, ..start }),
                self@.rows.len() == n,
                forall|k: int| 0 <= k < i ==> #[trigger] self@.rows[k] == goal[k],
                forall|k: int| i <= k < n ==> #[trigger] self@.rows[k] == start.rows[k],
            decreases n - i,
        {
            self.set_selected(i, false);
            i = i + 1;
        }
        assert(self@.rows =~= goal);
    }

    /// What is up for deletion: one list for the confirmation and the deletion, so
    /// that the two cannot disagree.
    pub fn doomed(&self) -> (r: Vec<Doomed<'_>>)
        ensures
            reclaim::doomed_views(r@) == doomed_of(self@.rows),
    {
        let ghost rows = self@.rows;
        let mut r: Vec<Doomed<'_>> = Vec::new();
        let mut i: usize = 0;
        assert(reclaim::doomed_views(r@) =~= rows_at(rows, which(is_doomed(rows), 0)).map_values(
            |r: RowView| as_doomed(r),
        ));
        while i < self.rows.len()
            invariant
                i <= self.rows@.len(),
                rows == row_views(self.rows@),
                reclaim::doomed_views(r@) == rows_at(
                    rows,
                    which(is_doomed(rows), i as int),
                ).map_values(|r: RowView| as_doomed(r)),
            decreases self.rows@.len() - i,
        {
            let ghost before = reclaim::doomed_views(r@);
            let row = &self.rows[i];
            assert(rows[i as int] == row@);
            if row.selected {
                if let Some(t) = row.measured() {
                    let d = Doomed { project: &row.project, target: t };
                    r.push(d);
                    assert(d@ == as_doomed(row@));
                    assert(reclaim::doomed_views(r@) =~= before.push(d@));
                    assert(rows_at(rows, which(is_doomed(rows), i + 1)).map_values(
                        |r: RowView| as_doomed(r),
                    ) =~= before.push(d@));
                }
            }
            i = i + 1;
        }
        r
    }

    fn drop_selected(&mut self)
        ensures
            final(self)@ == (AppView {
                rows: rows_at(
                    old(self)@.rows,
                    which(is_left(old(self)@.rows), old(self)@.rows.len() as int),
                ),
                ..old(self)@
            }),
    {
        let ghost rows = self@.rows;
        let mut given: Vec<Row> = Vec::new();
        std::mem::swap(&mut given, &mut self.rows);
        let ghost all = given@;
        let mut kept: Vec<Row> = Vec::new();
        assert(row_views(kept@) =~= rows_at(rows, which(is_left(rows), 0)));
        for row in it: given
            invariant
                it.seq() == all,
                rows == row_views(all),
                row_views(kept@) == rows_at(rows, which(is_left(rows), it.index() as int)),
        {
            let ghost i = it.index() as int;
            let ghost before = row_views(kept@);
            assert(rows[i] == row@);
            if !row.selected {
                kept.push(row);
                assert(row_views(kept@) =~= before.push(row@));
                assert(rows_at(rows, which(is_left(rows), i + 1)) =~= before.push(row@));
            }
        }
        self.rows = kept;
    }

    /// Takes in what came of a deletion. Where anything was not removed the rows
    /// stay, because it still occupies the disk.
    pub fn finish_reclaim(&mut self, out: Outcome)
        ensures
            final(self).mode matches Mode::Done(m) && m@ == done_text(out),
            final(self)@ == (AppView {
                mode: final(self).mode,
                ..(AppView {
                    rows: rows_after_deletion(old(self)@.rows, out),
                    ..old(self)@
                }).clamped()
            }),
    {
        let message = done_message(out);
        if out.failures == 0 && out.refused == 0 {
            self.drop_selected();
        }
        self.select_none();
        self.clamp_cursor();
        self.mode = Mode::Done(message);
    }
}

/// Input, already reduced to what the interface cares about.
#[derive(Debug, Clone, Copy, PartialEq, Eq, Structural)]
pub enum Key {
    Up,
    Down,
    PageUp,
    PageDown,
    Home,
    End,
    Space,
    Enter,
    Esc,
    Quit,
    Help,
    Char(char),
}

/// Work that has to be done on the interface's behalf.
#[derive(Debug, Clone, Copy, PartialEq, Eq, Structural)]
pub enum Action {
    Nothing,
    StartScan,
    Reclaim,
}

impl AppView {
    /// With the list cleared for a new scan.
    pub open spec fn scanning(self) -> AppView {
        AppView {
            rows: Seq::empty(),
            cursor: 0,
            offset: 0,
            progress: Progress { dirs: 0, files: 0 },
            mode: Mode::Scanning,
            ..self
        }
    }

    /// After a key in a mode without keys of its own.
    pub open spec fn after_browsing_key(self, key: Key) -> (AppView, Action) {
        match key {
            Key::Quit | Key::Esc => (AppView { quit: true, ..self }, Action::Nothing),
            Key::Help => (
                AppView { mode: Mode::Help(Box::new(self.mode)), ..self },
                Action::Nothing,
            ),
            Key::Up => (self.moved_to(self.cursor - 1), Action::Nothing),
            Key::Down => (self.moved_to(self.cursor + 1), Action::Nothing),
            Key::PageUp => (self.moved_to(self.cursor - self.viewport), Action::Nothing),
            Key::PageDown => (self.moved_to(self.cursor + self.viewport), Action::Nothing),
            Key::Home => (self.moved_to(0), Action::Nothing),
            Key::End => (self.moved_to(usize::MAX as int), Action::Nothing),
            Key::Space => (self.toggled(), Action::Nothing),
            Key::Enter => (self.after_reclaim_key(), Action::Nothing),
            Key::Char(c) => if c == 'a' {
                (self.with_best_selected(), Action::Nothing)
            } else if c == 'n' {
                (AppView { rows: none_selected(self.rows), ..self }, Action::Nothing)
            } else if c == 't' {
                (
                    (AppView { show_below: !self.show_below, ..self }).clamped(),
                    Action::Nothing,
                )
            } else if c == 's' {
                if self.mode is Scanning {
                    (self, Action::Nothing)
                } else {
                    (self.scanning(), Action::StartScan)
                }
            } else if c == 'r' {
                (self.after_reclaim_key(), Action::Nothing)
            } else {
                (self, Action::Nothing)
            },
        }
    }

    /// Asks for a confirmation, if there is anything to confirm.
    pub open spec fn after_reclaim_key(self) -> AppView {
        if doomed_of(self.rows).len() == 0 {
            self
        } else {
            AppView { mode: Mode::Confirming, ..self }
        }
    }

    /// After a key.
    pub open spec fn after_key(self, key: Key) -> (AppView, Action) {
        match self.mode {
            Mode::Help(back) => (
                if key == Key::Quit || key == Key::Esc || key == Key::Help || key == Key::Enter {
                    AppView { mode: *back, ..self }
                } else {
                    self
                },
                Action::Nothing,
            ),
            Mode::Reclaiming => (self, Action::Nothing),
            Mode::Confirming => if key == Key::Char('y') || key == Key::Enter {
                (AppView { mode: Mode::Reclaiming, ..self }, Action::Reclaim)
            } else {
                (AppView { mode: Mode::Browsing, ..self }, Action::Nothing)
            },
            _ => self.after_browsing_key(key),
        }
    }
}

impl App {
    /// The entry point for every key. Returns what has to be done, because starting
    /// a scan and deleting files is not done here.
    pub fn on_key(&mut self, key: Key) -> (r: Action)
        ensures
            (final(self)@, r) == old(self)@.after_key(key),
    {
        if let Mode::Help(back) = &self.mode {
            let back = (**back).clone();
            if matches!(key, Key::Quit | Key::Esc | Key::Help | Key::Enter) {
                self.mode = back;
            }
            return Action::Nothing;
        }
        match self.mode {
            Mode::Reclaiming => Action::Nothing,
            Mode::Confirming => match key {
                Key::Char('y') | Key::Enter => {
                    self.mode = Mode::Reclaiming;
                    Action::Reclaim
                },
                _ => {
                    self.mode = Mode::Browsing;
                    Action::Nothing
                },
            },
            _ => self.on_key_browsing(key),
        }
    }

    fn ask_to_reclaim(&mut self)
        ensures
            final(self)@ == old(self)@.after_reclaim_key(),
    {
        let doomed = self.doomed();
        assert(reclaim::doomed_views(doomed@).len() == doomed@.len());
        if doomed.len() > 0 {
            self.mode = Mode::Confirming;
        }
    }

    fn start_scan(&mut self)
        ensures
            final(self)@ == old(self)@.scanning(),
    {
        self.rows = Vec::new();
        self.cursor = 0;
        self.offset = 0;
        self.progress = Progress::default();
        self.mode = Mode::Scanning;
        assert(self@.rows =~= Seq::<RowView>::empty());
    }

    fn on_key_browsing(&mut self, key: Key) -> (r: Action)
        ensures
            (final(self)@, r) == old(self)@.after_browsing_key(key),
    {
        match key {
            Key::Quit | Key::Esc => {
                self.quit = true;
                Action::Nothing
            },
            Key::Help => {
                self.mode = Mode::Help(Box::new(self.mode.clone()));
                Action::Nothing
            },
            Key::Up => {
                self.move_by(-1);
                Action::Nothing
            },
            Key::Down => {
                self.move_by(1);
                Action::Nothing
            },
            Key::PageUp => {
                let index: i128 = self.cursor as i128 - self.viewport as i128;
                self.place_cursor(index);
                Action::Nothing
            },
            Key::PageDown => {
                let index: i128 = self.cursor as i128 + self.viewport as i128;
                self.place_cursor(index);
                Action::Nothing
            },
            Key::Home => {
                self.move_to(0);
                Action::Nothing
            },
            Key::End => {
                self.move_to(usize::MAX);
                Action::Nothing
            },
            Key::Space => {
                self.toggle();
                Action::Nothing
            },
            Key::Enter => {
                self.ask_to_reclaim();
                Action::Nothing
            },
            Key::Char('a') => {
                self.select_above_line();
                Action::Nothing
            },
            Key::Char('n') => {
                self.select_none();
                Action::Nothing
            },
            Key::Char('t') => {
                self.show_below = !self.show_below;
                self.clamp_cursor();
                Action::Nothing
            },
            Key::Char('s') => {
                if matches!(self.mode, Mode::Scanning) {
                    Action::Nothing
                } else {
                    self.start_scan();
                    Action::StartScan
                }
            },
            Key::Char('r') => {
                self.ask_to_reclaim();
                Action::Nothing
            },
            Key::Char(_) => Action::Nothing,
        }
    }

    /// Can the totals over all rows be held in machine words?
    pub fn do_totals_fit(&self) -> (r: bool)
        ensures
            r == totals_fit(self@.rows),
    {
        let ghost rows = self@.rows;
        let mut space: Option<u64> = Some(0);
        let mut time: Option<u64> = Some(0);
        let mut i: usize = 0;
        while i < self.rows.len()
            invariant
                i <= self.rows@.len(),
                rows == row_views(self.rows@),
                match space {
                    Some(x) => x == ranking::total(bytes_of(rows.take(i as int))),
                    None => ranking::total(bytes_of(rows.take(i as int))) > u64::MAX,
                },
                match time {
                    Some(x) => x == ranking::total(seconds_of(rows.take(i as int))),
                    None => ranking::total(seconds_of(rows.take(i as int))) > u64::MAX,
                },
            decreases self.rows@.len() - i,
        {
            proof {
                let longer = rows.take(i + 1);
                assert(longer.last() == self.rows@[i as int]@);
                assert(bytes_of(longer).drop_last() =~= bytes_of(rows.take(i as int)));
                assert(seconds_of(longer).drop_last() =~= seconds_of(rows.take(i as int)));
            }
            space = match space {
                Some(x) => x.checked_add(self.rows[i].reclaimable_bytes()),
                None => None,
            };
            time = match time {
                Some(x) => x.checked_add(self.rows[i].rebuild_seconds() as u64),
                None => None,
            };
            i = i + 1;
        }
        assert(rows.take(i as int) =~= rows);
        space.is_some() && time.is_some()
    }
}

} // verus!
