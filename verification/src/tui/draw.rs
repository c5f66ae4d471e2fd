//! What is on the screen: lines of text and where they go.
//!
//! The chart means the same here as in the printed report. The one difference is
//! that the width of the terminal is known and the bars expand to fill it.
use crate::chart;
use crate::chart::{truncate_left, truncate_right, Bars};
use crate::figures;
use crate::figures::{bytes, duration};
use crate::palette;
use crate::palette::{
    dim, emphasis, held_back, push_painted, space_freed, structure, time_cost, Paint,
};
use crate::paths;
use crate::paths::{file_name, strip_base};
use crate::ranking;
use crate::report;
use crate::report::{crossing_lines, display_path, legend_line};
use crate::text;
use crate::text::{join, push_decimal, push_left_aligned, push_repeated, push_right_aligned};
use crate::tui::app;
use crate::tui::app::{App, AppView, Mode, Row, RowView};
use vstd::prelude::*;
use vstd::string::*;

verus! {

/// Title, roots, blank, column legend.
pub const HEADER_ROWS: u16 = 4;

/// Blank, summary, keys.
pub const FOOTER_ROWS: u16 = 3;

/// How a line stands out.
#[derive(Debug, Clone, Copy, PartialEq, Eq, Structural)]
pub enum Look {
    Plain,
    /// In reverse video, which survives where colour does not.
    Reversed,
    /// After all attributes have been reset.
    Fresh,
}

/// One line on the screen, from its first column on.
#[derive(Debug)]
pub struct Line {
    pub y: u16,
    pub look: Look,
    pub text: String,
}

/// The content of a [`Line`].
pub struct LineView {
    pub y: u16,
    pub look: Look,
    pub text: Seq<char>,
}

impl View for Line {
    type V = LineView;

    open spec fn view(&self) -> LineView {
        LineView { y: self.y, look: self.look, text: self.text@ }
    }
}

/// The contents of a list of lines.
pub open spec fn line_views(v: Seq<Line>) -> Seq<LineView> {
    v.map_values(|l: Line| l@)
}

/// A line that does not stand out.
pub open spec fn plain_line(y: u16, text: Seq<char>) -> LineView {
    LineView { y, look: Look::Plain, text }
}

fn push(out: &mut Vec<Line>, y: u16, look: Look, text: String)
    ensures
        line_views(final(out)@) == line_views(old(out)@).push(
            LineView { y, look, text: text@ },
        ),
{
    out.push(Line { y, look, text });
    assert(line_views(out@) =~= line_views(old(out)@).push(LineView { y, look, text: text@ }));
}

/// How many list rows fit in a window of this height.
pub open spec fn rows_in(h: u16) -> nat {
    if h > HEADER_ROWS + FOOTER_ROWS {
        (h - HEADER_ROWS - FOOTER_ROWS) as nat
    } else {
        1
    }
}

/// How many list rows fit in a window of this height, one at least.
pub fn viewport_rows(h: u16) -> (r: usize)
    ensures
        r == rows_in(h),
        r >= 1,
{
    if h > HEADER_ROWS + FOOTER_ROWS {
        (h - HEADER_ROWS - FOOTER_ROWS) as usize
    } else {
        1
    }
}

/// The width of the bars in a window of this width.
pub open spec fn field_of(w: u16) -> nat {
    let half = if w >= 46 {
        (w - 46) as nat / 2
    } else {
        0
    };
    if half < 6 {
        6
    } else if half > 30 {
        30
    } else {
        half
    }
}

/// The width of the bars in a window of this width: whatever room there is, so that
/// the labels never vanish.
pub fn field_for(w: u16) -> (r: usize)
    ensures
        r == field_of(w),
        6 <= r <= 30,
{
    let half: usize = (w.saturating_sub(46) / 2) as usize;
    if half < 6 {
        6
    } else if half > 30 {
        30
    } else {
        half
    }
}

/// The columns that stand in front of the bars: a marker, a checkbox and a gap.
pub const MARK_COLUMNS: usize = 5;

/// The width of the labels in a window of this width: what the marks, the bars, the
/// spine, the size, the time and the gaps leave.
pub open spec fn name_width_of(w: u16) -> nat {
    let used = MARK_COLUMNS + field_of(w) * 2 + 1 + 1 + 1 + 10 + 1 + 8;
    let room = if w >= used {
        (w - used) as nat
    } else {
        0
    };
    if room < 12 {
        12
    } else if room > 48 {
        48
    } else {
        room
    }
}

/// The width of the labels in a window of this width.
pub fn name_width(w: u16) -> (r: usize)
    ensures
        r == name_width_of(w),
        12 <= r <= 48,
{
    let field = field_for(w);
    let room: usize = (w as usize).saturating_sub(
        MARK_COLUMNS + field * 2 + 1 + 1 + 1 + 10 + 1 + 8,
    );
    if room < 12 {
        12
    } else if room > 48 {
        48
    } else {
        room
    }
}

/// Plain right-truncation for text that is not a path.
pub fn truncate(s: &str, width: usize) -> (r: String)
    ensures
        r@ == chart::head_kept(s@, width as nat),
{
    truncate_right(s, width)
}

/// A width less some columns, nothing where there are fewer.
pub open spec fn less(w: u16, n: u16) -> nat {
    if w >= n {
        (w - n) as nat
    } else {
        0
    }
}

fn room(w: u16, n: u16) -> (r: usize)
    ensures
        r == less(w, n),
{
    w.saturating_sub(n) as usize
}

/// How the scan or the list stands.
pub open spec fn status_text(v: AppView) -> Seq<char> {
    match v.mode {
        Mode::Idle => "press s to scan"@,
        Mode::Scanning => "scanning — "@ + text::decimal(v.progress.dirs as nat) + " dirs · "@
            + text::decimal(v.progress.files as nat) + " files"@,
        Mode::Reclaiming => "reclaiming…"@,
        Mode::Done(m) => m@,
        _ => figures::bytes_text(ranking::total(app::bytes_of(app::eligible(v.rows))))
            + " reclaimable · "@ + figures::duration_text(
            ranking::total(app::seconds_of(app::eligible(v.rows))),
        ) + " to rebuild"@ + (if ranking::total(app::bytes_of(app::blocked(v.rows))) > 0 {
            " · "@ + figures::bytes_text(ranking::total(app::bytes_of(app::blocked(v.rows))))
                + " held back"@
        } else {
            Seq::empty()
        }),
    }
}

/// How the scan or the list stands. Only what can be reclaimed counts into the
/// headline.
pub fn status(app: &App) -> (r: String)
    requires
        app::totals_fit(app@.rows),
    ensures
        r@ == status_text(app@),
{
    match &app.mode {
        Mode::Idle => "press s to scan".to_owned(),
        Mode::Scanning => {
            let mut r = String::new();
            r.append("scanning — ");
            push_decimal(&mut r, app.progress.dirs);
            r.append(" dirs · ");
            push_decimal(&mut r, app.progress.files);
            r.append(" files");
            assert(r@ =~= status_text(app@));
            r
        },
        Mode::Reclaiming => "reclaiming…".to_owned(),
        Mode::Done(m) => m.clone(),
        _ => {
            let blocked = app.blocked_bytes();
            let mut r = bytes(app.eligible_bytes());
            r.append(" reclaimable · ");
            r.append(duration(app.eligible_seconds()).as_str());
            r.append(" to rebuild");
            if blocked > 0 {
                r.append(" · ");
                r.append(bytes(blocked).as_str());
                r.append(" held back");
            }
            assert(r@ =~= status_text(app@));
            r
        },
    }
}

/// The roots of the scan, in one line.
pub open spec fn roots_text(v: AppView) -> Seq<char> {
    text::joined(v.roots.map_values(|p: Seq<char>| report::path_shown(p)), "  "@)
}

/// The roots of the scan, in one line.
pub fn roots_line(app: &App) -> (r: String)
    ensures
        r@ == roots_text(app@),
{
    let ghost all = app@.roots.map_values(|p: Seq<char>| report::path_shown(p));
    let mut shown: Vec<String> = Vec::new();
    let mut i: usize = 0;
    while i < app.roots.len()
        invariant
            i <= app.roots@.len(),
            all == app@.roots.map_values(|p: Seq<char>| report::path_shown(p)),
            shown@.len() == i,
            forall|k: int| 0 <= k < i ==> (#[trigger] shown@[k])@ == all[k],
        decreases app.roots@.len() - i,
    {
        assert(app@.roots[i as int] == app.roots@[i as int]@);
        shown.push(display_path(app.roots[i].as_str()));
        i = i + 1;
    }
    assert(text::texts(shown@) =~= all);
    join(&shown, "  ")
}

/// The title line.
pub open spec fn title_text(v: AppView, w: u16, truecolor: bool) -> Seq<char> {
    "  "@ + palette::painted(palette::emphasis_paint(truecolor), "ForceFree"@) + "  "@
        + palette::painted(Paint::Dimmed, chart::head_kept(status_text(v), less(w, 14)))
}

/// The lines above the list.
pub open spec fn header_lines(v: AppView, w: u16, truecolor: bool) -> Seq<LineView> {
    seq![
        plain_line(0, title_text(v, w, truecolor)),
        plain_line(
            1,
            "  "@ + palette::painted(
                Paint::Dimmed,
                chart::head_kept(roots_text(v), less(w, 4)),
            ),
        ),
        plain_line(3, report::legend_text(field_of(w), truecolor)),
    ]
}

fn title_line(app: &App, w: u16, truecolor: bool) -> (r: String)
    requires
        app::totals_fit(app@.rows),
    ensures
        r@ == title_text(app@, w, truecolor),
{
    let mut r = String::new();
    r.append("  ");
    push_painted(&mut r, emphasis(truecolor), "ForceFree");
    r.append("  ");
    let shown = truncate(status(app).as_str(), room(w, 14));
    push_painted(&mut r, dim(), shown.as_str());
    assert(r@ =~= title_text(app@, w, truecolor));
    r
}

/// The lines above the list.
pub fn header(app: &App, w: u16, truecolor: bool) -> (r: Vec<Line>)
    requires
        app::totals_fit(app@.rows),
    ensures
        line_views(r@) == header_lines(app@, w, truecolor),
{
    let mut roots = String::new();
    roots.append("  ");
    let shown = truncate(roots_line(app).as_str(), room(w, 4));
    push_painted(&mut roots, dim(), shown.as_str());
    assert(roots@ =~= "  "@ + palette::painted(
        Paint::Dimmed,
        chart::head_kept(roots_text(app@), less(w, 4)),
    ));
    let mut r: Vec<Line> = Vec::new();
    push(&mut r, 0, Look::Plain, title_line(app, w, truecolor));
    push(&mut r, 1, Look::Plain, roots);
    push(&mut r, 3, Look::Plain, legend_line(field_for(w), truecolor));
    assert(line_views(r@) =~= header_lines(app@, w, truecolor));
    r
}

/// What identifies a row: the project and the target in it, or the project and its
/// ecosystem while it is not measured.
pub open spec fn label_text(r: RowView) -> Seq<char> {
    let name = report::project_name(r.project);
    match r.measured() {
        Some(t) => name + "/"@ + paths::relative_to(t.path, r.project.root),
        None => name + " ["@ + r.project.ecosystem + "]"@,
    }
}

/// What identifies a row.
pub fn label_for(row: &Row) -> (r: String)
    ensures
        r@ == label_text(row@),
{
    let mut r = match file_name(row.project.root.as_str()) {
        Some(n) => n,
        None => String::new(),
    };
    assert(r@ =~= report::project_name(row@.project));
    match row.measured() {
        Some(t) => {
            r.append("/");
            r.append(strip_base(t.path.as_str(), row.project.root.as_str()).as_str());
        },
        None => {
            r.append(" [");
            r.append(row.project.ecosystem.as_str());
            r.append("]");
        },
    }
    assert(r@ =~= label_text(row@));
    r
}

/// The paints of the two sides of a row. Work that cannot be touched is drawn in
/// one colour, so that it reads as a block and not as a decision.
pub open spec fn side_paints(r: RowView, truecolor: bool) -> (Paint, Paint) {
    if r.project.git_state.safe() {
        (palette::space_paint(truecolor), palette::time_paint(truecolor))
    } else {
        (palette::held_paint(truecolor), palette::held_paint(truecolor))
    }
}

/// The marks in front of a row.
pub open spec fn marks_text(selected: bool, under_cursor: bool) -> Seq<char> {
    (if selected {
        "▸"@
    } else if under_cursor {
        "·"@
    } else {
        " "@
    }) + (if selected {
        "[x]"@
    } else {
        "[ ]"@
    }) + " "@
}

/// The bars of a row on either side of the spine.
pub open spec fn bars_text(r: RowView, b: Bars, field: nat, truecolor: bool) -> Seq<char> {
    let left = report::at_most(b.left, field as usize);
    let right = report::at_most(b.right, field as usize);
    let (space, cost) = side_paints(r, truecolor);
    text::repeated(' ', (field - left) as nat) + palette::painted(
        space,
        text::repeated('█', left),
    ) + palette::painted(palette::structure_paint(truecolor), "│"@) + palette::painted(
        cost,
        text::repeated('█', right),
    ) + text::repeated(' ', (field - right) as nat)
}

/// The label and the figures of a row.
pub open spec fn figures_text(r: RowView, w: u16) -> Seq<char> {
    " "@ + text::left_aligned(
        chart::tail_kept(label_text(r), name_width_of(w)),
        name_width_of(w),
    ) + " "@ + text::right_aligned(
        if r.measured() is Some {
            figures::bytes_text(r.bytes() as nat)
        } else {
            "measuring…"@
        },
        10,
    ) + " "@ + text::right_aligned(
        if r.measured() is Some {
            figures::duration_text(r.seconds() as nat)
        } else {
            Seq::empty()
        },
        8,
    )
}

/// One row of the list, on its line of the screen.
pub open spec fn row_body(
    r: RowView,
    b: Bars,
    under_cursor: bool,
    w: u16,
    truecolor: bool,
) -> Seq<char> {
    marks_text(r.selected, under_cursor) + bars_text(r, b, field_of(w), truecolor) + figures_text(
        r,
        w,
    )
}

/// One row of the list. The one under the cursor is in reverse video, and those
/// that are not measured are dimmed.
pub open spec fn row_line_text(
    r: RowView,
    b: Bars,
    under_cursor: bool,
    w: u16,
    truecolor: bool,
) -> (Look, Seq<char>) {
    let body = row_body(r, b, under_cursor, w, truecolor);
    if under_cursor {
        (Look::Reversed, body)
    } else if r.measured() is None {
        (Look::Plain, palette::painted(Paint::Dimmed, body))
    } else {
        (Look::Plain, body)
    }
}

fn push_marks(out: &mut String, selected: bool, under_cursor: bool)
    ensures
        final(out)@ == old(out)@ + marks_text(selected, under_cursor),
{
    if selected {
        out.append("▸");
        out.append("[x]");
    } else {
        if under_cursor {
            out.append("·");
        } else {
            out.append(" ");
        }
        out.append("[ ]");
    }
    out.append(" ");
    assert(out@ =~= old(out)@ + marks_text(selected, under_cursor));
}

fn shorter(n: usize, field: usize) -> (r: usize)
    ensures
        r == report::at_most(n, field),
        r <= field,
{
    if n <= field {
        n
    } else {
        field
    }
}

fn push_bars(out: &mut String, row: &Row, b: Bars, field: usize, truecolor: bool)
    ensures
        final(out)@ == old(out)@ + bars_text(row@, b, field as nat, truecolor),
{
    let left = shorter(b.left, field);
    let right = shorter(b.right, field);
    let mut bar_l = String::new();
    push_repeated(&mut bar_l, '█', left);
    let mut bar_r = String::new();
    push_repeated(&mut bar_r, '█', right);
    assert(bar_l@ =~= text::repeated('█', left as nat));
    assert(bar_r@ =~= text::repeated('█', right as nat));
    let (space, cost) = if row.project.git_state.is_safe_to_reclaim() {
        (space_freed(truecolor), time_cost(truecolor))
    } else {
        (held_back(truecolor), held_back(truecolor))
    };
    push_repeated(out, ' ', field - left);
    push_painted(out, space, bar_l.as_str());
    push_painted(out, structure(truecolor), "│");
    push_painted(out, cost, bar_r.as_str());
    push_repeated(out, ' ', field - right);
    proof {
        text::lemma_five_appended(
            old(out)@,
            text::repeated(' ', (field - left) as nat),
            palette::painted(space, text::repeated('█', left as nat)),
            palette::painted(palette::structure_paint(truecolor), "│"@),
            palette::painted(cost, text::repeated('█', right as nat)),
            text::repeated(' ', (field - right) as nat),
        );
    }
}

fn push_figures(out: &mut String, row: &Row, w: u16)
    ensures
        final(out)@ == old(out)@ + figures_text(row@, w),
{
    let label = truncate_left(label_for(row).as_str(), name_width(w));
    let size = match row.measured() {
        Some(_) => bytes(row.reclaimable_bytes()),
        None => "measuring…".to_owned(),
    };
    let time = match row.measured() {
        Some(_) => duration(row.rebuild_seconds() as u64),
        None => String::new(),
    };
    out.append(" ");
    push_left_aligned(out, label.as_str(), name_width(w));
    out.append(" ");
    push_right_aligned(out, size.as_str(), 10);
    out.append(" ");
    push_right_aligned(out, time.as_str(), 8);
    assert(out@ =~= old(out)@ + figures_text(row@, w));
}

/// One row of the list.
pub fn row_line(row: &Row, b: Bars, under_cursor: bool, w: u16, truecolor: bool) -> (r: (
    Look,
    String,
))
    ensures
        (r.0, r.1@) == row_line_text(row@, b, under_cursor, w, truecolor),
{
    let mut body = String::new();
    push_marks(&mut body, row.selected, under_cursor);
    push_bars(&mut body, row, b, field_for(w), truecolor);
    push_figures(&mut body, row, w);
    assert(body@ =~= row_body(row@, b, under_cursor, w, truecolor));
    if under_cursor {
        (Look::Reversed, body)
    } else if row.measured().is_none() {
        let mut r = String::new();
        push_painted(&mut r, dim(), body.as_str());
        assert(r@ =~= palette::painted(Paint::Dimmed, body@));
        (Look::Plain, r)
    } else {
        (Look::Plain, body)
    }
}

/// The break-even rule.
pub open spec fn rule_text(field: nat, rate_text: Seq<char>, truecolor: bool) -> Seq<char> {
    "  "@ + palette::painted(palette::structure_paint(truecolor), report::crossing(field)) + " "@
        + palette::painted(Paint::Dimmed, "break-even · "@ + rate_text + " MB/s"@)
}

fn rule_line(field: usize, rate_text: &str, truecolor: bool) -> (r: String)
    ensures
        r@ == rule_text(field as nat, rate_text@, truecolor),
{
    let mut words = String::new();
    words.append("break-even · ");
    words.append(rate_text);
    words.append(" MB/s");
    assert(words@ =~= "break-even · "@ + rate_text@ + " MB/s"@);
    let mut r = String::new();
    r.append("  ");
    push_painted(&mut r, structure(truecolor), crossing_lines(field).as_str());
    r.append(" ");
    push_painted(&mut r, dim(), words.as_str());
    assert(r@ =~= rule_text(field as nat, rate_text@, truecolor));
    r
}

/// A line of the list: a row, or the break-even rule that sits between rows.
pub enum Item {
    Rule,
    Row(int),
}

/// Where row `i` stands among the rows and the rule in front of row `cut`.
pub open spec fn position(i: int, cut: Option<usize>) -> int {
    if cut matches Some(c) && c <= i {
        i + 1
    } else {
        i
    }
}

/// How many lines `n` rows make with the rule.
pub open spec fn items_of(n: nat, cut: Option<usize>) -> nat {
    if cut is Some {
        n + 1
    } else {
        n
    }
}

/// What stands at a place among the rows and the rule.
pub open spec fn item_at(j: int, cut: Option<usize>) -> Item {
    match cut {
        Some(c) => if j < c {
            Item::Row(j)
        } else if j == c {
            Item::Rule
        } else {
            Item::Row(j - 1)
        },
        None => Item::Row(j),
    }
}

/// What stands first on the screen: the first row of the view, so that the rule
/// never takes the top line from it.
pub open spec fn first_item(n: nat, offset: usize, cut: Option<usize>) -> int {
    if offset < n {
        position(offset as int, cut)
    } else {
        0
    }
}

/// The rows that can be seen and how they are drawn.
pub struct Drawing {
    pub rows: Seq<RowView>,
    pub bars: Seq<Bars>,
    pub cursor: usize,
    /// The row that the rule stands in front of.
    pub cut: Option<usize>,
}

impl Drawing {
    /// As many bars as rows, and a rule that is in front of one of them.
    pub open spec fn valid(self) -> bool {
        &&& self.rows.len() == self.bars.len()
        &&& self.cut matches Some(c) ==> c < self.rows.len()
    }

    /// The line for what stands at a place.
    #[verifier::opaque]
    pub open spec fn item_text(
        self,
        j: int,
        w: u16,
        rate_text: Seq<char>,
        truecolor: bool,
    ) -> (Look, Seq<char>) {
        match item_at(j, self.cut) {
            Item::Rule => (Look::Plain, rule_text(field_of(w), rate_text, truecolor)),
            Item::Row(i) => row_line_text(
                self.rows[i],
                self.bars[i],
                i == self.cursor,
                w,
                truecolor,
            ),
        }
    }
}

/// The visible row that the break-even rule stands in front of: the first that is
/// not worth reclaiming. Rows that are worth it can always be seen, so as many rows
/// stand above the rule as are worth it.
pub open spec fn rule_at(v: AppView) -> Option<usize> {
    let cut = app::cut_of(v.rows, v.worth_rate);
    if cut < v.visible().len() {
        Some(cut as usize)
    } else {
        None
    }
}

fn find_rule(app: &App) -> (r: Option<usize>)
    ensures
        r == rule_at(app@),
{
    let cut = app.cut_index();
    if cut < app.visible_len() {
        Some(cut)
    } else {
        None
    }
}

/// What is drawn of the list.
pub open spec fn drawing(v: AppView, w: u16) -> Drawing {
    Drawing {
        rows: v.visible(),
        bars: v.bars(field_of(w) as usize),
        cursor: v.cursor,
        cut: rule_at(v),
    }
}

/// How many lines of `n` rows and the rule are on a screen with room for some.
pub open spec fn lines_shown(n: nat, cut: Option<usize>, offset: usize, room: nat) -> nat {
    let left = items_of(n, cut) - first_item(n, offset, cut);
    if left < room {
        left as nat
    } else {
        room
    }
}

/// The lines of the list, from the row at `offset` on.
pub open spec fn drawn_lines(
    d: Drawing,
    offset: usize,
    w: u16,
    h: u16,
    rate_text: Seq<char>,
    truecolor: bool,
) -> Seq<LineView> {
    let first = first_item(d.rows.len(), offset, d.cut);
    Seq::new(
        lines_shown(d.rows.len(), d.cut, offset, rows_in(h)),
        |k: int|
            {
                let (look, text) = d.item_text(first + k, w, rate_text, truecolor);
                LineView { y: (HEADER_ROWS + k) as u16, look, text }
            },
    )
}

/// The lines of the list.
pub open spec fn list_lines(
    v: AppView,
    w: u16,
    h: u16,
    rate_text: Seq<char>,
    truecolor: bool,
) -> Seq<LineView> {
    drawn_lines(drawing(v, w), v.offset, w, h, rate_text, truecolor)
}

/// The line of the list at place `j`: the rule, or else row `i`.
fn item_line(
    rows: &Vec<&Row>,
    bars: &Vec<Bars>,
    rule: bool,
    i: usize,
    cursor: usize,
    w: u16,
    rate_text: &str,
    truecolor: bool,
    Ghost(j): Ghost<int>,
    Ghost(cut): Ghost<Option<usize>>,
) -> (r: (Look, String))
    requires
        i < rows@.len() == bars@.len(),
        item_at(j, cut) == if rule {
            Item::Rule
        } else {
            Item::Row(i as int)
        },
    ensures
        (r.0, r.1@) == (Drawing {
            rows: app::ref_views(rows@),
            bars: bars@,
            cursor,
            cut,
        }).item_text(j, w, rate_text@, truecolor),
{
    reveal(Drawing::item_text);
    if rule {
        (Look::Plain, rule_line(field_for(w), rate_text, truecolor))
    } else {
        row_line(rows[i], bars[i], i == cursor, w, truecolor)
    }
}

/// The lines for the rows from the one at `offset` on.
fn draw_lines(
    rows: &Vec<&Row>,
    bars: &Vec<Bars>,
    cursor: usize,
    cut: Option<usize>,
    offset: usize,
    w: u16,
    h: u16,
    rate_text: &str,
    truecolor: bool,
) -> (r: Vec<Line>)
    requires
        rows@.len() == bars@.len(),
        cut matches Some(c) ==> c < rows@.len(),
    ensures
        line_views(r@) == drawn_lines(
            Drawing { rows: app::ref_views(rows@), bars: bars@, cursor, cut },
            offset,
            w,
            h,
            rate_text@,
            truecolor,
        ),
{
    let n = rows.len();
    let ghost d = Drawing { rows: app::ref_views(rows@), bars: bars@, cursor, cut };
    let vp = viewport_rows(h);
    let mut r: Vec<Line> = Vec::new();
    let ghost goal = drawn_lines(d, offset, w, h, rate_text@, truecolor);
    let ghost first = first_item(n as nat, offset, cut);
    // The row at hand, and whether the rule has still to be drawn before it.
    let mut i: usize = if offset < n {
        offset
    } else {
        0
    };
    let mut rule = match cut {
        Some(c) => i < c || offset >= n,
        None => false,
    };
    let mut k: usize = 0;
    while k < vp && (i < n)
        invariant
            d == (Drawing { rows: app::ref_views(rows@), bars: bars@, cursor, cut }),
            n == rows@.len() == bars@.len(),
            cut matches Some(c) ==> c < n,
            vp == rows_in(h),
            first == first_item(n as nat, offset, cut),
            goal == drawn_lines(d, offset, w, h, rate_text@, truecolor),
            k <= vp,
            i <= n,
            rule ==> (cut matches Some(c) && i <= c),
            !rule ==> (cut matches Some(c) ==> first + k > c),
            first + k == if rule {
                i as int
            } else {
                position(i as int, cut)
            },
            first + k <= items_of(n as nat, cut),
            k <= goal.len(),
            r@.len() == k,
            forall|m: int| 0 <= m < k ==> (#[trigger] r@[m])@ == goal[m],
        decreases vp - k,
    {
        let y: u16 = HEADER_ROWS + k as u16;
        let here = match cut {
            Some(c) => rule && c == i,
            None => false,
        };
        let (look, text) = item_line(
            rows,
            bars,
            here,
            i,
            cursor,
            w,
            rate_text,
            truecolor,
            Ghost(first + k),
            Ghost(cut),
        );
        r.push(Line { y, look, text });
        if here {
            rule = false;
        } else {
            i = i + 1;
        }
        k = k + 1;
    }
    assert(line_views(r@) =~= goal);
    r
}

/// The lines of the list. The rule sits between rows and takes the place of none.
pub fn list(app: &App, w: u16, h: u16, rate_text: &str, truecolor: bool) -> (r: Vec<Line>)
    ensures
        line_views(r@) == list_lines(app@, w, h, rate_text@, truecolor),
{
    let bars = app.bars(field_for(w));
    let rows = app.visible();
    let cut = find_rule(app);
    draw_lines(&rows, &bars, app.cursor, cut, app.offset, w, h, rate_text, truecolor)
}

proof fn lemma_row_drawn(
    d: Drawing,
    offset: usize,
    w: u16,
    h: u16,
    rate_text: Seq<char>,
    truecolor: bool,
    i: int,
)
    requires
        d.valid(),
        offset <= i < d.rows.len(),
        position(i, d.cut) - position(offset as int, d.cut) < rows_in(h),
    ensures
        ({
            let k = position(i, d.cut) - position(offset as int, d.cut);
            let lines = drawn_lines(d, offset, w, h, rate_text, truecolor);
            &&& 0 <= k < lines.len()
            &&& lines[k].y == HEADER_ROWS + k
            &&& (lines[k].look, lines[k].text) == row_line_text(
                d.rows[i],
                d.bars[i],
                i == d.cursor,
                w,
                truecolor,
            )
        }),
{
    reveal(Drawing::item_text);
}

/// Every row from the top of the view on is drawn, as far as the screen goes: the
/// rule only moves those behind it one line down.
pub proof fn the_rule_swallows_no_row(
    v: AppView,
    w: u16,
    h: u16,
    rate_text: Seq<char>,
    truecolor: bool,
    i: int,
)
    requires
        v.offset <= i < v.visible().len(),
        position(i, drawing(v, w).cut) - position(v.offset as int, drawing(v, w).cut) < rows_in(
            h,
        ),
    ensures
        ({
            let cut = drawing(v, w).cut;
            let k = position(i, cut) - position(v.offset as int, cut);
            let lines = list_lines(v, w, h, rate_text, truecolor);
            &&& 0 <= k < lines.len()
            &&& lines[k].y == HEADER_ROWS + k
            &&& (lines[k].look, lines[k].text) == row_line_text(
                v.visible()[i],
                drawing(v, w).bars[i],
                i == v.cursor,
                w,
                truecolor,
            )
        }),
{
    lemma_row_drawn(drawing(v, w), v.offset, w, h, rate_text, truecolor, i);
}

/// The visible row that the list has on a line of the screen, if one: not on the rule,
/// and not below the last line that there is room for.
pub open spec fn row_drawn_at(v: AppView, y: int) -> Option<int> {
    let n = v.visible().len();
    let cut = rule_at(v);
    let k = y - HEADER_ROWS;
    if 0 <= k < lines_shown(n, cut, v.offset, v.viewport as nat) {
        match item_at(first_item(n, v.offset, cut) + k, cut) {
            Item::Row(i) => Some(i),
            Item::Rule => None,
        }
    } else {
        None
    }
}

/// Which visible row a screen line belongs to, for mouse clicks.
pub fn row_at(app: &App, screen_row: u16) -> (r: Option<usize>)
    ensures
        r is Some <==> row_drawn_at(app@, screen_row as int) is Some,
        r matches Some(i) ==> row_drawn_at(app@, screen_row as int) == Some(i as int) && i
            < app@.visible().len(),
{
    if screen_row < HEADER_ROWS {
        return None;
    }
    let down: usize = (screen_row - HEADER_ROWS) as usize;
    if down >= app.viewport {
        return None;
    }
    let n = app.visible_len();
    let cut = find_rule(app);
    let starts_over = app.offset >= n;
    let first: usize = if starts_over {
        0
    } else {
        app.offset
    };
    match cut {
        Some(c) => {
            if first < c || starts_over {
                // The rule is on the screen or below it.
                if down < c - first {
                    Some(first + down)
                } else if down == c - first {
                    None
                } else if down - 1 < n - first {
                    Some(first + (down - 1))
                } else {
                    None
                }
            } else if down < n - first {
                Some(first + down)
            } else {
                None
            }
        },
        None => {
            if down < n - first {
                Some(first + down)
            } else {
                None
            }
        },
    }
}

/// A click lands on what is drawn. Where it finds a row, the list has drawn that row
/// on that line, and where it finds none, the list has drawn no row there: nothing at
/// all, or the rule.
pub proof fn a_click_finds_what_is_drawn(
    v: AppView,
    w: u16,
    h: u16,
    rate_text: Seq<char>,
    truecolor: bool,
    y: u16,
)
    requires
        v.viewport == rows_in(h),
    ensures
        ({
            let lines = list_lines(v, w, h, rate_text, truecolor);
            let k = y - HEADER_ROWS;
            match row_drawn_at(v, y as int) {
                Some(i) => {
                    &&& 0 <= i < v.visible().len()
                    &&& 0 <= k < lines.len()
                    &&& lines[k].y == y
                    &&& (lines[k].look, lines[k].text) == row_line_text(
                        v.visible()[i],
                        drawing(v, w).bars[i],
                        i == v.cursor,
                        w,
                        truecolor,
                    )
                },
                None => {
                    ||| !(0 <= k < lines.len())
                    ||| lines[k] == plain_line(y, rule_text(field_of(w), rate_text, truecolor))
                },
            }
        }),
{
    reveal(Drawing::item_text);
}

/// Every row that the list draws is found by a click on its line.
pub proof fn a_row_is_found_where_it_is_drawn(
    v: AppView,
    w: u16,
    h: u16,
    rate_text: Seq<char>,
    truecolor: bool,
    k: int,
    i: int,
)
    requires
        v.viewport == rows_in(h),
        0 <= k < list_lines(v, w, h, rate_text, truecolor).len(),
        item_at(first_item(v.visible().len(), v.offset, rule_at(v)) + k, rule_at(v))
            == Item::Row(i),
    ensures
        row_drawn_at(v, list_lines(v, w, h, rate_text, truecolor)[k].y as int) == Some(i),
{
}

/// No two lines belong to the same row.
pub proof fn a_row_is_on_one_line(v: AppView, y: int, z: int)
    requires
        row_drawn_at(v, y) is Some,
        row_drawn_at(v, y) == row_drawn_at(v, z),
    ensures
        y == z,
{
}

/// A click on the header or on the footer finds no row. In a window with fewer than
/// seven lines the footer is drawn over the list.
pub proof fn the_margins_hold_no_row(v: AppView, h: u16, y: u16)
    requires
        v.viewport == rows_in(h),
        y < HEADER_ROWS || (h >= HEADER_ROWS + FOOTER_ROWS && y >= h - 2),
    ensures
        row_drawn_at(v, y as int) is None,
{
}

/// What is about to be deleted.
pub open spec fn about_text(v: AppView, truecolor: bool) -> Seq<char> {
    "  "@ + palette::painted(palette::held_paint(truecolor), "About to delete"@) + " "@
        + palette::painted(
        palette::emphasis_paint(truecolor),
        figures::bytes_text(ranking::total(app::bytes_of(app::selected(v.rows)))),
    ) + " across "@ + text::decimal(app::selected(v.rows).len()) + " target(s)."@
}

/// What restoring it costs.
pub open spec fn cost_text(v: AppView) -> Seq<char> {
    "  "@ + palette::painted(
        Paint::Dimmed,
        "Restoring all of it would cost about "@ + figures::duration_text(
            ranking::total(app::seconds_of(app::selected(v.rows))),
        ) + "."@,
    )
}

/// One of the directories that are about to be deleted.
pub open spec fn item_path_text(r: RowView, w: u16) -> Seq<char> {
    "    "@ + chart::head_kept(
        match r.measured() {
            Some(t) => report::path_shown(t.path),
            None => Seq::empty(),
        },
        less(w, 6),
    )
}

/// How many directories the confirmation has room for.
pub open spec fn paths_shown(v: AppView, h: u16) -> nat {
    if app::selected(v.rows).len() <= less(h, 11) {
        app::selected(v.rows).len()
    } else {
        less(h, 11)
    }
}

/// The directories that are about to be deleted, one to a line.
pub open spec fn path_lines(v: AppView, w: u16, h: u16) -> Seq<LineView> {
    Seq::new(
        paths_shown(v, h),
        |k: int| plain_line((7 + k) as u16, item_path_text(app::selected(v.rows)[k], w)),
    )
}

/// The line for the directories that there is no room for.
pub open spec fn more_lines(v: AppView, h: u16) -> Seq<LineView> {
    let n = app::selected(v.rows).len();
    if n > less(h, 11) {
        seq![
            plain_line(
                (7 + less(h, 11)) as u16,
                "    "@ + palette::painted(
                    Paint::Dimmed,
                    "… and "@ + text::decimal((n - less(h, 11)) as nat) + " more"@,
                ),
            ),
        ]
    } else {
        Seq::empty()
    }
}

/// The confirmation.
pub open spec fn confirm_lines(v: AppView, w: u16, h: u16, truecolor: bool) -> Seq<LineView> {
    seq![plain_line(4, about_text(v, truecolor)), plain_line(5, cost_text(v))] + path_lines(
        v,
        w,
        h,
    ) + more_lines(v, h)
}

fn about_line(app: &App, truecolor: bool) -> (r: String)
    requires
        app::totals_fit(app@.rows),
    ensures
        r@ == about_text(app@, truecolor),
{
    let selected = app.selected_rows();
    assert(app::ref_views(selected@).len() == selected@.len());
    let mut r = String::new();
    r.append("  ");
    push_painted(&mut r, held_back(truecolor), "About to delete");
    r.append(" ");
    push_painted(&mut r, emphasis(truecolor), bytes(app.selected_bytes()).as_str());
    r.append(" across ");
    push_decimal(&mut r, selected.len() as u64);
    r.append(" target(s).");
    assert(r@ =~= about_text(app@, truecolor));
    r
}

fn cost_line(app: &App) -> (r: String)
    requires
        app::totals_fit(app@.rows),
    ensures
        r@ == cost_text(app@),
{
    let mut words = String::new();
    words.append("Restoring all of it would cost about ");
    words.append(duration(app.selected_seconds()).as_str());
    words.append(".");
    let mut r = String::new();
    r.append("  ");
    push_painted(&mut r, dim(), words.as_str());
    assert(r@ =~= cost_text(app@));
    r
}

fn item_path_line(row: &Row, w: u16) -> (r: String)
    ensures
        r@ == item_path_text(row@, w),
{
    let path = match row.measured() {
        Some(t) => display_path(t.path.as_str()),
        None => String::new(),
    };
    let mut r = String::new();
    r.append("    ");
    r.append(truncate(path.as_str(), room(w, 6)).as_str());
    assert(path@ =~= match row@.measured() {
        Some(t) => report::path_shown(t.path),
        None => Seq::empty(),
    });
    assert(r@ =~= item_path_text(row@, w));
    r
}

fn push_paths(out: &mut Vec<Line>, app: &App, w: u16, h: u16)
    ensures
        line_views(final(out)@) == line_views(old(out)@) + path_lines(app@, w, h) + more_lines(
            app@,
            h,
        ),
{
    let selected = app.selected_rows();
    let ghost rows = app::selected(app@.rows);
    assert(rows.len() == selected@.len());
    let space = room(h, 11);
    let n: usize = if selected.len() <= space {
        selected.len()
    } else {
        space
    };
    let ghost lines = path_lines(app@, w, h);
    let ghost start = line_views(out@);
    let mut k: usize = 0;
    assert(start + lines.take(0) =~= start);
    while k < n
        invariant
            rows == app::selected(app@.rows),
            rows == app::ref_views(selected@),
            lines == path_lines(app@, w, h),
            n == paths_shown(app@, h),
            n <= space == less(h, 11),
            n <= selected@.len(),
            k <= n,
            line_views(out@) == start + lines.take(k as int),
        decreases n - k,
    {
        let ghost before = line_views(out@);
        assert(rows[k as int] == selected@[k as int]@);
        push(out, 7 + k as u16, Look::Plain, item_path_line(selected[k], w));
        proof {
            assert(lines.take(k + 1) =~= lines.take(k as int).push(lines[k as int]));
            assert(start + lines.take(k + 1) =~= before.push(lines[k as int]));
        }
        k = k + 1;
    }
    assert(lines.take(n as int) =~= lines);
    let ghost before = line_views(out@);
    if selected.len() > space {
        let mut words = String::new();
        words.append("… and ");
        push_decimal(&mut words, (selected.len() - space) as u64);
        words.append(" more");
        let mut r = String::new();
        r.append("    ");
        push_painted(&mut r, dim(), words.as_str());
        assert(words@ =~= "… and "@ + text::decimal((rows.len() - space) as nat) + " more"@);
        assert(r@ =~= "    "@ + palette::painted(Paint::Dimmed, words@));
        push(out, 7 + space as u16, Look::Plain, r);
        assert(line_views(out@) =~= before + more_lines(app@, h));
    } else {
        assert(before + Seq::<LineView>::empty() =~= before);
    }
}

/// The confirmation. It is itemised, always: nobody consents to a figure that they
/// have not seen broken down.
pub fn confirm(app: &App, w: u16, h: u16, truecolor: bool) -> (r: Vec<Line>)
    requires
        app::totals_fit(app@.rows),
    ensures
        line_views(r@) == confirm_lines(app@, w, h, truecolor),
{
    let mut r: Vec<Line> = Vec::new();
    push(&mut r, HEADER_ROWS, Look::Plain, about_line(app, truecolor));
    push(&mut r, HEADER_ROWS + 1, Look::Plain, cost_line(app));
    assert(line_views(r@) =~= seq![
        plain_line(4, about_text(app@, truecolor)),
        plain_line(5, cost_text(app@)),
    ]);
    push_paths(&mut r, app, w, h);
    r
}

/// The confirmation names every directory that it has room for, and says how many
/// more there are.
pub proof fn the_confirmation_is_itemised(v: AppView, w: u16, h: u16, truecolor: bool, k: int)
    requires
        0 <= k < app::selected(v.rows).len(),
    ensures
        k < less(h, 11) ==> {
            let lines = confirm_lines(v, w, h, truecolor);
            &&& 2 + k < lines.len()
            &&& lines[2 + k] == plain_line(
                (7 + k) as u16,
                item_path_text(app::selected(v.rows)[k], w),
            )
        },
        k >= less(h, 11) ==> more_lines(v, h).len() == 1,
{
}

/// The keys and what they do.
pub open spec fn key_texts(i: int) -> (Seq<char>, Seq<char>) {
    if i == 0 {
        ("↑ ↓  j k"@, "move"@)
    } else if i == 1 {
        ("g  G"@, "top / bottom"@)
    } else if i == 2 {
        ("PgUp PgDn"@, "page"@)
    } else if i == 3 {
        ("space"@, "select or deselect"@)
    } else if i == 4 {
        ("a"@, "select everything above the line"@)
    } else if i == 5 {
        ("n"@, "clear the selection"@)
    } else if i == 6 {
        ("t"@, "show or hide rows below the line"@)
    } else if i == 7 {
        ("s"@, "scan again"@)
    } else if i == 8 {
        ("r  Enter"@, "reclaim what is selected"@)
    } else {
        ("q  Esc"@, "quit"@)
    }
}

/// A key and what it does.
pub open spec fn key_text(i: int, w: u16, truecolor: bool) -> Seq<char> {
    "    "@ + palette::painted(
        palette::emphasis_paint(truecolor),
        text::left_aligned(key_texts(i).0, 12),
    ) + " "@ + palette::painted(
        Paint::Dimmed,
        chart::head_kept(key_texts(i).1, less(w, 20)),
    )
}

/// The key reference.
pub open spec fn help_lines(w: u16, truecolor: bool) -> Seq<LineView> {
    Seq::new(10, |i: int| plain_line((HEADER_ROWS + i) as u16, key_text(i, w, truecolor)))
}

fn key_of(i: usize) -> (r: (&'static str, &'static str))
    ensures
        (r.0@, r.1@) == key_texts(i as int),
{
    if i == 0 {
        ("↑ ↓  j k", "move")
    } else if i == 1 {
        ("g  G", "top / bottom")
    } else if i == 2 {
        ("PgUp PgDn", "page")
    } else if i == 3 {
        ("space", "select or deselect")
    } else if i == 4 {
        ("a", "select everything above the line")
    } else if i == 5 {
        ("n", "clear the selection")
    } else if i == 6 {
        ("t", "show or hide rows below the line")
    } else if i == 7 {
        ("s", "scan again")
    } else if i == 8 {
        ("r  Enter", "reclaim what is selected")
    } else {
        ("q  Esc", "quit")
    }
}

fn key_line(i: usize, w: u16, truecolor: bool) -> (r: String)
    ensures
        r@ == key_text(i as int, w, truecolor),
{
    let (name, what) = key_of(i);
    let mut padded = String::new();
    push_left_aligned(&mut padded, name, 12);
    assert(padded@ =~= text::left_aligned(name@, 12));
    let mut r = String::new();
    r.append("    ");
    push_painted(&mut r, emphasis(truecolor), padded.as_str());
    r.append(" ");
    push_painted(&mut r, dim(), truncate(what, room(w, 20)).as_str());
    assert(r@ =~= key_text(i as int, w, truecolor));
    r
}

/// The key reference.
pub fn help(w: u16, truecolor: bool) -> (r: Vec<Line>)
    ensures
        line_views(r@) == help_lines(w, truecolor),
{
    let mut r: Vec<Line> = Vec::new();
    let mut i: usize = 0;
    while i < 10
        invariant
            i <= 10,
            r@.len() == i,
            forall|k: int| 0 <= k < i ==> (#[trigger] r@[k])@ == help_lines(w, truecolor)[k],
        decreases 10 - i,
    {
        r.push(
            Line {
                y: HEADER_ROWS + i as u16,
                look: Look::Plain,
                text: key_line(i, w, truecolor),
            },
        );
        i = i + 1;
    }
    assert(line_views(r@) =~= help_lines(w, truecolor));
    r
}

/// What can be pressed.
pub open spec fn hint_text(m: Mode) -> Seq<char> {
    match m {
        Mode::Confirming => "y  delete    any other key  cancel"@,
        Mode::Reclaiming => "working…"@,
        Mode::Help(_) => "any key  back"@,
        _ => "space select   a all above line   r reclaim   t show all   s rescan   ? help   q quit"@,
    }
}

/// What is selected.
pub open spec fn selection_text(v: AppView, truecolor: bool) -> Seq<char> {
    match v.mode {
        Mode::Confirming | Mode::Reclaiming | Mode::Help(_) => Seq::empty(),
        _ => palette::painted(
            palette::emphasis_paint(truecolor),
            figures::bytes_text(ranking::total(app::bytes_of(app::selected(v.rows)))),
        ) + " selected · "@ + figures::duration_text(
            ranking::total(app::seconds_of(app::selected(v.rows))),
        ) + " "@,
    }
}

/// The lines below the list.
pub open spec fn footer_lines(v: AppView, w: u16, h: u16, truecolor: bool) -> Seq<LineView> {
    let y = less(h, 2) as u16;
    seq![
        LineView { y, look: Look::Fresh, text: "  "@ + selection_text(v, truecolor) },
        plain_line(
            (y + 1) as u16,
            "  "@ + palette::painted(
                Paint::Dimmed,
                chart::head_kept(hint_text(v.mode), less(w, 4)),
            ),
        ),
    ]
}

fn selection_line(app: &App, truecolor: bool) -> (r: String)
    requires
        app::totals_fit(app@.rows),
    ensures
        r@ == "  "@ + selection_text(app@, truecolor),
{
    let mut r = String::new();
    r.append("  ");
    match &app.mode {
        Mode::Confirming => {},
        Mode::Reclaiming => {},
        Mode::Help(_) => {},
        _ => {
            push_painted(&mut r, emphasis(truecolor), bytes(app.selected_bytes()).as_str());
            r.append(" selected · ");
            r.append(duration(app.selected_seconds()).as_str());
            r.append(" ");
        },
    }
    assert(r@ =~= "  "@ + selection_text(app@, truecolor));
    r
}

fn hint_line(app: &App, w: u16) -> (r: String)
    ensures
        r@ == "  "@ + palette::painted(
            Paint::Dimmed,
            chart::head_kept(hint_text(app@.mode), less(w, 4)),
        ),
{
    let hint = match &app.mode {
        Mode::Confirming => "y  delete    any other key  cancel",
        Mode::Reclaiming => "working…",
        Mode::Help(_) => "any key  back",
        _ => "space select   a all above line   r reclaim   t show all   s rescan   ? help   q quit",
    };
    let mut r = String::new();
    r.append("  ");
    push_painted(&mut r, dim(), truncate(hint, room(w, 4)).as_str());
    assert(r@ =~= "  "@ + palette::painted(
        Paint::Dimmed,
        chart::head_kept(hint_text(app@.mode), less(w, 4)),
    ));
    r
}

/// The lines below the list.
pub fn footer(app: &App, w: u16, h: u16, truecolor: bool) -> (r: Vec<Line>)
    requires
        app::totals_fit(app@.rows),
    ensures
        line_views(r@) == footer_lines(app@, w, h, truecolor),
{
    let y: u16 = h.saturating_sub(2);
    let mut r: Vec<Line> = Vec::new();
    push(&mut r, y, Look::Fresh, selection_line(app, truecolor));
    push(&mut r, y + 1, Look::Plain, hint_line(app, w));
    assert(line_views(r@) =~= footer_lines(app@, w, h, truecolor));
    r
}

/// What is between the header and the footer.
pub open spec fn middle_lines(
    v: AppView,
    w: u16,
    h: u16,
    rate_text: Seq<char>,
    truecolor: bool,
) -> Seq<LineView> {
    match v.mode {
        Mode::Help(_) => help_lines(w, truecolor),
        Mode::Confirming => confirm_lines(v, w, h, truecolor),
        _ => list_lines(v, w, h, rate_text, truecolor),
    }
}

fn push_all(out: &mut Vec<Line>, lines: Vec<Line>)
    ensures
        line_views(final(out)@) == line_views(old(out)@) + line_views(lines@),
{
    let ghost all = lines@;
    let ghost start = line_views(out@);
    assert(start + line_views(all.take(0)) =~= start);
    for line in it: lines
        invariant
            it.seq() == all,
            line_views(out@) == start + line_views(all.take(it.index() as int)),
    {
        let ghost i = it.index() as int;
        let ghost before = line_views(out@);
        out.push(line);
        proof {
            assert(line_views(out@) =~= before.push(line@));
            assert(all.take(i + 1) =~= all.take(i).push(line));
            assert(line_views(all.take(i + 1)) =~= line_views(all.take(i)).push(line@));
            assert(start + line_views(all.take(i + 1)) =~= before.push(line@));
        }
    }
    assert(all.take(all.len() as int) =~= all);
}

/// One frame, as the lines that make it up. `rate_text` is the break-even rate as it
/// is shown.
pub fn render(app: &App, w: u16, h: u16, rate_text: &str, truecolor: bool) -> (r: Vec<Line>)
    requires
        app::totals_fit(app@.rows),
    ensures
        line_views(r@) == header_lines(app@, w, truecolor) + middle_lines(
            app@,
            w,
            h,
            rate_text@,
            truecolor,
        ) + footer_lines(app@, w, h, truecolor),
{
    let mut r = header(app, w, truecolor);
    let middle = match &app.mode {
        Mode::Help(_) => help(w, truecolor),
        Mode::Confirming => confirm(app, w, h, truecolor),
        _ => list(app, w, h, rate_text, truecolor),
    };
    push_all(&mut r, middle);
    push_all(&mut r, footer(app, w, h, truecolor));
    r
}

} // verus!
