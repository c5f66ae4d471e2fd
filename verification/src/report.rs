//! The printed report.
//!
//! Every reclaimable target is one row on a diverging chart: space freed grows
//! left of a centre spine, rebuild time grows right. Rows are ranked best first,
//! and the point where they stop leaning left is drawn as a rule: beyond it
//! reclaiming is not worth the wait. A report is a list of lines; whoever asked for
//! it prints them.
use crate::chart;
use crate::chart::{break_even_at, truncate_left, truncate_right, Bars};
use crate::deals;
use crate::deals::{blocked_projects, draw_rows, ranked_rows};
use crate::figures;
use crate::figures::{bytes, duration, size_of};
use crate::palette;
use crate::palette::{
    dim, emphasis, held_back, push_opening, push_painted, space_freed, structure, time_cost, Paint,
};
use crate::paths;
use crate::paths::{file_name, strip_base};
use crate::prose;
use crate::prose::{lower_bound_warning, note, shared_warning};
use crate::ranking;
use crate::ranking::sum_of;
use crate::reclaim;
use crate::reclaim::{bytes_from, seconds_from, Doomed, DoomedView};
use crate::scan;
use crate::scan::{Project, ProjectView, Target, TargetView};
use crate::text;
use crate::text::{
    chars_of, push_decimal, push_left_aligned, push_line, push_lines, push_repeated,
    push_right_aligned, text_of,
};
use vstd::prelude::*;
use vstd::string::*;

verus! {

/// Columns for the bars on either side, for the label, for the size and for the
/// time. With the spine, the marks and the gaps a row takes 79 columns.
pub const LEFT_FIELD: usize = 16;

pub const RIGHT_FIELD: usize = 16;

pub const NAME_FIELD: usize = 24;

pub const SIZE_FIELD: usize = 9;

pub const TIME_FIELD: usize = 7;

/// How many rows past the break-even rule are shown, so that it is visible that
/// the list goes on.
pub const ROWS_BELOW_LINE: usize = 3;

/// The name of a project: the last name of its root, or nothing.
pub open spec fn project_name(p: ProjectView) -> Seq<char> {
    match paths::last_name(p.root) {
        Some(n) => n,
        None => Seq::empty(),
    }
}

/// What identifies a row: the project and the target in it, cut at the left.
pub open spec fn label_text(p: ProjectView, t: TargetView) -> Seq<char> {
    let target = paths::relative_to(t.path, p.root);
    let full = if project_name(p).len() == 0 {
        target
    } else {
        project_name(p) + "/"@ + target
    };
    chart::tail_kept(full, NAME_FIELD as nat)
}

/// `project/target`, which is what identifies a row to a human.
pub fn row_label(p: &Project, t: &Target) -> (r: String)
    ensures
        r@ == label_text(p@, t@),
        r@.len() <= NAME_FIELD,
{
    let target = strip_base(t.path.as_str(), p.root.as_str());
    let full = match file_name(p.root.as_str()) {
        Some(name) => {
            if name.as_str().unicode_len() == 0 {
                target
            } else {
                let mut full = name;
                full.append("/");
                full.append(target.as_str());
                full
            }
        },
        None => target,
    };
    truncate_left(full.as_str(), NAME_FIELD)
}

/// The command that restores a target, in line with the labels.
pub open spec fn restore_text(t: TargetView) -> Seq<char> {
    text::repeated(' ', 37) + palette::painted(
        Paint::Dimmed,
        chart::head_kept(t.restore_command, 41),
    )
}

/// The command that puts a target back, printed under its row.
pub fn restore_line(t: &Target) -> (r: String)
    ensures
        r@ == restore_text(t@),
{
    let indent: usize = 2 + LEFT_FIELD + 1 + RIGHT_FIELD + 2;
    let mut r = String::new();
    push_repeated(&mut r, ' ', indent);
    let shown = truncate_right(t.restore_command.as_str(), 78 - indent);
    push_painted(&mut r, dim(), shown.as_str());
    assert(r@ =~= restore_text(t@));
    r
}

/// The smaller of two lengths.
pub open spec fn at_most(n: usize, field: usize) -> nat {
    if n <= field {
        n as nat
    } else {
        field as nat
    }
}

/// How many columns a label has beside a size of some length: a size that sticks out
/// of its field takes them from the label.
pub open spec fn label_field(size: nat) -> nat {
    if size <= SIZE_FIELD {
        NAME_FIELD as nat
    } else if size <= SIZE_FIELD + NAME_FIELD {
        (SIZE_FIELD + NAME_FIELD - size) as nat
    } else {
        0
    }
}

/// As much of a label as there is room for beside a size.
pub open spec fn label_beside(label: Seq<char>, size: Seq<char>) -> Seq<char> {
    if size.len() <= SIZE_FIELD {
        label
    } else {
        chart::tail_kept(label, label_field(size.len()))
    }
}

/// What stands right of the bars: the mark for a bar that was cut off, then the
/// label, the size and the time, with a gap between them.
pub open spec fn row_tail(b: Bars, label: Seq<char>, size: Seq<char>, time: Seq<char>) -> Seq<char> {
    text::repeated(' ', (RIGHT_FIELD - at_most(b.right, RIGHT_FIELD)) as nat) + (if b.overflowed {
        "▸"@
    } else {
        " "@
    }) + " "@ + text::left_aligned(label_beside(label, size), label_field(size.len())) + " "@
        + text::right_aligned(size, SIZE_FIELD as nat) + " "@ + text::right_aligned(
        time,
        TIME_FIELD as nat,
    )
}

/// One row of the chart.
pub open spec fn row_text(
    b: Bars,
    label: Seq<char>,
    size: Seq<char>,
    time: Seq<char>,
    truecolor: bool,
) -> Seq<char> {
    let left = at_most(b.left, LEFT_FIELD);
    let right = at_most(b.right, RIGHT_FIELD);
    "  "@ + text::repeated(' ', (LEFT_FIELD - left) as nat) + palette::painted(
        palette::space_paint(truecolor),
        text::repeated('█', left),
    ) + palette::painted(palette::structure_paint(truecolor), "│"@) + palette::painted(
        palette::time_paint(truecolor),
        text::repeated('█', right),
    ) + row_tail(b, label, size, time)
}

fn shorter(n: usize, field: usize) -> (r: usize)
    ensures
        r == at_most(n, field),
{
    if n <= field {
        n
    } else {
        field
    }
}

fn push_label(out: &mut String, label: &str, size: &str)
    ensures
        final(out)@ == old(out)@ + text::left_aligned(
            label_beside(label@, size@),
            label_field(size@.len()),
        ),
{
    let n = chars_of(size).len();
    if n <= SIZE_FIELD {
        push_left_aligned(out, label, NAME_FIELD);
    } else {
        let field: usize = (SIZE_FIELD + NAME_FIELD).saturating_sub(n);
        let cut = truncate_left(label, field);
        push_left_aligned(out, cut.as_str(), field);
    }
}

fn push_row_tail(out: &mut String, b: Bars, label: &str, size: &str, time: &str)
    ensures
        final(out)@ == old(out)@ + row_tail(b, label@, size@, time@),
{
    let right = shorter(b.right, RIGHT_FIELD);
    push_repeated(out, ' ', RIGHT_FIELD - right);
    if b.overflowed {
        out.append("▸");
    } else {
        out.append(" ");
    }
    out.append(" ");
    push_label(out, label, size);
    out.append(" ");
    push_right_aligned(out, size, SIZE_FIELD);
    out.append(" ");
    push_right_aligned(out, time, TIME_FIELD);
    proof {
        text::lemma_eight_appended(
            old(out)@,
            text::repeated(' ', (RIGHT_FIELD - right) as nat),
            if b.overflowed {
                "▸"@
            } else {
                " "@
            },
            " "@,
            text::left_aligned(label_beside(label@, size@), label_field(size@.len())),
            " "@,
            text::right_aligned(size@, SIZE_FIELD as nat),
            " "@,
            text::right_aligned(time@, TIME_FIELD as nat),
        );
    }
}

/// One row of the chart. Bars that are too long are cut off, so that the spine
/// keeps its column whatever happens.
pub fn bar_row(b: Bars, label: &str, size: &str, time: &str, truecolor: bool) -> (r: String)
    ensures
        r@ == row_text(b, label@, size@, time@, truecolor),
{
    let left = shorter(b.left, LEFT_FIELD);
    let right = shorter(b.right, RIGHT_FIELD);
    let mut bar_l = String::new();
    push_repeated(&mut bar_l, '█', left);
    let mut bar_r = String::new();
    push_repeated(&mut bar_r, '█', right);
    assert(bar_l@ =~= text::repeated('█', left as nat));
    assert(bar_r@ =~= text::repeated('█', right as nat));
    let mut r = String::new();
    r.append("  ");
    push_repeated(&mut r, ' ', LEFT_FIELD - left);
    push_painted(&mut r, space_freed(truecolor), bar_l.as_str());
    push_painted(&mut r, structure(truecolor), "│");
    push_painted(&mut r, time_cost(truecolor), bar_r.as_str());
    push_row_tail(&mut r, b, label, size, time);
    assert(r@ =~= row_text(b, label@, size@, time@, truecolor));
    r
}

/// What shows of a row, without the escape sequences.
pub open spec fn row_shown(b: Bars, label: Seq<char>, size: Seq<char>, time: Seq<char>) -> Seq<
    char,
> {
    let left = at_most(b.left, LEFT_FIELD);
    let right = at_most(b.right, RIGHT_FIELD);
    "  "@ + text::repeated(' ', (LEFT_FIELD - left) as nat) + text::repeated('█', left) + "│"@
        + text::repeated('█', right) + row_tail(b, label, size, time)
}

proof fn lemma_plain_repeated(c: char, n: nat)
    requires
        c != '\u{1b}',
    ensures
        palette::plain(text::repeated(c, n)),
{
}

proof fn lemma_plain_both(a: Seq<char>, b: Seq<char>)
    requires
        palette::plain(a),
        palette::plain(b),
    ensures
        palette::plain(a + b),
{
    let s = a + b;
    assert forall|i: int| 0 <= i < s.len() implies s[i] != '\u{1b}' by {
        if i < a.len() {
            assert(a.contains(a[i]));
        } else {
            assert(b.contains(b[i - a.len()]));
        }
    }
}

proof fn lemma_plain_tail(b: Bars, label: Seq<char>, size: Seq<char>, time: Seq<char>)
    requires
        palette::plain(label),
        palette::plain(size),
        palette::plain(time),
    ensures
        palette::plain(row_tail(b, label, size, time)),
{
    reveal_strlit(" ");
    reveal_strlit("▸");
    let mark = if b.overflowed {
        "▸"@
    } else {
        " "@
    };
    let a = text::repeated(' ', (RIGHT_FIELD - at_most(b.right, RIGHT_FIELD)) as nat);
    let beside = label_beside(label, size);
    let field = label_field(size.len());
    let c = text::left_aligned(beside, field);
    let d = text::right_aligned(size, SIZE_FIELD as nat);
    let e = text::right_aligned(time, TIME_FIELD as nat);
    lemma_plain_repeated(' ', (RIGHT_FIELD - at_most(b.right, RIGHT_FIELD)) as nat);
    assert forall|i: int| 0 <= i < beside.len() implies beside[i] != '\u{1b}' by {
        if beside != label && i > 0 {
            assert(label.contains(beside[i]));
        } else if beside == label {
            assert(label.contains(label[i]));
        }
    }
    text::lemma_alignment(beside, field);
    text::lemma_alignment(size, SIZE_FIELD as nat);
    text::lemma_alignment(time, TIME_FIELD as nat);
    assert(palette::plain(c) && palette::plain(d) && palette::plain(e));
    lemma_plain_both(a, mark);
    lemma_plain_both(a + mark, " "@);
    lemma_plain_both(a + mark + " "@, c);
    lemma_plain_both(a + mark + " "@ + c, " "@);
    lemma_plain_both(a + mark + " "@ + c + " "@, d);
    lemma_plain_both(a + mark + " "@ + c + " "@ + d, " "@);
    lemma_plain_both(a + mark + " "@ + c + " "@ + d + " "@, e);
}

proof fn lemma_regroup(
    a: Seq<char>,
    b: Seq<char>,
    c: Seq<char>,
    d: Seq<char>,
    e: Seq<char>,
    f: Seq<char>,
)
    ensures
        a + b + c + d + e + f == (a + b) + (c + (d + (e + f))),
{
    assert(a + b + c + d + e + f =~= (a + b) + (c + (d + (e + f))));
}

/// A terminal shows of a row exactly its bars, its spine and its figures.
pub proof fn rows_show(
    b: Bars,
    label: Seq<char>,
    size: Seq<char>,
    time: Seq<char>,
    truecolor: bool,
)
    requires
        palette::plain(label),
        palette::plain(size),
        palette::plain(time),
    ensures
        palette::visible(row_text(b, label, size, time, truecolor)) == row_shown(
            b,
            label,
            size,
            time,
        ),
{
    reveal_strlit("  ");
    reveal_strlit("│");
    let left = at_most(b.left, LEFT_FIELD);
    let right = at_most(b.right, RIGHT_FIELD);
    let gap = text::repeated(' ', (LEFT_FIELD - left) as nat);
    let pad = "  "@ + gap;
    let bar_l = text::repeated('█', left);
    let bar_r = text::repeated('█', right);
    let tail = row_tail(b, label, size, time);
    lemma_plain_repeated(' ', (LEFT_FIELD - left) as nat);
    lemma_plain_repeated('█', left);
    lemma_plain_repeated('█', right);
    lemma_plain_both("  "@, gap);
    lemma_plain_tail(b, label, size, time);
    let p1 = palette::painted(palette::space_paint(truecolor), bar_l);
    let p2 = palette::painted(palette::structure_paint(truecolor), "│"@);
    let p3 = palette::painted(palette::time_paint(truecolor), bar_r);
    lemma_regroup("  "@, gap, p1, p2, p3, tail);
    lemma_regroup("  "@, gap, bar_l, "│"@, bar_r, tail);
    palette::plain_text_shows(pad, p1 + (p2 + (p3 + tail)));
    palette::painted_text_shows(palette::space_paint(truecolor), bar_l, p2 + (p3 + tail));
    palette::painted_text_shows(palette::structure_paint(truecolor), "│"@, p3 + tail);
    palette::painted_text_shows(palette::time_paint(truecolor), bar_r, tail);
    palette::plain_text_shows(tail, Seq::empty());
    palette::nothing_shows();
    assert(tail + Seq::empty() =~= tail);
}

/// A row whose label and time fit their fields takes 79 columns, whatever the bars are,
/// and there is a space in front of its size. A size that is too long for its field
/// takes no more than what the label has.
pub proof fn rows_fit_the_budget(b: Bars, label: Seq<char>, size: Seq<char>, time: Seq<char>)
    requires
        label.len() <= NAME_FIELD,
        size.len() <= SIZE_FIELD + NAME_FIELD,
        time.len() <= TIME_FIELD,
    ensures
        row_shown(b, label, size, time).len() == 79,
        row_shown(b, label, size, time)[70 - size.len()] == ' ',
{
    reveal_strlit("  ");
    reveal_strlit(" ");
    reveal_strlit("│");
    reveal_strlit("▸");
}

/// A printed row takes 79 columns at most, whatever the names in it hold: that of any
/// target that takes less than a hundred hours to rebuild.
pub proof fn printed_rows_fit(b: Bars, d: DoomedView, truecolor: bool)
    requires
        d.target.rebuild_seconds < 360000,
    ensures
        palette::visible(
            row_text(
                b,
                label_text(d.project, d.target),
                figures::size_text(d.target),
                figures::duration_text(d.target.rebuild_seconds as nat),
                truecolor,
            ),
        ).len() <= 79,
{
    reveal_strlit("  ");
    reveal_strlit(" ");
    reveal_strlit("│");
    reveal_strlit("▸");
    figures::no_size_is_wider(d.target);
    figures::durations_fit(d.target.rebuild_seconds as nat);
    let left = at_most(b.left, LEFT_FIELD);
    let right = at_most(b.right, RIGHT_FIELD);
    let pad = "  "@ + text::repeated(' ', (LEFT_FIELD - left) as nat);
    let bar_l = text::repeated('█', left);
    let bar_r = text::repeated('█', right);
    let p1 = palette::painted(palette::space_paint(truecolor), bar_l);
    let p2 = palette::painted(palette::structure_paint(truecolor), "│"@);
    let p3 = palette::painted(palette::time_paint(truecolor), bar_r);
    let tail = row_tail(
        b,
        label_text(d.project, d.target),
        figures::size_text(d.target),
        figures::duration_text(d.target.rebuild_seconds as nat),
    );
    palette::paint_adds_nothing(palette::space_paint(truecolor), bar_l);
    palette::paint_adds_nothing(palette::structure_paint(truecolor), "│"@);
    palette::paint_adds_nothing(palette::time_paint(truecolor), bar_r);
    palette::no_more_shows_than_there_is(pad);
    palette::no_more_shows_than_there_is(bar_l);
    palette::no_more_shows_than_there_is("│"@);
    palette::no_more_shows_than_there_is(bar_r);
    palette::no_more_shows_than_there_is(tail);
    palette::both_show_no_more_than_each(pad, p1);
    palette::both_show_no_more_than_each(pad + p1, p2);
    palette::both_show_no_more_than_each(pad + p1 + p2, p3);
    palette::both_show_no_more_than_each(pad + p1 + p2 + p3, tail);
}

/// The spine sits in the same column on every row.
pub proof fn the_spine_keeps_its_column(
    b: Bars,
    label: Seq<char>,
    size: Seq<char>,
    time: Seq<char>,
)
    ensures
        row_shown(b, label, size, time)[2 + LEFT_FIELD] == '│',
        forall|i: int|
            0 <= i < 2 + LEFT_FIELD ==> row_shown(b, label, size, time)[i] != '│',
{
    reveal_strlit("  ");
    reveal_strlit(" ");
    reveal_strlit("│");
    reveal_strlit("▸");
}

/// Every row states how to get it back: the restoring command shows below it, in
/// 78 columns at most.
pub proof fn restore_lines_fit(t: TargetView)
    requires
        palette::plain(t.restore_command),
    ensures
        palette::visible(restore_text(t)) == text::repeated(' ', 37) + chart::head_kept(
            t.restore_command,
            41,
        ),
        palette::visible(restore_text(t)).len() <= 78,
        t.restore_command.len() <= 41 ==> chart::head_kept(t.restore_command, 41)
            == t.restore_command,
{
    let shown = chart::head_kept(t.restore_command, 41);
    assert(palette::plain(shown)) by {
        assert forall|i: int| 0 <= i < shown.len() implies shown[i] != '\u{1b}' by {
            if i < t.restore_command.len() && shown[i] == t.restore_command[i] {
                assert(t.restore_command.contains(t.restore_command[i]));
            }
        }
    }
    lemma_plain_repeated(' ', 37);
    let line = palette::painted(Paint::Dimmed, shown);
    palette::plain_text_shows(text::repeated(' ', 37), line);
    assert(line + Seq::empty() =~= line);
    palette::painted_text_shows(Paint::Dimmed, shown, Seq::empty());
    palette::nothing_shows();
    assert(shown + Seq::empty() =~= shown);
}

/// What all rows return and cost together.
pub open spec fn totals_text(rows: Seq<DoomedView>, truecolor: bool) -> Seq<char> {
    "  "@ + palette::painted(
        palette::emphasis_paint(truecolor),
        figures::bytes_text(ranking::total(reclaim::bytes_of(rows))),
    ) + " reclaimable across "@ + text::decimal(rows.len()) + " targets · "@
        + figures::duration_text(ranking::total(reclaim::seconds_of(rows)))
        + " to rebuild it all"@
}

fn totals_line(rows: &Vec<Doomed>, truecolor: bool) -> (r: String)
    requires
        ranking::total(reclaim::bytes_of(reclaim::doomed_views(rows@))) <= u64::MAX,
        ranking::total(reclaim::seconds_of(reclaim::doomed_views(rows@))) <= u64::MAX,
    ensures
        r@ == totals_text(reclaim::doomed_views(rows@), truecolor),
{
    let ghost views = reclaim::doomed_views(rows@);
    assert(reclaim::bytes_of(views).skip(0) =~= reclaim::bytes_of(views));
    assert(reclaim::seconds_of(views).skip(0) =~= reclaim::seconds_of(views));
    assert(views.len() == rows@.len());
    let mut r = String::new();
    r.append("  ");
    push_painted(&mut r, emphasis(truecolor), bytes(bytes_from(rows, 0)).as_str());
    r.append(" reclaimable across ");
    push_decimal(&mut r, rows.len() as u64);
    r.append(" targets · ");
    r.append(duration(seconds_from(rows, 0)).as_str());
    r.append(" to rebuild it all");
    assert(r@ =~= totals_text(views, truecolor));
    r
}

/// What the two sides of a chart are, over a spine in the given column.
pub open spec fn legend_text(field: nat, truecolor: bool) -> Seq<char> {
    "  "@ + palette::opening_text(Paint::Dimmed) + text::repeated(
        ' ',
        if field >= 11 {
            (field - 11) as nat
        } else {
            0
        },
    ) + "space freed "@ + palette::painted(palette::structure_paint(truecolor), "│"@)
        + palette::painted(Paint::Dimmed, " time to rebuild"@)
}

/// What the two sides of a chart are.
pub fn legend_line(field: usize, truecolor: bool) -> (r: String)
    ensures
        r@ == legend_text(field as nat, truecolor),
{
    let mut r = String::new();
    r.append("  ");
    push_opening(&mut r, dim());
    push_repeated(&mut r, ' ', field.saturating_sub(11));
    r.append("space freed ");
    push_painted(&mut r, structure(truecolor), "│");
    push_painted(&mut r, dim(), " time to rebuild");
    assert(r@ =~= legend_text(field as nat, truecolor));
    r
}

/// The lines that cross at the spine.
pub open spec fn crossing(field: nat) -> Seq<char> {
    text::repeated('─', field) + "┼"@ + text::repeated('─', field)
}

/// Lines that cross at the spine.
pub fn crossing_lines(field: usize) -> (r: String)
    ensures
        r@ == crossing(field as nat),
{
    let mut r = String::new();
    push_repeated(&mut r, '─', field);
    r.append("┼");
    push_repeated(&mut r, '─', field);
    assert(r@ =~= crossing(field as nat));
    r
}

/// The break-even rule.
pub open spec fn rule_text(rate_text: Seq<char>, truecolor: bool) -> Seq<char> {
    "  "@ + palette::painted(palette::structure_paint(truecolor), crossing(LEFT_FIELD as nat))
        + "  "@ + palette::painted(
        Paint::Dimmed,
        "break-even · "@ + rate_text + " MB per second"@,
    )
}

fn rule_line(rate_text: &str, truecolor: bool) -> (r: String)
    ensures
        r@ == rule_text(rate_text@, truecolor),
{
    let lines = crossing_lines(LEFT_FIELD);
    let mut words = String::new();
    words.append("break-even · ");
    words.append(rate_text);
    words.append(" MB per second");
    assert(words@ =~= "break-even · "@ + rate_text@ + " MB per second"@);
    let mut r = String::new();
    r.append("  ");
    push_painted(&mut r, structure(truecolor), lines.as_str());
    r.append("  ");
    push_painted(&mut r, dim(), words.as_str());
    assert(r@ =~= rule_text(rate_text@, truecolor));
    r
}

/// The lines of row `i`: the rule in front of it if this is where the rule belongs,
/// the row itself, and how to get it back.
pub open spec fn row_lines(
    rows: Seq<DoomedView>,
    drawn: Seq<Bars>,
    rate_text: Seq<char>,
    truecolor: bool,
    i: int,
) -> Seq<Seq<char>> {
    let t = rows[i].target;
    let lines = seq![
        row_text(
            drawn[i],
            label_text(rows[i].project, t),
            figures::size_text(t),
            figures::duration_text(t.rebuild_seconds as nat),
            truecolor,
        ),
        restore_text(t),
    ];
    if chart::first_not_leaning(drawn, 0) == Some(i as usize) {
        seq![rule_text(rate_text, truecolor)] + lines
    } else {
        lines
    }
}

/// The lines of the first `n` rows.
pub open spec fn chart_lines(
    rows: Seq<DoomedView>,
    drawn: Seq<Bars>,
    rate_text: Seq<char>,
    truecolor: bool,
    n: int,
) -> Seq<Seq<char>>
    decreases n,
{
    if n <= 0 {
        Seq::empty()
    } else {
        chart_lines(rows, drawn, rate_text, truecolor, n - 1) + row_lines(
            rows,
            drawn,
            rate_text,
            truecolor,
            n - 1,
        )
    }
}

/// How many rows are shown: all, or those worth reclaiming and a few more.
pub open spec fn shown_rows(drawn: Seq<Bars>, show_all: bool) -> nat {
    match chart::first_not_leaning(drawn, 0) {
        Some(at) => if !show_all && at + ROWS_BELOW_LINE < drawn.len() {
            (at + ROWS_BELOW_LINE) as nat
        } else {
            drawn.len()
        },
        None => drawn.len(),
    }
}

fn count_shown(drawn: &Vec<Bars>, show_all: bool) -> (r: usize)
    ensures
        r == shown_rows(drawn@, show_all),
        r <= drawn@.len(),
{
    match break_even_at(drawn) {
        Some(at) => if !show_all && drawn.len() - at > ROWS_BELOW_LINE {
            at + ROWS_BELOW_LINE
        } else {
            drawn.len()
        },
        None => drawn.len(),
    }
}

#[verifier::rlimit(60)]
#[verifier::spinoff_prover]
fn push_chart(
    out: &mut Vec<String>,
    rows: &Vec<Doomed>,
    drawn: &Vec<Bars>,
    rate_text: &str,
    truecolor: bool,
    n: usize,
)
    requires
        rows@.len() == drawn@.len(),
        n <= rows@.len(),
    ensures
        text::texts(final(out)@) == text::texts(old(out)@) + chart_lines(
            reclaim::doomed_views(rows@),
            drawn@,
            rate_text@,
            truecolor,
            n as int,
        ),
{
    let ghost views = reclaim::doomed_views(rows@);
    let cut = break_even_at(drawn);
    let mut i: usize = 0;
    assert(text::texts(out@) =~= text::texts(old(out)@) + chart_lines(
        views,
        drawn@,
        rate_text@,
        truecolor,
        0,
    ));
    while i < n
        invariant
            views == reclaim::doomed_views(rows@),
            rows@.len() == drawn@.len(),
            i <= n <= rows@.len(),
            cut == chart::first_not_leaning(drawn@, 0),
            text::texts(out@) == text::texts(old(out)@) + chart_lines(
                views,
                drawn@,
                rate_text@,
                truecolor,
                i as int,
            ),
        decreases n - i,
    {
        let ghost before = text::texts(out@);
        let here = match cut {
            Some(at) => at == i,
            None => false,
        };
        if here {
            push_line(out, rule_line(rate_text, truecolor));
        }
        let p = rows[i].project;
        let t = rows[i].target;
        push_line(
            out,
            bar_row(
                drawn[i],
                row_label(p, t).as_str(),
                size_of(t).as_str(),
                duration(t.rebuild_seconds as u64).as_str(),
                truecolor,
            ),
        );
        push_line(out, restore_line(t));
        proof {
            assert(views[i as int] == rows@[i as int]@);
            assert(text::texts(out@) =~= before + row_lines(
                views,
                drawn@,
                rate_text@,
                truecolor,
                i as int,
            ));
            assert(text::texts(out@) =~= text::texts(old(out)@) + chart_lines(
                views,
                drawn@,
                rate_text@,
                truecolor,
                i + 1,
            ));
        }
        i = i + 1;
    }
}

/// What is said about the rows that are not shown.
pub open spec fn more_text(rows: Seq<DoomedView>, shown: nat) -> Seq<char> {
    "  "@ + palette::painted(
        Paint::Dimmed,
        text::decimal((rows.len() - shown) as nat) + " more below the line: "@
            + figures::bytes_text(ranking::total(reclaim::bytes_of(rows).skip(shown as int)))
            + " for another "@ + figures::duration_text(
            ranking::total(reclaim::seconds_of(rows).skip(shown as int)),
        ) + ".  --all to see them."@,
    )
}

fn more_line(rows: &Vec<Doomed>, shown: usize) -> (r: String)
    requires
        shown <= rows@.len(),
        ranking::total(reclaim::bytes_of(reclaim::doomed_views(rows@)).skip(shown as int))
            <= u64::MAX,
        ranking::total(reclaim::seconds_of(reclaim::doomed_views(rows@)).skip(shown as int))
            <= u64::MAX,
    ensures
        r@ == more_text(reclaim::doomed_views(rows@), shown as nat),
{
    let mut words = String::new();
    push_decimal(&mut words, (rows.len() - shown) as u64);
    words.append(" more below the line: ");
    words.append(bytes(bytes_from(rows, shown)).as_str());
    words.append(" for another ");
    words.append(duration(seconds_from(rows, shown)).as_str());
    words.append(".  --all to see them.");
    let mut r = String::new();
    r.append("  ");
    push_painted(&mut r, dim(), words.as_str());
    assert(r@ =~= more_text(reclaim::doomed_views(rows@), shown as nat));
    r
}

/// What has to be said about the figures, where anything has.
pub open spec fn caveat_lines(shared: nat, unreadable: nat) -> Seq<Seq<char>> {
    if shared > 0 || unreadable > 0 {
        seq![Seq::<char>::empty()] + (if shared > 0 {
            prose::note_lines(prose::shared_text(shared))
        } else {
            Seq::empty()
        }) + (if unreadable > 0 {
            prose::note_lines(prose::unreadable_text(unreadable))
        } else {
            Seq::empty()
        })
    } else {
        Seq::empty()
    }
}

fn push_caveats(out: &mut Vec<String>, shared: u64, unreadable: u32)
    ensures
        text::texts(final(out)@) == text::texts(old(out)@) + caveat_lines(
            shared as nat,
            unreadable as nat,
        ),
{
    if shared > 0 || unreadable > 0 {
        push_line(out, String::new());
        if let Some(w) = shared_warning(shared) {
            push_lines(out, note(w.as_str()));
        }
        if let Some(w) = lower_bound_warning(unreadable) {
            push_lines(out, note(w.as_str()));
        }
    }
    assert(text::texts(out@) =~= text::texts(old(out)@) + caveat_lines(
        shared as nat,
        unreadable as nat,
    ));
}

/// A project whose work is not backed up.
pub open spec fn held_text(p: ProjectView) -> Seq<char> {
    let name = match paths::last_name(p.root) {
        Some(n) => n,
        None => p.root,
    };
    "    "@ + text::left_aligned(chart::tail_kept(name, 26), 26) + " "@ + palette::painted(
        Paint::Dimmed,
        text::left_aligned(chart::tail_kept(p.ecosystem, 16), 16) + " "@
            + p.git_state.label_text(),
    )
}

fn held_line(p: &Project) -> (r: String)
    ensures
        r@ == held_text(p@),
{
    let name = match file_name(p.root.as_str()) {
        Some(n) => n,
        None => p.root.clone(),
    };
    let mut about = String::new();
    push_left_aligned(&mut about, truncate_left(p.ecosystem.as_str(), 16).as_str(), 16);
    about.append(" ");
    about.append(p.git_state.label());
    let mut r = String::new();
    r.append("    ");
    push_left_aligned(&mut r, truncate_left(name.as_str(), 26).as_str(), 26);
    r.append(" ");
    push_painted(&mut r, dim(), about.as_str());
    assert(r@ =~= held_text(p@));
    r
}

/// What is held back, and why.
pub open spec fn held_lines(blocked: Seq<ProjectView>, truecolor: bool) -> Seq<Seq<char>> {
    if blocked.len() == 0 {
        Seq::empty()
    } else {
        seq![
            Seq::<char>::empty(),
            "  "@ + palette::painted(palette::held_paint(truecolor), "Held back"@) + " — "@
                + figures::bytes_text(ranking::total(deals::project_bytes(blocked)))
                + " in repos with work that isn't backed up"@,
        ] + blocked.map_values(|p: ProjectView| held_text(p))
    }
}

/// Work that isn't backed up. Kept out of the chart, which is for decisions, but
/// never kept quiet.
pub fn render_blocked(blocked: &Vec<&Project>, truecolor: bool) -> (r: Vec<String>)
    requires
        ranking::total(deals::project_bytes(blocked@.map_values(|p: &Project| p@))) <= u64::MAX,
    ensures
        text::texts(r@) == held_lines(blocked@.map_values(|p: &Project| p@), truecolor),
{
    let ghost ps = blocked@.map_values(|p: &Project| p@);
    let mut out: Vec<String> = Vec::new();
    if blocked.len() == 0 {
        assert(text::texts(out@) =~= held_lines(ps, truecolor));
        return out;
    }
    let ghost values = deals::project_bytes(ps);
    proof {
        ranking::lemma_each_is_less(values);
        assert forall|i: int| 0 <= i < blocked@.len() implies scan::reclaimable_sum(
            (#[trigger] blocked@[i])@.targets,
        ) <= u64::MAX by {
            assert(values[i] == scan::reclaimable_sum(blocked@[i]@.targets));
        }
    }
    let value = |i: usize| -> (n: u64)
        requires
            i < blocked@.len(),
            scan::reclaimable_sum(blocked@[i as int]@.targets) <= u64::MAX,
        ensures
            n == scan::reclaimable_sum(blocked@[i as int]@.targets),
        { blocked[i].reclaimable_bytes() };
    let total = sum_of(0, blocked.len(), value, Ghost(values));
    let mut first = String::new();
    first.append("  ");
    push_painted(&mut first, held_back(truecolor), "Held back");
    first.append(" — ");
    first.append(bytes(total).as_str());
    first.append(" in repos with work that isn't backed up");
    let ghost head = first@;
    assert(head =~= "  "@ + palette::painted(palette::held_paint(truecolor), "Held back"@) + " — "@
        + figures::bytes_text(ranking::total(values))
        + " in repos with work that isn't backed up"@);
    push_line(&mut out, String::new());
    push_line(&mut out, first);
    let ghost opening = seq![Seq::<char>::empty(), head];
    assert(text::texts(out@) =~= opening);
    let mut i: usize = 0;
    while i < blocked.len()
        invariant
            i <= blocked@.len(),
            ps == blocked@.map_values(|p: &Project| p@),
            text::texts(out@) == opening + ps.map_values(|p: ProjectView| held_text(p)).take(
                i as int,
            ),
        decreases blocked@.len() - i,
    {
        let ghost before = text::texts(out@);
        push_line(&mut out, held_line(blocked[i]));
        proof {
            let lines = ps.map_values(|p: ProjectView| held_text(p));
            assert(lines[i as int] == held_text(blocked@[i as int]@));
            assert(lines.take(i + 1) =~= lines.take(i as int).push(lines[i as int]));
            assert(opening + lines.take(i + 1) =~= before.push(lines[i as int]));
        }
        i = i + 1;
    }
    proof {
        let lines = ps.map_values(|p: ProjectView| held_text(p));
        assert(lines.take(i as int) =~= lines);
    }
    out
}

/// What stands above the chart.
pub open spec fn head_lines(rows: Seq<DoomedView>, truecolor: bool) -> Seq<Seq<char>> {
    seq![
        Seq::<char>::empty(),
        totals_text(rows, truecolor),
        Seq::<char>::empty(),
        legend_text(LEFT_FIELD as nat, truecolor),
    ]
}

/// What stands below the chart, where rows are left out.
pub open spec fn rest_lines(rows: Seq<DoomedView>, shown: nat) -> Seq<Seq<char>> {
    if shown < rows.len() {
        seq![Seq::<char>::empty(), more_text(rows, shown)]
    } else {
        Seq::empty()
    }
}

/// The chart with what stands above and below it.
pub open spec fn ranked_lines(
    ps: Seq<ProjectView>,
    rate: u64,
    rate_text: Seq<char>,
    show_all: bool,
    truecolor: bool,
) -> Seq<Seq<char>> {
    let rows = deals::ranked(ps);
    let drawn = deals::bars_of(rows, rate, LEFT_FIELD);
    let shown = shown_rows(drawn, show_all);
    head_lines(rows, truecolor) + chart_lines(rows, drawn, rate_text, truecolor, shown as int)
        + rest_lines(rows, shown)
}

/// What a report ends with.
pub open spec fn ending_lines() -> Seq<Seq<char>> {
    seq![
        Seq::<char>::empty(),
        "  "@ + palette::painted(
            Paint::Dimmed,
            "Run with --reclaim to delete. Nothing has been touched."@,
        ),
    ]
}

/// The report on some projects.
pub open spec fn report_lines(
    ps: Seq<ProjectView>,
    rate: u64,
    rate_text: Seq<char>,
    show_all: bool,
    truecolor: bool,
) -> Seq<Seq<char>> {
    if ps.len() == 0 {
        seq!["Nothing reclaimable found."@]
    } else if deals::eligible(ps).len() == 0 {
        seq![Seq::<char>::empty(), "  Nothing here is eligible to reclaim."@] + held_lines(
            deals::blocked(ps),
            truecolor,
        )
    } else {
        ranked_lines(ps, rate, rate_text, show_all, truecolor) + caveat_lines(
            ranking::total(deals::project_shared(ps)),
            ranking::total(deals::project_unreadable(ps)),
        ) + held_lines(deals::blocked(ps), truecolor) + ending_lines()
    }
}

fn shared_total(projects: &Vec<Project>) -> (r: u64)
    requires
        deals::totals_fit(scan::project_views(projects@)),
    ensures
        r == ranking::total(deals::project_shared(scan::project_views(projects@))),
{
    let ghost values = deals::project_shared(scan::project_views(projects@));
    proof {
        ranking::lemma_each_is_less(values);
        assert forall|i: int| 0 <= i < projects@.len() implies scan::shared_sum(
            (#[trigger] projects@[i])@.targets,
        ) <= u64::MAX by {
            assert(values[i] == scan::shared_sum(projects@[i]@.targets));
        }
    }
    let value = |i: usize| -> (n: u64)
        requires
            i < projects@.len(),
            scan::shared_sum(projects@[i as int]@.targets) <= u64::MAX,
        ensures
            n == scan::shared_sum(projects@[i as int]@.targets),
        { projects[i].shared_bytes() };
    sum_of(0, projects.len(), value, Ghost(values))
}

fn unreadable_total(projects: &Vec<Project>) -> (r: u32)
    requires
        deals::totals_fit(scan::project_views(projects@)),
    ensures
        r == ranking::total(deals::project_unreadable(scan::project_views(projects@))),
{
    let ghost values = deals::project_unreadable(scan::project_views(projects@));
    proof {
        ranking::lemma_each_is_less(values);
        assert forall|i: int| 0 <= i < projects@.len() implies scan::unreadable_sum(
            (#[trigger] projects@[i])@.targets,
        ) <= u32::MAX by {
            assert(values[i] == scan::unreadable_sum(projects@[i]@.targets));
        }
    }
    let value = |i: usize| -> (n: u64)
        requires
            i < projects@.len(),
            scan::unreadable_sum(projects@[i as int]@.targets) <= u32::MAX,
        ensures
            n == scan::unreadable_sum(projects@[i as int]@.targets),
        { projects[i].unreadable() as u64 };
    sum_of(0, projects.len(), value, Ghost(values)) as u32
}

fn head_part(rows: &Vec<Doomed>, truecolor: bool) -> (out: Vec<String>)
    requires
        ranking::total(reclaim::bytes_of(reclaim::doomed_views(rows@))) <= u64::MAX,
        ranking::total(reclaim::seconds_of(reclaim::doomed_views(rows@))) <= u64::MAX,
    ensures
        text::texts(out@) == head_lines(reclaim::doomed_views(rows@), truecolor),
{
    let mut out: Vec<String> = Vec::new();
    push_line(&mut out, String::new());
    push_line(&mut out, totals_line(rows, truecolor));
    push_line(&mut out, String::new());
    push_line(&mut out, legend_line(LEFT_FIELD, truecolor));
    assert(text::texts(out@) =~= head_lines(reclaim::doomed_views(rows@), truecolor));
    out
}

fn push_rest(out: &mut Vec<String>, rows: &Vec<Doomed>, shown: usize)
    requires
        shown <= rows@.len(),
        ranking::total(reclaim::bytes_of(reclaim::doomed_views(rows@))) <= u64::MAX,
        ranking::total(reclaim::seconds_of(reclaim::doomed_views(rows@))) <= u64::MAX,
    ensures
        text::texts(final(out)@) == text::texts(old(out)@) + rest_lines(
            reclaim::doomed_views(rows@),
            shown as nat,
        ),
{
    let ghost views = reclaim::doomed_views(rows@);
    if shown < rows.len() {
        proof {
            ranking::lemma_total_grows(reclaim::bytes_of(views), shown as int);
            ranking::lemma_total_grows(reclaim::seconds_of(views), shown as int);
        }
        push_line(out, String::new());
        push_line(out, more_line(rows, shown));
    }
    assert(text::texts(out@) =~= text::texts(old(out)@) + rest_lines(views, shown as nat));
}

fn ranked_part(
    rows: &Vec<Doomed>,
    rate: u64,
    rate_text: &str,
    show_all: bool,
    truecolor: bool,
) -> (out: Vec<String>)
    requires
        ranking::total(reclaim::bytes_of(reclaim::doomed_views(rows@))) <= u64::MAX,
        ranking::total(reclaim::seconds_of(reclaim::doomed_views(rows@))) <= u64::MAX,
    ensures
        ({
            let views = reclaim::doomed_views(rows@);
            let drawn = deals::bars_of(views, rate, LEFT_FIELD);
            let shown = shown_rows(drawn, show_all);
            text::texts(out@) == head_lines(views, truecolor) + chart_lines(
                views,
                drawn,
                rate_text@,
                truecolor,
                shown as int,
            ) + rest_lines(views, shown)
        }),
{
    let drawn = draw_rows(rows, rate, LEFT_FIELD);
    assert(drawn@.len() == rows@.len());
    let shown = count_shown(&drawn, show_all);
    let mut out = head_part(rows, truecolor);
    push_chart(&mut out, rows, &drawn, rate_text, truecolor, shown);
    push_rest(&mut out, rows, shown);
    out
}

fn push_ending(out: &mut Vec<String>)
    ensures
        text::texts(final(out)@) == text::texts(old(out)@) + ending_lines(),
{
    let mut last = String::new();
    last.append("  ");
    push_painted(&mut last, dim(), "Run with --reclaim to delete. Nothing has been touched.");
    push_line(out, String::new());
    push_line(out, last);
    assert(text::texts(out@) =~= text::texts(old(out)@) + ending_lines());
}

fn nothing_found() -> (out: Vec<String>)
    ensures
        text::texts(out@) == seq!["Nothing reclaimable found."@],
{
    let mut out: Vec<String> = Vec::new();
    push_line(&mut out, "Nothing reclaimable found.".to_owned());
    assert(text::texts(out@) =~= seq!["Nothing reclaimable found."@]);
    out
}

fn nothing_eligible() -> (out: Vec<String>)
    ensures
        text::texts(out@) == seq![
            Seq::<char>::empty(),
            "  Nothing here is eligible to reclaim."@,
        ],
{
    let mut out: Vec<String> = Vec::new();
    push_line(&mut out, String::new());
    push_line(&mut out, "  Nothing here is eligible to reclaim.".to_owned());
    assert(text::texts(out@) =~= seq![
        Seq::<char>::empty(),
        "  Nothing here is eligible to reclaim."@,
    ]);
    out
}

/// The report on some projects, as lines. `rate` is the bit pattern of the
/// megabytes per second at which reclaiming breaks even, and `rate_text` is that
/// number as it is shown.
pub fn render(
    projects: &Vec<Project>,
    rate: u64,
    rate_text: &str,
    show_all: bool,
    truecolor: bool,
) -> (r: Vec<String>)
    requires
        deals::totals_fit(scan::project_views(projects@)),
    ensures
        text::texts(r@) == report_lines(
            scan::project_views(projects@),
            rate,
            rate_text@,
            show_all,
            truecolor,
        ),
{
    let ghost ps = scan::project_views(projects@);
    assert(ps.len() == projects@.len());
    if projects.len() == 0 {
        return nothing_found();
    }
    let rows = ranked_rows(projects);
    let blocked = blocked_projects(projects);
    proof {
        deals::lemma_eligible_fits(ps);
        deals::ranking_keeps_the_totals(ps);
    }
    let held = render_blocked(&blocked, truecolor);
    if rows.len() == 0 {
        let mut out = nothing_eligible();
        push_lines(&mut out, held);
        return out;
    }
    let mut out = ranked_part(&rows, rate, rate_text, show_all, truecolor);
    assert(text::texts(out@) == ranked_lines(ps, rate, rate_text@, show_all, truecolor));
    push_caveats(&mut out, shared_total(projects), unreadable_total(projects));
    push_lines(&mut out, held);
    push_ending(&mut out);
    out
}

/// A path as it is shown: without the prefix that marks it as extended-length.
pub open spec fn path_shown(p: Seq<char>) -> Seq<char> {
    if paths::begins_with(p, seq!['\\', '\\', '?', '\\']) {
        p.skip(4)
    } else {
        p
    }
}

/// A path as it is shown.
pub fn display_path(p: &str) -> (r: String)
    ensures
        r@ == path_shown(p@),
{
    let v = chars_of(p);
    if v.len() >= 4 && v[0] == '\\' && v[1] == '\\' && v[2] == '?' && v[3] == '\\' {
        assert(p@.take(4) =~= seq!['\\', '\\', '?', '\\']);
        assert(p@.subrange(4, p@.len() as int) =~= p@.skip(4));
        text_of(&v, 4, v.len())
    } else {
        proof {
            if paths::begins_with(p@, seq!['\\', '\\', '?', '\\']) {
                let front = p@.take(4);
                assert(front[0] == p@[0] && front[1] == p@[1] && front[2] == p@[2] && front[3]
                    == p@[3]);
            }
        }
        p.to_owned()
    }
}

/// The two lines stand at place `j` and behind it.
pub open spec fn follow(
    lines: Seq<Seq<char>>,
    first: Seq<char>,
    second: Seq<char>,
    j: int,
) -> bool {
    0 <= j < lines.len() - 1 && lines[j] == first && lines[j + 1] == second
}

/// Line `j` is that of row `i`, and the next one says how to get it back.
pub open spec fn lists(
    lines: Seq<Seq<char>>,
    rows: Seq<DoomedView>,
    drawn: Seq<Bars>,
    truecolor: bool,
    i: int,
    j: int,
) -> bool {
    follow(
        lines,
        row_text(
            drawn[i],
            label_text(rows[i].project, rows[i].target),
            figures::size_text(rows[i].target),
            figures::duration_text(rows[i].target.rebuild_seconds as nat),
            truecolor,
        ),
        restore_text(rows[i].target),
        j,
    )
}

proof fn lemma_follow_inside(
    lines: Seq<Seq<char>>,
    first: Seq<char>,
    second: Seq<char>,
    j: int,
    front: Seq<Seq<char>>,
    back: Seq<Seq<char>>,
)
    requires
        follow(lines, first, second, j),
    ensures
        follow(front + lines + back, first, second, front.len() + j),
{
}

proof fn lemma_chart_lists(
    rows: Seq<DoomedView>,
    drawn: Seq<Bars>,
    rate_text: Seq<char>,
    truecolor: bool,
    n: int,
    i: int,
) -> (j: int)
    requires
        0 <= i < n,
    ensures
        lists(chart_lines(rows, drawn, rate_text, truecolor, n), rows, drawn, truecolor, i, j),
    decreases n,
{
    let before = chart_lines(rows, drawn, rate_text, truecolor, n - 1);
    if i < n - 1 {
        lemma_chart_lists(rows, drawn, rate_text, truecolor, n - 1, i)
    } else if chart::first_not_leaning(drawn, 0) == Some(i as usize) {
        before.len() as int + 1
    } else {
        before.len() as int
    }
}

proof fn lemma_around_the_chart(
    head: Seq<Seq<char>>,
    chart: Seq<Seq<char>>,
    rest: Seq<Seq<char>>,
    caveats: Seq<Seq<char>>,
    held: Seq<Seq<char>>,
    first: Seq<char>,
    second: Seq<char>,
    j: int,
)
    requires
        follow(chart, first, second, j),
    ensures
        follow(
            (head + chart + rest) + caveats + held + ending_lines(),
            first,
            second,
            head.len() + j,
        ),
{
    let end = ending_lines();
    let back = rest + caveats + held + end;
    assert((head + chart + rest) + caveats + held + end =~= head + chart + back);
    lemma_follow_inside(chart, first, second, j, head, back);
}

/// Every row that the report shows is followed by how to get it back.
pub proof fn every_row_states_how_to_get_it_back(
    ps: Seq<ProjectView>,
    rate: u64,
    rate_text: Seq<char>,
    show_all: bool,
    truecolor: bool,
    i: int,
)
    requires
        deals::eligible(ps).len() <= usize::MAX,
        0 <= i < shown_rows(deals::bars_of(deals::ranked(ps), rate, LEFT_FIELD), show_all),
    ensures
        exists|j: int| #[trigger]
            lists(
                report_lines(ps, rate, rate_text, show_all, truecolor),
                deals::ranked(ps),
                deals::bars_of(deals::ranked(ps), rate, LEFT_FIELD),
                truecolor,
                i,
                j,
            ),
{
    let rows = deals::ranked(ps);
    let drawn = deals::bars_of(rows, rate, LEFT_FIELD);
    let shown = shown_rows(drawn, show_all) as int;
    deals::ranking_keeps_the_totals(ps);
    chart::lemma_first_not_leaning(drawn, 0);
    let j = lemma_chart_lists(rows, drawn, rate_text, truecolor, shown, i);
    let t = rows[i].target;
    let first = row_text(
        drawn[i],
        label_text(rows[i].project, t),
        figures::size_text(t),
        figures::duration_text(t.rebuild_seconds as nat),
        truecolor,
    );
    lemma_around_the_chart(
        head_lines(rows, truecolor),
        chart_lines(rows, drawn, rate_text, truecolor, shown),
        rest_lines(rows, shown as nat),
        caveat_lines(
            ranking::total(deals::project_shared(ps)),
            ranking::total(deals::project_unreadable(ps)),
        ),
        held_lines(deals::blocked(ps), truecolor),
        first,
        restore_text(t),
        j,
    );
    let at = head_lines(rows, truecolor).len() + j;
    assert(lists(
        report_lines(ps, rate, rate_text, show_all, truecolor),
        rows,
        drawn,
        truecolor,
        i,
        at,
    ));
}

/// What a deletion is about to remove is among what the report has shown before,
/// with what it costs.
pub proof fn what_is_deleted_was_shown(
    ps: Seq<ProjectView>,
    rate: u64,
    rate_text: Seq<char>,
    all: bool,
    truecolor: bool,
    k: int,
)
    requires
        deals::eligible(ps).len() <= usize::MAX,
        0 <= k < reclaim::plan_of(ps, rate, all).len(),
    ensures
        exists|i: int, j: int|
            0 <= i < deals::ranked(ps).len() && deals::ranked(ps)[i] == reclaim::plan_of(
                ps,
                rate,
                all,
            )[k] && #[trigger] lists(
                report_lines(ps, rate, rate_text, all, truecolor),
                deals::ranked(ps),
                deals::bars_of(deals::ranked(ps), rate, LEFT_FIELD),
                truecolor,
                i,
                j,
            ),
{
    let i = reclaim::lemma_planned_is_ranked(ps, rate, all, k);
    deals::ranking_keeps_the_totals(ps);
    deals::lemma_worthwhile(deals::ranked(ps), rate, LEFT_FIELD);
    every_row_states_how_to_get_it_back(ps, rate, rate_text, all, truecolor, i);
}

} // verus!
