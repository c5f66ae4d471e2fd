//! How wide the lines of the list are, and where the spine stands.
use crate::chart::Bars;
use crate::figures;
use crate::palette;
use crate::palette::Paint;
use crate::report;
use crate::text;
use crate::tui::app::RowView;
use crate::tui::draw;
use vstd::prelude::*;
use vstd::string::*;

verus! {

proof fn lemma_five_show(
    a: Seq<char>,
    b: Seq<char>,
    c: Seq<char>,
    d: Seq<char>,
    e: Seq<char>,
)
    ensures
        palette::visible(a + b + c + d + e).len() <= palette::visible(a).len() + palette::visible(
            b,
        ).len() + palette::visible(c).len() + palette::visible(d).len() + palette::visible(
            e,
        ).len(),
{
    palette::both_show_no_more_than_each(a, b);
    palette::both_show_no_more_than_each(a + b, c);
    palette::both_show_no_more_than_each(a + b + c, d);
    palette::both_show_no_more_than_each(a + b + c + d, e);
}

proof fn lemma_painted_shows(p: Paint, t: Seq<char>)
    ensures
        palette::visible(palette::painted(p, t)).len() <= t.len(),
{
    palette::paint_adds_nothing(p, t);
    palette::no_more_shows_than_there_is(t);
}

proof fn lemma_bars_show(r: RowView, b: Bars, field: nat, truecolor: bool)
    requires
        field <= 30,
    ensures
        palette::visible(draw::bars_text(r, b, field, truecolor)).len() <= 2 * field + 1,
{
    reveal_strlit("│");
    let left = report::at_most(b.left, field as usize);
    let right = report::at_most(b.right, field as usize);
    let (space, cost) = draw::side_paints(r, truecolor);
    let before = text::repeated(' ', (field - left) as nat);
    let behind = text::repeated(' ', (field - right) as nat);
    let spine = palette::structure_paint(truecolor);
    palette::no_more_shows_than_there_is(before);
    palette::no_more_shows_than_there_is(behind);
    lemma_painted_shows(space, text::repeated('█', left));
    lemma_painted_shows(spine, "│"@);
    lemma_painted_shows(cost, text::repeated('█', right));
    lemma_five_show(
        before,
        palette::painted(space, text::repeated('█', left)),
        palette::painted(spine, "│"@),
        palette::painted(cost, text::repeated('█', right)),
        behind,
    );
}

/// The size in a row.
pub open spec fn size_of(r: RowView) -> Seq<char> {
    if r.measured() is Some {
        figures::bytes_text(r.bytes() as nat)
    } else {
        "measuring…"@
    }
}

/// The time in a row.
pub open spec fn time_of(r: RowView) -> Seq<char> {
    if r.measured() is Some {
        figures::duration_text(r.seconds() as nat)
    } else {
        Seq::empty()
    }
}

proof fn lemma_figures_fit(r: RowView, w: u16)
    requires
        size_of(r).len() <= 10,
        time_of(r).len() <= 8,
    ensures
        draw::figures_text(r, w).len() == draw::name_width_of(w) + 21,
{
    reveal_strlit(" ");
}

proof fn lemma_marks_fit(selected: bool, under_cursor: bool)
    ensures
        draw::marks_text(selected, under_cursor).len() == draw::MARK_COLUMNS,
{
    reveal_strlit("▸");
    reveal_strlit("·");
    reveal_strlit(" ");
    reveal_strlit("[x]");
    reveal_strlit("[ ]");
}

/// The label takes what the rest of a row leaves.
proof fn lemma_columns_add_up(w: u16)
    requires
        w >= 51,
    ensures
        draw::MARK_COLUMNS + 2 * draw::field_of(w) + 1 + draw::name_width_of(w) + 21 <= w,
        6 <= draw::field_of(w) <= 30,
{
}

/// No row wraps: in a window of at least 51 columns a row takes no more columns than
/// there are, as long as its size takes ten at most and its time eight.
pub proof fn rows_do_not_wrap(
    r: RowView,
    b: Bars,
    under_cursor: bool,
    w: u16,
    truecolor: bool,
)
    requires
        w >= 51,
        size_of(r).len() <= 10,
        time_of(r).len() <= 8,
    ensures
        palette::visible(draw::row_line_text(r, b, under_cursor, w, truecolor).1).len() <= w,
{
    let marks = draw::marks_text(r.selected, under_cursor);
    let bars = draw::bars_text(r, b, draw::field_of(w), truecolor);
    let rest = draw::figures_text(r, w);
    lemma_columns_add_up(w);
    lemma_marks_fit(r.selected, under_cursor);
    lemma_bars_show(r, b, draw::field_of(w), truecolor);
    lemma_figures_fit(r, w);
    palette::no_more_shows_than_there_is(marks);
    palette::no_more_shows_than_there_is(rest);
    palette::both_show_no_more_than_each(marks, bars);
    palette::both_show_no_more_than_each(marks + bars, rest);
    palette::paint_adds_nothing(Paint::Dimmed, marks + bars + rest);
}

/// The figures fit their columns: those of a row that is not measured, and those of any
/// target below ten thousand terabytes that takes less than a hundred hours to rebuild.
pub proof fn figures_fit_their_columns(r: RowView)
    requires
        r.measured() is Some ==> r.bytes() < 9999 * figures::unit_size(4) && r.seconds() < 360000,
    ensures
        size_of(r).len() <= 10,
        time_of(r).len() <= 8,
{
    reveal_strlit("measuring…");
    if r.measured() is Some {
        figures::sizes_fit(r.bytes() as nat);
        figures::durations_fit(r.seconds() as nat);
    }
}

/// The rule does not wrap either, as long as the rate takes seventeen columns at most.
pub proof fn the_rule_does_not_wrap(rate_text: Seq<char>, w: u16, truecolor: bool)
    requires
        w >= 51,
        rate_text.len() <= 17,
    ensures
        palette::visible(draw::rule_text(draw::field_of(w), rate_text, truecolor)).len() <= w,
{
    reveal_strlit(" ");
    reveal_strlit("  ");
    reveal_strlit("┼");
    reveal_strlit("break-even · ");
    reveal_strlit(" MB/s");
    let field = draw::field_of(w);
    lemma_columns_add_up(w);
    let front = "  "@;
    let words = "break-even · "@ + rate_text + " MB/s"@;
    let spine = palette::structure_paint(truecolor);
    let crossing = palette::painted(spine, report::crossing(field));
    let told = palette::painted(Paint::Dimmed, words);
    palette::no_more_shows_than_there_is(front);
    palette::no_more_shows_than_there_is(" "@);
    palette::no_more_shows_than_there_is(told);
    lemma_painted_shows(spine, report::crossing(field));
    lemma_painted_shows(Paint::Dimmed, words);
    palette::both_show_no_more_than_each(front, crossing);
    palette::both_show_no_more_than_each(front + crossing, " "@);
    palette::both_show_no_more_than_each(front + crossing + " "@, told);
}

proof fn lemma_plain(s: Seq<char>)
    requires
        forall|i: int| 0 <= i < s.len() ==> s[i] != '\u{1b}',
    ensures
        palette::plain(s),
{
}

/// The spine of a row stands behind the marks and the left field.
pub proof fn rows_meet_at_the_spine(
    r: RowView,
    b: Bars,
    under_cursor: bool,
    w: u16,
    truecolor: bool,
)
    ensures
        ({
            let shown = palette::visible(draw::row_body(r, b, under_cursor, w, truecolor));
            let column = draw::MARK_COLUMNS + draw::field_of(w);
            column < shown.len() && shown[column as int] == '│'
        }),
{
    reveal_strlit("▸");
    reveal_strlit("·");
    reveal_strlit(" ");
    reveal_strlit("[x]");
    reveal_strlit("[ ]");
    reveal_strlit("│");
    let field = draw::field_of(w);
    let left = report::at_most(b.left, field as usize);
    let right = report::at_most(b.right, field as usize);
    let (space, cost) = draw::side_paints(r, truecolor);
    let marks = draw::marks_text(r.selected, under_cursor);
    let gap = text::repeated(' ', (field - left) as nat);
    let bar = text::repeated('█', left);
    let spine = palette::structure_paint(truecolor);
    let painted = palette::painted(cost, text::repeated('█', right));
    let behind = text::repeated(' ', (field - right) as nat);
    let rest = painted + behind + draw::figures_text(r, w);
    lemma_plain(marks + gap);
    lemma_plain(bar);
    lemma_plain("│"@);
    let p1 = palette::painted(space, bar);
    let p2 = palette::painted(spine, "│"@);
    let figures = draw::figures_text(r, w);
    assert(draw::row_body(r, b, under_cursor, w, truecolor) == marks + (gap + p1 + p2 + painted
        + behind) + figures);
    lemma_grouped(marks, gap, p1, p2, painted, behind, figures);
    palette::plain_text_shows(marks + gap, p1 + (p2 + rest));
    palette::painted_text_shows(space, bar, p2 + rest);
    palette::painted_text_shows(spine, "│"@, rest);
    let shown = (marks + gap) + (bar + ("│"@ + palette::visible(rest)));
    assert(shown[(draw::MARK_COLUMNS + field) as int] == '│');
}

proof fn lemma_grouped(
    a: Seq<char>,
    b: Seq<char>,
    c: Seq<char>,
    d: Seq<char>,
    e: Seq<char>,
    f: Seq<char>,
    g: Seq<char>,
)
    ensures
        a + (b + c + d + e + f) + g == (a + b) + (c + (d + (e + f + g))),
{
    assert(a + (b + c + d + e + f) + g =~= (a + b) + (c + (d + (e + f + g))));
}

} // verus!
