//! What the screen says, told by what the interface holds.
use crate::chart;
use crate::cli;
use crate::figures;
use crate::page;
use crate::palette;
use crate::palette::Paint;
use crate::paths;
use crate::ranking;
use crate::rates;
use crate::reclaim::Outcome;
use crate::report;
use crate::text;
use crate::tui::app;
use crate::tui::app::{AppView, RowView};
use crate::tui::draw;
use crate::tui::draw::Look;
use crate::tui::keys;
use crate::tui::list;
use vstd::prelude::*;
use vstd::string::*;

verus! {

/// There is a target behind a row.
pub open spec fn is_measured(r: RowView) -> bool {
    r.target matches Some(t) && t < r.project.targets.len()
}

/// What a row is called: the project, and the target in it or the ecosystem.
pub open spec fn name_of(r: RowView) -> Seq<char> {
    let project = match paths::last_name(r.project.root) {
        Some(n) => n,
        None => Seq::empty(),
    };
    if is_measured(r) {
        project + "/"@ + paths::relative_to(
            r.project.targets[r.target->0 as int].path,
            r.project.root,
        )
    } else {
        project + " ["@ + r.project.ecosystem + "]"@
    }
}

/// A label, a size and a time in their columns.
spec fn columns_of(label: Seq<char>, n: nat, size: Seq<char>, time: Seq<char>) -> Seq<char> {
    " "@ + text::left_aligned(label, n) + " "@ + text::right_aligned(size, 10) + " "@
        + text::right_aligned(time, 8)
}

proof fn lemma_columns(label: Seq<char>, n: nat, size: Seq<char>, time: Seq<char>)
    ensures
        page::shows(columns_of(label, n, size, time), label),
        page::shows(columns_of(label, n, size, time), size),
        page::shows(columns_of(label, n, size, time), time),
{
    let a = text::left_aligned(label, n);
    let b = text::right_aligned(size, 10);
    let c = text::right_aligned(time, 8);
    page::lemma_aligned_shows(label, n);
    page::lemma_aligned_shows(size, 10);
    page::lemma_aligned_shows(time, 8);
    lemma_three_columns(a, b, c, label, size, time);
    assert(columns_of(label, n, size, time) == " "@ + a + " "@ + b + " "@ + c);
}

proof fn lemma_three_columns(
    a: Seq<char>,
    b: Seq<char>,
    c: Seq<char>,
    x: Seq<char>,
    y: Seq<char>,
    z: Seq<char>,
)
    requires
        page::shows(a, x),
        page::shows(b, y),
        page::shows(c, z),
    ensures
        page::shows(" "@ + a + " "@ + b + " "@ + c, x),
        page::shows(" "@ + a + " "@ + b + " "@ + c, y),
        page::shows(" "@ + a + " "@ + b + " "@ + c, z),
{
    let s = " "@;
    let none = Seq::<char>::empty();
    let line = s + a + s + b + s + c;
    assert(line =~= s + a + (s + b + s + c));
    page::lemma_still_shows(s, a, s + b + s + c, x);
    assert(line =~= (s + a + s) + b + (s + c));
    page::lemma_still_shows(s + a + s, b, s + c, y);
    assert(line =~= (s + a + s + b + s) + c + none);
    page::lemma_still_shows(s + a + s + b + s, c, none, z);
}

#[verifier::rlimit(40)]
#[verifier::spinoff_prover]
proof fn lemma_figures(r: RowView, w: u16)
    ensures
        page::shows(
            draw::figures_text(r, w),
            page::ending(name_of(r), draw::name_width_of(w) as int),
        ),
        is_measured(r) ==> {
            let t = r.project.targets[r.target->0 as int];
            &&& page::shows(
                draw::figures_text(r, w),
                figures::bytes_text(rates::freed(t) as nat),
            )
            &&& page::shows(
                draw::figures_text(r, w),
                figures::duration_text(t.rebuild_seconds as nat),
            )
        },
        !is_measured(r) ==> page::shows(draw::figures_text(r, w), "measuring…"@),
{
    let n = draw::name_width_of(w);
    let label = chart::tail_kept(draw::label_text(r), n);
    assert(draw::label_text(r) == name_of(r));
    assert(label == page::ending(name_of(r), n as int));
    let size = if r.measured() is Some {
        figures::bytes_text(r.bytes() as nat)
    } else {
        "measuring…"@
    };
    let time = if r.measured() is Some {
        figures::duration_text(r.seconds() as nat)
    } else {
        Seq::empty()
    };
    lemma_columns(label, n, size, time);
    assert(draw::figures_text(r, w) == columns_of(label, n, size, time));
}

/// The box in front of a row.
pub open spec fn box_of(r: RowView) -> Seq<char> {
    if r.selected {
        "[x]"@
    } else {
        "[ ]"@
    }
}

#[verifier::rlimit(40)]
#[verifier::spinoff_prover]
proof fn lemma_body(
    r: RowView,
    b: chart::Bars,
    under_cursor: bool,
    w: u16,
    truecolor: bool,
    words: Seq<char>,
)
    requires
        page::shows(draw::figures_text(r, w), words),
    ensures
        page::shows(draw::row_body(r, b, under_cursor, w, truecolor), words),
        page::shows(draw::row_body(r, b, under_cursor, w, truecolor), box_of(r)),
{
    let body = draw::row_body(r, b, under_cursor, w, truecolor);
    let marks = draw::marks_text(r.selected, under_cursor);
    let bars = draw::bars_text(r, b, draw::field_of(w), truecolor);
    let rest = draw::figures_text(r, w);
    assert(body =~= (marks + bars) + rest + Seq::<char>::empty());
    page::lemma_still_shows(marks + bars, rest, Seq::empty(), words);
    let first = if r.selected {
        "▸"@
    } else if under_cursor {
        "·"@
    } else {
        " "@
    };
    page::lemma_shows(first, box_of(r), " "@);
    assert(body =~= Seq::<char>::empty() + marks + (bars + rest));
    page::lemma_still_shows(Seq::empty(), marks, bars + rest, box_of(r));
}

#[verifier::rlimit(40)]
#[verifier::spinoff_prover]
proof fn lemma_line(
    r: RowView,
    b: chart::Bars,
    under_cursor: bool,
    w: u16,
    truecolor: bool,
    words: Seq<char>,
)
    requires
        page::shows(draw::figures_text(r, w), words),
    ensures
        page::shows(draw::row_line_text(r, b, under_cursor, w, truecolor).1, words),
        page::shows(draw::row_line_text(r, b, under_cursor, w, truecolor).1, box_of(r)),
{
    lemma_body(r, b, under_cursor, w, truecolor, words);
    let body = draw::row_body(r, b, under_cursor, w, truecolor);
    let front = palette::opening_text(Paint::Dimmed);
    let back = palette::closing_text();
    assert(palette::painted(Paint::Dimmed, body) =~= front + body + back);
    page::lemma_still_shows(front, body, back, words);
    page::lemma_still_shows(front, body, back, box_of(r));
}

/// A row says what it is called, whether it is selected, what comes back and how long
/// rebuilding takes; one that is not measured says so. Only the row under the cursor is
/// reversed.
#[verifier::rlimit(40)]
#[verifier::spinoff_prover]
pub proof fn a_row_says_what_it_is(
    r: RowView,
    b: chart::Bars,
    under_cursor: bool,
    w: u16,
    truecolor: bool,
)
    ensures
        ({
            let (look, line) = draw::row_line_text(r, b, under_cursor, w, truecolor);
            &&& under_cursor <==> look == Look::Reversed
            &&& page::shows(line, box_of(r))
            &&& page::shows(line, page::ending(name_of(r), draw::name_width_of(w) as int))
            &&& is_measured(r) ==> {
                let t = r.project.targets[r.target->0 as int];
                &&& page::shows(line, figures::bytes_text(rates::freed(t) as nat))
                &&& page::shows(line, figures::duration_text(t.rebuild_seconds as nat))
            }
            &&& !is_measured(r) ==> page::shows(line, "measuring…"@)
        }),
{
    lemma_figures(r, w);
    lemma_line(
        r,
        b,
        under_cursor,
        w,
        truecolor,
        page::ending(name_of(r), draw::name_width_of(w) as int),
    );
    if is_measured(r) {
        let t = r.project.targets[r.target->0 as int];
        lemma_line(
            r,
            b,
            under_cursor,
            w,
            truecolor,
            figures::bytes_text(rates::freed(t) as nat),
        );
        lemma_line(
            r,
            b,
            under_cursor,
            w,
            truecolor,
            figures::duration_text(t.rebuild_seconds as nat),
        );
    } else {
        lemma_line(r, b, under_cursor, w, truecolor, "measuring…"@);
    }
}

/// Work that cannot be touched is drawn in one colour, and other work in two.
pub proof fn held_back_rows_have_one_colour(r: RowView, truecolor: bool)
    ensures
        draw::side_paints(r, truecolor).0 == draw::side_paints(r, truecolor).1 <==> r.project.git_state
            is Dirty || r.project.git_state is Unpushed || r.project.git_state is Unknown,
{
    palette::the_two_quantities_differ(truecolor);
}

/// What comes back of the rows that something holds of.
pub open spec fn freed_among(rows: Seq<RowView>, holds: spec_fn(RowView) -> bool) -> nat {
    ranking::total(rows.map_values(list::freed_where(holds)))
}

/// How long the rows that something holds of take to rebuild.
pub open spec fn time_among(rows: Seq<RowView>, holds: spec_fn(RowView) -> bool) -> nat {
    ranking::total(rows.map_values(list::time_where(holds)))
}

/// The list is summed up above it: what comes back of the rows that may be touched, how
/// long they take to rebuild, and what is held back, where anything is.
#[verifier::rlimit(40)]
#[verifier::spinoff_prover]
pub proof fn the_list_is_summed_up(v: AppView)
    requires
        v.mode is Browsing || v.mode is Confirming || v.mode is Help,
    ensures
        ({
            let line = draw::status_text(v);
            let held = freed_among(
                v.rows,
                |r: RowView|
                    !(r.project.git_state is Clean) && !(r.project.git_state is NotARepo),
            );
            &&& page::shows(
                line,
                figures::bytes_text(freed_among(v.rows, |r: RowView| keys::may_be_touched(r)))
                    + " reclaimable"@,
            )
            &&& page::shows(
                line,
                figures::duration_text(time_among(v.rows, |r: RowView| keys::may_be_touched(r))),
            )
            &&& held > 0 ==> page::shows(line, figures::bytes_text(held) + " held back"@)
        }),
{
    list::totals_add_up(v.rows);
    let line = draw::status_text(v);
    let may = |r: RowView| keys::may_be_touched(r);
    let not = |r: RowView| !(r.project.git_state is Clean) && !(r.project.git_state is NotARepo);
    let b = figures::bytes_text(freed_among(v.rows, may));
    let d = figures::duration_text(time_among(v.rows, may));
    let held = freed_among(v.rows, not);
    let h = figures::bytes_text(held);
    let end = if held > 0 {
        " · "@ + h + " held back"@
    } else {
        Seq::empty()
    };
    lemma_reclaimable_words();
    let words = b + " reclaimable"@;
    let z1 = " · "@ + d + " to rebuild"@ + end;
    assert(line == b + " reclaimable · "@ + d + " to rebuild"@ + end);
    assert(line =~= Seq::<char>::empty() + words + z1);
    page::lemma_shows(Seq::empty(), words, z1);
    let a2 = b + " reclaimable · "@;
    assert(line =~= a2 + d + (" to rebuild"@ + end));
    page::lemma_shows(a2, d, " to rebuild"@ + end);
    if held > 0 {
        let a3 = a2 + d + " to rebuild"@ + " · "@;
        let held_words = h + " held back"@;
        assert(line =~= a3 + held_words + Seq::<char>::empty());
        page::lemma_shows(a3, held_words, Seq::empty());
    }
}

proof fn lemma_reclaimable_words()
    ensures
        " reclaimable · "@ == " reclaimable"@ + " · "@,
{
    reveal_strlit(" reclaimable · ");
    reveal_strlit(" reclaimable");
    reveal_strlit(" · ");
    assert(" reclaimable · "@ =~= " reclaimable"@ + " · "@);
}

/// A scan says how far it has come.
pub proof fn a_scan_says_how_far_it_is(v: AppView)
    requires
        v.mode is Scanning,
    ensures
        page::shows(draw::status_text(v), text::decimal(v.progress.dirs as nat)),
        page::shows(draw::status_text(v), text::decimal(v.progress.files as nat)),
{
    let d = text::decimal(v.progress.dirs as nat);
    let f = text::decimal(v.progress.files as nat);
    let line = draw::status_text(v);
    assert(line =~= "scanning — "@ + d + (" dirs · "@ + f + " files"@));
    page::lemma_shows("scanning — "@, d, " dirs · "@ + f + " files"@);
    page::lemma_shows("scanning — "@ + d + " dirs · "@, f, " files"@);
}

/// What is selected is summed up below the list: what comes back and how long it takes.
#[verifier::rlimit(40)]
#[verifier::spinoff_prover]
pub proof fn the_selection_is_summed_up(v: AppView, w: u16, h: u16, truecolor: bool)
    requires
        keys::is_open(v.mode),
    ensures
        ({
            let line = draw::footer_lines(v, w, h, truecolor)[0].text;
            &&& page::shows(
                line,
                figures::bytes_text(freed_among(v.rows, |r: RowView| r.selected)),
            )
            &&& page::shows(
                line,
                figures::duration_text(time_among(v.rows, |r: RowView| r.selected)),
            )
        }),
{
    list::totals_add_up(v.rows);
    let line = draw::footer_lines(v, w, h, truecolor)[0].text;
    let p = palette::emphasis_paint(truecolor);
    let b = figures::bytes_text(freed_among(v.rows, |r: RowView| r.selected));
    let d = figures::duration_text(time_among(v.rows, |r: RowView| r.selected));
    let a1 = "  "@ + palette::opening_text(p);
    let z1 = palette::closing_text() + " selected · "@ + d + " "@;
    assert(line =~= a1 + b + z1);
    page::lemma_shows(a1, b, z1);
    let a2 = "  "@ + palette::painted(p, b) + " selected · "@;
    assert(line =~= a2 + d + " "@);
    page::lemma_shows(a2, d, " "@);
}

#[verifier::rlimit(40)]
#[verifier::spinoff_prover]
proof fn lemma_about(v: AppView, truecolor: bool)
    ensures
        page::shows(
            draw::about_text(v, truecolor),
            figures::bytes_text(freed_among(v.rows, |r: RowView| r.selected)),
        ),
        page::shows(
            draw::about_text(v, truecolor),
            text::decimal(app::selected(v.rows).len()),
        ),
{
    list::totals_add_up(v.rows);
    let line = draw::about_text(v, truecolor);
    let b = figures::bytes_text(freed_among(v.rows, |r: RowView| r.selected));
    let n = text::decimal(app::selected(v.rows).len());
    let p = palette::emphasis_paint(truecolor);
    let front = "  "@ + palette::painted(palette::held_paint(truecolor), "About to delete"@)
        + " "@;
    let a1 = front + palette::opening_text(p);
    let z1 = palette::closing_text() + " across "@ + n + " target(s)."@;
    assert(line =~= a1 + b + z1);
    page::lemma_shows(a1, b, z1);
    let a2 = front + palette::painted(p, b) + " across "@;
    assert(line =~= a2 + n + " target(s)."@);
    page::lemma_shows(a2, n, " target(s)."@);
}

#[verifier::rlimit(40)]
#[verifier::spinoff_prover]
proof fn lemma_cost(v: AppView)
    ensures
        page::shows(
            draw::cost_text(v),
            figures::duration_text(time_among(v.rows, |r: RowView| r.selected)),
        ),
{
    list::totals_add_up(v.rows);
    let d = figures::duration_text(time_among(v.rows, |r: RowView| r.selected));
    let a = "  "@ + palette::opening_text(Paint::Dimmed)
        + "Restoring all of it would cost about "@;
    let z = "."@ + palette::closing_text();
    assert(draw::cost_text(v) =~= a + d + z);
    page::lemma_shows(a, d, z);
}

/// The confirmation says what comes back of all that is selected, how many targets that
/// are, and how long they take to rebuild.
#[verifier::rlimit(40)]
#[verifier::spinoff_prover]
pub proof fn the_confirmation_says_what_goes(v: AppView, w: u16, h: u16, truecolor: bool)
    ensures
        ({
            let lines = draw::confirm_lines(v, w, h, truecolor);
            &&& lines.len() >= 2
            &&& page::shows(
                lines[0].text,
                figures::bytes_text(freed_among(v.rows, |r: RowView| r.selected)),
            )
            &&& page::shows(lines[0].text, text::decimal(app::selected(v.rows).len()))
            &&& page::shows(
                lines[1].text,
                figures::duration_text(time_among(v.rows, |r: RowView| r.selected)),
            )
        }),
{
    lemma_about(v, truecolor);
    lemma_cost(v);
    let lines = draw::confirm_lines(v, w, h, truecolor);
    assert(lines[0] == draw::plain_line(4, draw::about_text(v, truecolor)));
    assert(lines[1] == draw::plain_line(5, draw::cost_text(v)));
}

/// A directory that is about to be deleted is named in full where it fits.
pub proof fn what_goes_is_named_in_full(r: RowView, w: u16)
    requires
        is_measured(r),
        r.project.targets[r.target->0 as int].path.len() + 6 <= w,
        r.project.targets[r.target->0 as int].path.len() > 0,
        r.project.targets[r.target->0 as int].path[0] != '\\',
    ensures
        page::shows(
            draw::item_path_text(r, w),
            r.project.targets[r.target->0 as int].path,
        ),
{
    let path = r.project.targets[r.target->0 as int].path;
    if paths::begins_with(path, seq!['\\', '\\', '?', '\\']) {
        assert(path.take(4)[0] == path[0]);
    }
    assert(report::path_shown(path) == path);
    page::lemma_shows("    "@, path, Seq::empty());
    assert("    "@ + path + Seq::<char>::empty() =~= draw::item_path_text(r, w));
}

/// The end of a deletion says what came back, how many targets are gone, and how many could
/// not be removed or were left alone, where there are any.
#[verifier::rlimit(40)]
#[verifier::spinoff_prover]
pub proof fn the_end_says_what_came_of_it(o: Outcome)
    ensures
        ({
            let line = app::done_text(o);
            &&& page::shows(line, "Freed "@ + figures::bytes_text(o.freed as nat))
            &&& page::shows(line, text::decimal(o.removed as nat) + " target(s)."@)
            &&& o.failures > 0 ==> page::shows(
                line,
                text::decimal(o.failures as nat) + " could not be removed."@,
            )
            &&& o.refused > 0 ==> page::shows(
                line,
                text::decimal(o.refused as nat)
                    + " refused — did not resolve inside their project."@,
            )
        }),
{
    let line = app::done_text(o);
    let b = "Freed "@ + figures::bytes_text(o.freed as nat);
    let n = text::decimal(o.removed as nat) + " target(s)."@;
    let f = text::decimal(o.failures as nat) + " could not be removed."@;
    let r = text::decimal(o.refused as nat)
        + " refused — did not resolve inside their project."@;
    let fails = if o.failures > 0 {
        " "@ + f
    } else {
        Seq::<char>::empty()
    };
    let left = if o.refused > 0 {
        " "@ + r
    } else {
        Seq::<char>::empty()
    };
    let a2 = b + " across "@;
    assert(line =~= a2 + n + (fails + left));
    page::lemma_shows(a2, n, fails + left);
    assert(line =~= Seq::<char>::empty() + b + (" across "@ + n + (fails + left)));
    page::lemma_shows(Seq::empty(), b, " across "@ + n + (fails + left));
    if o.failures > 0 {
        assert(line =~= (a2 + n + " "@) + f + left);
        page::lemma_shows(a2 + n + " "@, f, left);
    }
    if o.refused > 0 {
        assert(line =~= (a2 + n + fails + " "@) + r + Seq::<char>::empty());
        page::lemma_shows(a2 + n + fails + " "@, r, Seq::empty());
    }
}

/// The header says how things stand, and which roots are scanned, where that fits.
#[verifier::rlimit(40)]
#[verifier::spinoff_prover]
pub proof fn the_header_says_how_things_stand(v: AppView, w: u16, truecolor: bool, k: int)
    ensures
        draw::status_text(v).len() + 14 <= w ==> page::shows(
            draw::header_lines(v, w, truecolor)[0].text,
            draw::status_text(v),
        ),
        0 <= k < v.roots.len() && draw::roots_text(v).len() + 4 <= w ==> page::shows(
            draw::header_lines(v, w, truecolor)[1].text,
            report::path_shown(v.roots[k]),
        ),
{
    if draw::status_text(v).len() + 14 <= w {
        lemma_title(v, w, truecolor);
    }
    if 0 <= k < v.roots.len() && draw::roots_text(v).len() + 4 <= w {
        let shown = v.roots.map_values(|p: Seq<char>| report::path_shown(p));
        cli::lemma_joined_shows(shown, "  "@, k);
        let line = draw::roots_text(v);
        let a = "  "@ + palette::opening_text(Paint::Dimmed);
        let z = palette::closing_text();
        assert("  "@ + palette::painted(Paint::Dimmed, line) =~= a + line + z);
        page::lemma_still_shows(a, line, z, shown[k]);
    }
}

#[verifier::rlimit(40)]
#[verifier::spinoff_prover]
proof fn lemma_title(v: AppView, w: u16, truecolor: bool)
    requires
        draw::status_text(v).len() + 14 <= w,
    ensures
        page::shows(draw::title_text(v, w, truecolor), draw::status_text(v)),
{
    let line = draw::status_text(v);
    let a = "  "@ + palette::painted(palette::emphasis_paint(truecolor), "ForceFree"@) + "  "@
        + palette::opening_text(Paint::Dimmed);
    let z = palette::closing_text();
    assert(draw::title_text(v, w, truecolor) =~= a + line + z);
    page::lemma_shows(a, line, z);
}

/// A path is shown as it is, but for the prefix that marks it as extended-length.
pub proof fn paths_are_shown_as_they_are(p: Seq<char>)
    ensures
        p.len() == 0 || p[0] != '\\' ==> report::path_shown(p) == p,
        report::path_shown(seq!['\\', '\\', '?', '\\'] + p) == p,
{
    let mark = seq!['\\', '\\', '?', '\\'];
    let long = mark + p;
    assert(long.take(4) =~= mark);
    assert(long.skip(4) =~= p);
    if paths::begins_with(p, mark) {
        assert(p.take(4)[0] == p[0]);
    }
}

/// Nothing is confirmed unseen: while a deletion is to be confirmed, the screen says what
/// would go, and in every other mode but that of the key reference it shows the list.
pub proof fn what_is_to_be_confirmed_is_on_the_screen(
    v: AppView,
    w: u16,
    h: u16,
    rate_text: Seq<char>,
    truecolor: bool,
)
    ensures
        v.mode is Confirming ==> {
            let lines = draw::middle_lines(v, w, h, rate_text, truecolor);
            &&& lines.len() >= 2
            &&& page::shows(
                lines[0].text,
                figures::bytes_text(freed_among(v.rows, |r: RowView| r.selected)),
            )
        },
        !(v.mode is Confirming) && !(v.mode is Help) ==> draw::middle_lines(
            v,
            w,
            h,
            rate_text,
            truecolor,
        ) == draw::list_lines(v, w, h, rate_text, truecolor),
{
    the_confirmation_says_what_goes(v, w, h, truecolor);
}

} // verus!
