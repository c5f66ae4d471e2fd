//! What a report says, told by the projects that it is about.
use crate::chart;
use crate::deals;
use crate::figures;
use crate::palette;
use crate::palette::Paint;
use crate::paths;
use crate::prose;
use crate::ranking;
use crate::rates;
use crate::reclaim;
use crate::reclaim::DoomedView;
use crate::report;
use crate::scan;
use crate::scan::{ProjectView, TargetView};
use crate::text;
use vstd::prelude::*;
use vstd::string::*;

verus! {

/// Some words stand in a line.
pub open spec fn shows(line: Seq<char>, words: Seq<char>) -> bool {
    exists|a: int| #[trigger] stands_at(line, words, a)
}

/// Some words stand in a line from a column on.
pub open spec fn stands_at(line: Seq<char>, words: Seq<char>, a: int) -> bool {
    0 <= a && a + words.len() <= line.len() && line.subrange(a, a + words.len()) == words
}

/// Text that is too long for some columns is cut at the left, behind a mark.
pub open spec fn ending(s: Seq<char>, width: int) -> Seq<char> {
    if s.len() <= width {
        s
    } else {
        seq!['…'] + s.skip(s.len() - (width - 1))
    }
}

/// Text that is too long for some columns is cut at the right, in front of a mark.
pub open spec fn beginning(s: Seq<char>, width: int) -> Seq<char> {
    if s.len() <= width {
        s
    } else {
        s.take(width - 1).push('…')
    }
}

/// Words stand in a text that is put together around them.
pub proof fn lemma_shows(a: Seq<char>, words: Seq<char>, b: Seq<char>)
    ensures
        shows(a + words + b, words),
{
    let line = a + words + b;
    assert(line.subrange(a.len() as int, a.len() as int + words.len()) =~= words);
    assert(stands_at(line, words, a.len() as int));
}

/// Words that stand in a part of a text stand in the text.
pub proof fn lemma_still_shows(a: Seq<char>, s: Seq<char>, b: Seq<char>, words: Seq<char>)
    requires
        shows(s, words),
    ensures
        shows(a + s + b, words),
{
    let at = choose|at: int| #[trigger] stands_at(s, words, at);
    let line = a + s + b;
    assert(line.subrange(a.len() + at, a.len() + at + words.len()) =~= s.subrange(
        at,
        at + words.len(),
    ));
    assert(stands_at(line, words, a.len() + at));
}

/// Text stands in the columns that it is aligned in.
pub proof fn lemma_aligned_shows(s: Seq<char>, width: nat)
    ensures
        shows(text::left_aligned(s, width), s),
        shows(text::right_aligned(s, width), s),
{
    let none = Seq::<char>::empty();
    let pad = text::repeated(
        ' ',
        if s.len() < width {
            (width - s.len()) as nat
        } else {
            0
        },
    );
    assert(text::left_aligned(s, width) =~= none + s + pad);
    assert(text::right_aligned(s, width) =~= pad + s + none);
    lemma_shows(none, s, pad);
    lemma_shows(pad, s, none);
}

/// A line of the report.
#[verifier::opaque]
spec fn has_line(
    ps: Seq<ProjectView>,
    rate: u64,
    rate_text: Seq<char>,
    show_all: bool,
    truecolor: bool,
    at: int,
    line: Seq<char>,
) -> bool {
    let lines = report::report_lines(ps, rate, rate_text, show_all, truecolor);
    0 <= at < lines.len() && lines[at] == line
}

/// The lines about what is held back stand in the report.
#[verifier::rlimit(40)]
#[verifier::spinoff_prover]
proof fn lemma_held_stands(
    ps: Seq<ProjectView>,
    rate: u64,
    rate_text: Seq<char>,
    show_all: bool,
    truecolor: bool,
    k: int,
) -> (j: int)
    requires
        ps.len() > 0,
        0 <= k < report::held_lines(deals::blocked(ps), truecolor).len(),
    ensures
        has_line(
            ps,
            rate,
            rate_text,
            show_all,
            truecolor,
            j,
            report::held_lines(deals::blocked(ps), truecolor)[k],
        ),
{
    reveal(has_line);
    let lines = report::report_lines(ps, rate, rate_text, show_all, truecolor);
    let held = report::held_lines(deals::blocked(ps), truecolor);
    if deals::eligible(ps).len() == 0 {
        assert(lines[2 + k] == held[k]);
        2 + k
    } else {
        let front = report::ranked_lines(ps, rate, rate_text, show_all, truecolor)
            + report::caveat_lines(
            ranking::total(deals::project_shared(ps)),
            ranking::total(deals::project_unreadable(ps)),
        );
        assert(lines == front + held + report::ending_lines());
        assert(lines[front.len() + k] == held[k]);
        front.len() + k
    }
}

/// Why a project is held back.
pub open spec fn reason(p: ProjectView) -> Seq<char> {
    if p.git_state is Dirty {
        "uncommitted changes"@
    } else if p.git_state is Unpushed {
        "unpushed commits"@
    } else {
        "git state unknown"@
    }
}

/// A line about a project that is held back: its name, its ecosystem and why.
pub open spec fn names(line: Seq<char>, p: ProjectView) -> bool {
    let name = match paths::last_name(p.root) {
        Some(n) => n,
        None => p.root,
    };
    &&& shows(line, ending(name, 26))
    &&& shows(line, ending(p.ecosystem, 16))
    &&& shows(line, reason(p))
}

#[verifier::rlimit(40)]
#[verifier::spinoff_prover]
proof fn lemma_held_text(p: ProjectView)
    requires
        !(p.git_state is Clean),
        !(p.git_state is NotARepo),
    ensures
        names(report::held_text(p), p),
{
    let name = match paths::last_name(p.root) {
        Some(n) => n,
        None => p.root,
    };
    let n = chart::tail_kept(name, 26);
    let e = chart::tail_kept(p.ecosystem, 16);
    let gap = text::repeated(
        ' ',
        if n.len() < 26 {
            (26 - n.len()) as nat
        } else {
            0
        },
    );
    let space = text::repeated(
        ' ',
        if e.len() < 16 {
            (16 - e.len()) as nat
        } else {
            0
        },
    );
    let label = p.git_state.label_text();
    let about = e + space + " "@ + label;
    let end = " "@ + palette::painted(Paint::Dimmed, about);
    let line = report::held_text(p);
    assert(line =~= "    "@ + n + (gap + end));
    lemma_shows("    "@, n, gap + end);
    let before = "    "@ + n + gap + " "@ + palette::opening_text(Paint::Dimmed);
    assert(line =~= before + about + palette::closing_text());
    assert(about =~= Seq::<char>::empty() + e + (space + " "@ + label));
    lemma_shows(Seq::empty(), e, space + " "@ + label);
    assert(about =~= (e + space + " "@) + label + Seq::<char>::empty());
    lemma_shows(e + space + " "@, label, Seq::empty());
    lemma_still_shows(before, about, palette::closing_text(), e);
    lemma_still_shows(before, about, palette::closing_text(), label);
}

proof fn lemma_blocked(ps: Seq<ProjectView>, i: int) -> (k: int)
    requires
        0 <= i < ps.len(),
        !(ps[i].git_state is Clean),
        !(ps[i].git_state is NotARepo),
    ensures
        0 <= k < deals::blocked(ps).len(),
        deals::blocked(ps)[k] == ps[i],
    decreases ps.len(),
{
    if i == ps.len() - 1 {
        deals::blocked(ps).len() - 1
    } else {
        let k = lemma_blocked(ps.drop_last(), i);
        assert(ps.drop_last()[i] == ps[i]);
        k
    }
}

/// One of some lines is about a project that is held back.
pub open spec fn is_named(lines: Seq<Seq<char>>, p: ProjectView) -> bool {
    exists|j: int| 0 <= j < lines.len() && names(#[trigger] lines[j], p)
}

/// Every project with work that is not backed up is named in the report, with why it is
/// held back.
#[verifier::rlimit(40)]
#[verifier::spinoff_prover]
pub proof fn nothing_is_held_back_in_silence(
    ps: Seq<ProjectView>,
    rate: u64,
    rate_text: Seq<char>,
    show_all: bool,
    truecolor: bool,
    i: int,
)
    requires
        0 <= i < ps.len(),
        !(ps[i].git_state is Clean),
        !(ps[i].git_state is NotARepo),
    ensures
        is_named(report::report_lines(ps, rate, rate_text, show_all, truecolor), ps[i]),
{
    let k = lemma_blocked(ps, i);
    lemma_held_text(ps[i]);
    assert(report::held_lines(deals::blocked(ps), truecolor)[2 + k] == report::held_text(ps[i]));
    let j = lemma_held_stands(ps, rate, rate_text, show_all, truecolor, 2 + k);
    reveal(has_line);
    assert(names(report::report_lines(ps, rate, rate_text, show_all, truecolor)[j], ps[i]));
}

/// What comes back of each target of a project.
pub open spec fn freed_of(p: ProjectView) -> Seq<nat> {
    p.targets.map_values(|t: TargetView| rates::freed(t) as nat)
}

/// What comes back of each row.
pub open spec fn freed_by(rows: Seq<DoomedView>) -> Seq<nat> {
    rows.map_values(|d: DoomedView| rates::freed(d.target) as nat)
}

/// How long each row takes to rebuild.
pub open spec fn time_for(rows: Seq<DoomedView>) -> Seq<nat> {
    rows.map_values(|d: DoomedView| d.target.rebuild_seconds as nat)
}

#[verifier::rlimit(40)]
#[verifier::spinoff_prover]
proof fn lemma_totals_text(rows: Seq<DoomedView>, truecolor: bool)
    ensures
        shows(
            report::totals_text(rows, truecolor),
            figures::bytes_text(ranking::total(freed_by(rows))),
        ),
        shows(report::totals_text(rows, truecolor), text::decimal(rows.len())),
        shows(
            report::totals_text(rows, truecolor),
            figures::duration_text(ranking::total(time_for(rows))),
        ),
{
    assert(reclaim::bytes_of(rows) =~= freed_by(rows));
    assert(reclaim::seconds_of(rows) =~= time_for(rows));
    let p = palette::emphasis_paint(truecolor);
    let b = figures::bytes_text(ranking::total(freed_by(rows)));
    let n = text::decimal(rows.len());
    let d = figures::duration_text(ranking::total(time_for(rows)));
    let line = report::totals_text(rows, truecolor);
    let a1 = "  "@ + palette::opening_text(p);
    let z1 = palette::closing_text() + " reclaimable across "@ + n + " targets · "@ + d
        + " to rebuild it all"@;
    assert(line =~= a1 + b + z1);
    lemma_shows(a1, b, z1);
    let a2 = "  "@ + palette::painted(p, b) + " reclaimable across "@;
    let z2 = " targets · "@ + d + " to rebuild it all"@;
    assert(line =~= a2 + n + z2);
    lemma_shows(a2, n, z2);
    let a3 = a2 + n + " targets · "@;
    assert(line =~= a3 + d + " to rebuild it all"@);
    lemma_shows(a3, d, " to rebuild it all"@);
}

/// The report says first how much comes back of all targets together, of how many there
/// are, and how long rebuilding them all takes.
#[verifier::rlimit(40)]
#[verifier::spinoff_prover]
pub proof fn the_totals_come_first(
    ps: Seq<ProjectView>,
    rate: u64,
    rate_text: Seq<char>,
    show_all: bool,
    truecolor: bool,
)
    requires
        deals::eligible(ps).len() > 0,
        ps.len() > 0,
    ensures
        ({
            let lines = report::report_lines(ps, rate, rate_text, show_all, truecolor);
            let rows = deals::ranked(ps);
            &&& lines.len() > 1
            &&& shows(lines[1], figures::bytes_text(ranking::total(freed_by(rows))))
            &&& shows(lines[1], text::decimal(rows.len()))
            &&& shows(lines[1], figures::duration_text(ranking::total(time_for(rows))))
        }),
{
    let lines = report::report_lines(ps, rate, rate_text, show_all, truecolor);
    let rows = deals::ranked(ps);
    lemma_totals_text(rows, truecolor);
    let head = report::head_lines(rows, truecolor);
    assert(head[1] == report::totals_text(rows, truecolor));
    assert(report::ranked_lines(ps, rate, rate_text, show_all, truecolor)[1] == head[1]);
    assert(lines[1] == head[1]);
}

/// A line about a target, and the line behind it: what comes back, how long rebuilding
/// takes, and the command that does it. A lower bound is marked.
pub open spec fn tells(lines: Seq<Seq<char>>, t: TargetView, j: int) -> bool {
    &&& 0 <= j < lines.len() - 1
    &&& shows(lines[j], figures::bytes_text(rates::freed(t) as nat))
    &&& t.unreadable > 0 ==> shows(
        lines[j],
        "~"@ + figures::bytes_text(rates::freed(t) as nat),
    )
    &&& t.unreadable == 0 ==> shows(
        lines[j],
        " "@ + figures::bytes_text(rates::freed(t) as nat),
    )
    &&& shows(lines[j], figures::duration_text(t.rebuild_seconds as nat))
    &&& shows(lines[j + 1], beginning(t.restore_command, 41))
}

#[verifier::rlimit(40)]
#[verifier::spinoff_prover]
proof fn lemma_row_shows(
    b: chart::Bars,
    label: Seq<char>,
    t: TargetView,
    truecolor: bool,
)
    ensures
        ({
            let line = report::row_text(
                b,
                label,
                figures::size_text(t),
                figures::duration_text(t.rebuild_seconds as nat),
                truecolor,
            );
            &&& shows(line, figures::bytes_text(rates::freed(t) as nat))
            &&& t.unreadable > 0 ==> shows(
                line,
                "~"@ + figures::bytes_text(rates::freed(t) as nat),
            )
            &&& t.unreadable == 0 ==> shows(
                line,
                " "@ + figures::bytes_text(rates::freed(t) as nat),
            )
            &&& shows(line, figures::duration_text(t.rebuild_seconds as nat))
        }),
{
    let size = figures::size_text(t);
    let time = figures::duration_text(t.rebuild_seconds as nat);
    let amount = figures::bytes_text(rates::freed(t) as nat);
    lemma_figures_show(b, label, size, time);
    lemma_tail_shows(b, label, size, time, truecolor, size);
    lemma_tail_shows(b, label, size, time, truecolor, time);
    lemma_tail_shows(b, label, size, time, truecolor, " "@ + size);
    if t.unreadable > 0 {
        assert(size =~= "~"@ + amount + Seq::<char>::empty());
        lemma_shows("~"@, amount, Seq::empty());
        lemma_shows_through(
            report::row_text(b, label, size, time, truecolor),
            size,
            amount,
        );
    }
}

/// Words that stand in words that stand in a line stand in the line.
pub proof fn lemma_shows_through(line: Seq<char>, middle: Seq<char>, words: Seq<char>)
    requires
        shows(line, middle),
        shows(middle, words),
    ensures
        shows(line, words),
{
    let a = choose|a: int| #[trigger] stands_at(line, middle, a);
    let front = line.take(a);
    let back = line.skip(a + middle.len());
    assert(line =~= front + middle + back);
    lemma_still_shows(front, middle, back, words);
}

#[verifier::rlimit(40)]
#[verifier::spinoff_prover]
proof fn lemma_figures_show(b: chart::Bars, label: Seq<char>, size: Seq<char>, time: Seq<char>)
    ensures
        shows(report::row_tail(b, label, size, time), size),
        shows(report::row_tail(b, label, size, time), " "@ + size),
        shows(report::row_tail(b, label, size, time), time),
{
    reveal_strlit(" ");
    let tail = report::row_tail(b, label, size, time);
    let right = report::at_most(b.right, report::RIGHT_FIELD);
    let front = text::repeated(' ', (report::RIGHT_FIELD - right) as nat) + (if b.overflowed {
        "▸"@
    } else {
        " "@
    }) + " "@ + text::left_aligned(
        report::label_beside(label, size),
        report::label_field(size.len()),
    );
    let pad = text::repeated(
        ' ',
        if size.len() < 9 {
            (9 - size.len()) as nat
        } else {
            0
        },
    );
    let gap = text::repeated(
        ' ',
        if time.len() < 7 {
            (7 - time.len()) as nat
        } else {
            0
        },
    );
    assert(" "@ + pad =~= pad + " "@);
    let back = " "@ + gap + time;
    assert(tail =~= front + (" "@ + pad) + size + back);
    assert(front + (pad + " "@) + size + back =~= (front + pad) + (" "@ + size) + back);
    lemma_shows(front + (" "@ + pad), size, back);
    lemma_shows(front + pad, " "@ + size, back);
    assert(tail =~= (front + (" "@ + pad) + size + " "@ + gap) + time + Seq::<char>::empty());
    lemma_shows(front + (" "@ + pad) + size + " "@ + gap, time, Seq::empty());
}

#[verifier::rlimit(40)]
#[verifier::spinoff_prover]
proof fn lemma_label_shows(b: chart::Bars, label: Seq<char>, size: Seq<char>, time: Seq<char>)
    requires
        size.len() <= 9,
    ensures
        shows(report::row_tail(b, label, size, time), label),
{
    let right = report::at_most(b.right, report::RIGHT_FIELD);
    let gap = text::repeated(
        ' ',
        if label.len() < 24 {
            (24 - label.len()) as nat
        } else {
            0
        },
    );
    let before = text::repeated(' ', (report::RIGHT_FIELD - right) as nat) + (if b.overflowed {
        "▸"@
    } else {
        " "@
    }) + " "@;
    let behind = gap + " "@ + text::right_aligned(size, 9) + " "@ + text::right_aligned(time, 7);
    assert(report::row_tail(b, label, size, time) =~= before + label + behind);
    lemma_shows(before, label, behind);
}

#[verifier::rlimit(40)]
#[verifier::spinoff_prover]
proof fn lemma_tail_shows(
    b: chart::Bars,
    label: Seq<char>,
    size: Seq<char>,
    time: Seq<char>,
    truecolor: bool,
    words: Seq<char>,
)
    requires
        shows(report::row_tail(b, label, size, time), words),
    ensures
        shows(report::row_text(b, label, size, time, truecolor), words),
{
    let left = report::at_most(b.left, report::LEFT_FIELD);
    let right = report::at_most(b.right, report::RIGHT_FIELD);
    let head = "  "@ + text::repeated(' ', (report::LEFT_FIELD - left) as nat) + palette::painted(
        palette::space_paint(truecolor),
        text::repeated('█', left),
    ) + palette::painted(palette::structure_paint(truecolor), "│"@) + palette::painted(
        palette::time_paint(truecolor),
        text::repeated('█', right),
    );
    let tail = report::row_tail(b, label, size, time);
    assert(report::row_text(b, label, size, time, truecolor) =~= head + tail
        + Seq::<char>::empty());
    lemma_still_shows(head, tail, Seq::empty(), words);
}

/// A row names its project and where the target lies in it, as long as the size does not
/// stick out of its columns. Where that is too long, its end is kept.
#[verifier::rlimit(40)]
#[verifier::spinoff_prover]
pub proof fn rows_name_project_and_target(
    b: chart::Bars,
    p: ProjectView,
    t: TargetView,
    truecolor: bool,
)
    requires
        figures::size_text(t).len() <= 9,
    ensures
        ({
            let line = report::row_text(
                b,
                report::label_text(p, t),
                figures::size_text(t),
                figures::duration_text(t.rebuild_seconds as nat),
                truecolor,
            );
            let place = paths::relative_to(t.path, p.root);
            match paths::last_name(p.root) {
                Some(n) => n.len() > 0 ==> shows(line, ending(n + "/"@ + place, 24)),
                None => shows(line, ending(place, 24)),
            }
        }),
{
    let size = figures::size_text(t);
    let time = figures::duration_text(t.rebuild_seconds as nat);
    lemma_label_shows(b, report::label_text(p, t), size, time);
    lemma_tail_shows(b, report::label_text(p, t), size, time, truecolor, report::label_text(p, t));
}

#[verifier::rlimit(40)]
#[verifier::spinoff_prover]
proof fn lemma_restore_text(t: TargetView)
    ensures
        shows(report::restore_text(t), beginning(t.restore_command, 41)),
{
    let a = text::repeated(' ', 37) + palette::opening_text(Paint::Dimmed);
    let c = beginning(t.restore_command, 41);
    assert(report::restore_text(t) =~= a + c + palette::closing_text());
    lemma_shows(a, c, palette::closing_text());
}

/// Every row that is shown tells what comes back, how long rebuilding takes and how it is
/// done: every row above the line and the next three, and with all asked for every row.
#[verifier::rlimit(40)]
#[verifier::spinoff_prover]
pub proof fn every_row_tells_what_it_costs(
    ps: Seq<ProjectView>,
    rate: u64,
    rate_text: Seq<char>,
    show_all: bool,
    truecolor: bool,
    i: int,
)
    requires
        deals::eligible(ps).len() <= usize::MAX,
        0 <= i < deals::ranked(ps).len(),
        show_all || i < deals::worthwhile(deals::ranked(ps), rate, report::LEFT_FIELD) + 3,
    ensures
        exists|j: int| #[trigger]
            tells(
                report::report_lines(ps, rate, rate_text, show_all, truecolor),
                deals::ranked(ps)[i].target,
                j,
            ),
{
    let rows = deals::ranked(ps);
    let drawn = deals::bars_of(rows, rate, report::LEFT_FIELD);
    deals::ranking_keeps_the_totals(ps);
    chart::lemma_first_not_leaning(drawn, 0);
    report::every_row_states_how_to_get_it_back(ps, rate, rate_text, show_all, truecolor, i);
    let lines = report::report_lines(ps, rate, rate_text, show_all, truecolor);
    let j = choose|j: int| #[trigger] report::lists(lines, rows, drawn, truecolor, i, j);
    let t = rows[i].target;
    lemma_row_shows(drawn[i], report::label_text(rows[i].project, t), t, truecolor);
    lemma_restore_text(t);
    assert(tells(lines, t, j));
}

#[verifier::rlimit(40)]
#[verifier::spinoff_prover]
proof fn lemma_more_text(rows: Seq<DoomedView>, shown: nat)
    ensures
        shows(report::more_text(rows, shown), text::decimal((rows.len() - shown) as nat)),
        shows(
            report::more_text(rows, shown),
            figures::bytes_text(ranking::total(freed_by(rows).skip(shown as int))),
        ),
        shows(
            report::more_text(rows, shown),
            figures::duration_text(ranking::total(time_for(rows).skip(shown as int))),
        ),
{
    assert(reclaim::bytes_of(rows) =~= freed_by(rows));
    assert(reclaim::seconds_of(rows) =~= time_for(rows));
    let line = report::more_text(rows, shown);
    let n = text::decimal((rows.len() - shown) as nat);
    let b = figures::bytes_text(ranking::total(freed_by(rows).skip(shown as int)));
    let d = figures::duration_text(ranking::total(time_for(rows).skip(shown as int)));
    let front = "  "@ + palette::opening_text(Paint::Dimmed);
    let back = palette::closing_text();
    let s = n + " more below the line: "@ + b + " for another "@ + d + ".  --all to see them."@;
    assert(line =~= front + s + back);
    let z1 = " more below the line: "@ + b + " for another "@ + d + ".  --all to see them."@;
    assert(s =~= Seq::<char>::empty() + n + z1);
    lemma_shows(Seq::empty(), n, z1);
    let a2 = n + " more below the line: "@;
    let z2 = " for another "@ + d + ".  --all to see them."@;
    assert(s =~= a2 + b + z2);
    lemma_shows(a2, b, z2);
    let a3 = a2 + b + " for another "@;
    assert(s =~= a3 + d + ".  --all to see them."@);
    lemma_shows(a3, d, ".  --all to see them."@);
    lemma_still_shows(front, s, back, n);
    lemma_still_shows(front, s, back, b);
    lemma_still_shows(front, s, back, d);
}

/// The line about the rows that are left out stands in the report.
#[verifier::rlimit(40)]
#[verifier::spinoff_prover]
proof fn lemma_more_stands(
    ps: Seq<ProjectView>,
    rate: u64,
    rate_text: Seq<char>,
    truecolor: bool,
) -> (j: int)
    requires
        deals::eligible(ps).len() <= usize::MAX,
        ps.len() > 0,
        deals::worthwhile(deals::ranked(ps), rate, report::LEFT_FIELD) + 3 < deals::ranked(
            ps,
        ).len(),
    ensures
        ({
            let rows = deals::ranked(ps);
            let cut = (deals::worthwhile(rows, rate, report::LEFT_FIELD) + 3) as nat;
            has_line(ps, rate, rate_text, false, truecolor, j, report::more_text(rows, cut))
        }),
{
    let rows = deals::ranked(ps);
    let drawn = deals::bars_of(rows, rate, report::LEFT_FIELD);
    lemma_cut(ps, rate, false);
    let shown = report::shown_rows(drawn, false);
    assert(shown == deals::worthwhile(rows, rate, report::LEFT_FIELD) + 3) by {
        deals::ranking_keeps_the_totals(ps);
    }
    let before = report::head_lines(rows, truecolor) + report::chart_lines(
        rows,
        drawn,
        rate_text,
        truecolor,
        shown as int,
    );
    let rest = report::rest_lines(rows, shown);
    let ranked = report::ranked_lines(ps, rate, rate_text, false, truecolor);
    assert(ranked == before + rest);
    let j = before.len() as int + 1;
    assert(ranked[j] == report::more_text(rows, shown));
    reveal(has_line);
    assert(report::report_lines(ps, rate, rate_text, false, truecolor)[j] == ranked[j]);
    j
}

/// Where rows are left out, the report says how many, what would come back of them and
/// how long they take to rebuild.
#[verifier::rlimit(40)]
#[verifier::spinoff_prover]
pub proof fn what_is_left_out_is_summed_up(
    ps: Seq<ProjectView>,
    rate: u64,
    rate_text: Seq<char>,
    truecolor: bool,
)
    requires
        deals::eligible(ps).len() <= usize::MAX,
        ps.len() > 0,
        deals::worthwhile(deals::ranked(ps), rate, report::LEFT_FIELD) + 3 < deals::ranked(
            ps,
        ).len(),
    ensures
        ({
            let lines = report::report_lines(ps, rate, rate_text, false, truecolor);
            let rows = deals::ranked(ps);
            let cut = deals::worthwhile(rows, rate, report::LEFT_FIELD) + 3;
            exists|j: int|
                0 <= j < lines.len() && shows(
                    #[trigger] lines[j],
                    text::decimal((rows.len() - cut) as nat),
                ) && shows(
                    lines[j],
                    figures::bytes_text(ranking::total(freed_by(rows).skip(cut as int))),
                ) && shows(
                    lines[j],
                    figures::duration_text(ranking::total(time_for(rows).skip(cut as int))),
                )
        }),
{
    let rows = deals::ranked(ps);
    let cut = (deals::worthwhile(rows, rate, report::LEFT_FIELD) + 3) as nat;
    lemma_more_text(rows, cut);
    let j = lemma_more_stands(ps, rate, rate_text, truecolor);
    reveal(has_line);
    let line = report::report_lines(ps, rate, rate_text, false, truecolor)[j];
    assert(line == report::more_text(rows, cut));
}

#[verifier::rlimit(40)]
#[verifier::spinoff_prover]
proof fn lemma_rule_text(rate_text: Seq<char>, truecolor: bool)
    ensures
        shows(report::rule_text(rate_text, truecolor), "┼"@),
        shows(report::rule_text(rate_text, truecolor), rate_text),
{
    let rule = report::rule_text(rate_text, truecolor);
    let p = palette::structure_paint(truecolor);
    let bar = text::repeated('─', report::LEFT_FIELD as nat);
    let told = palette::painted(
        Paint::Dimmed,
        "break-even · "@ + rate_text + " MB per second"@,
    );
    let x = "  "@ + palette::opening_text(p) + bar;
    let y = bar + palette::closing_text() + "  "@ + told;
    assert(rule =~= x + "┼"@ + y);
    lemma_shows(x, "┼"@, y);
    let u = "  "@ + palette::painted(p, report::crossing(report::LEFT_FIELD as nat)) + "  "@
        + palette::opening_text(Paint::Dimmed) + "break-even · "@;
    let v = " MB per second"@ + palette::closing_text();
    assert(rule =~= u + rate_text + v);
    lemma_shows(u, rate_text, v);
}

proof fn lemma_in_front(
    front: Seq<Seq<char>>,
    own: Seq<Seq<char>>,
    all: Seq<Seq<char>>,
    k: int,
)
    requires
        (front + own).is_prefix_of(all),
        0 <= k < own.len(),
    ensures
        front.len() + k < all.len(),
        all[front.len() + k] == own[k],
{
    let near = front + own;
    assert(near == all.subrange(0, near.len() as int));
    assert(all[front.len() + k] == near[front.len() + k]);
}

/// The lines of a row, behind those of the rows in front of it.
#[verifier::rlimit(40)]
#[verifier::spinoff_prover]
proof fn lemma_row_stands(
    rows: Seq<DoomedView>,
    drawn: Seq<chart::Bars>,
    rate_text: Seq<char>,
    truecolor: bool,
    i: int,
    n: int,
    k: int,
)
    requires
        0 <= i < n,
        0 <= k < report::row_lines(rows, drawn, rate_text, truecolor, i).len(),
    ensures
        ({
            let front = report::chart_lines(rows, drawn, rate_text, truecolor, i);
            let all = report::chart_lines(rows, drawn, rate_text, truecolor, n);
            &&& front.len() + k < all.len()
            &&& all[front.len() + k] == report::row_lines(
                rows,
                drawn,
                rate_text,
                truecolor,
                i,
            )[k]
        }),
{
    lemma_chart_grows(rows, drawn, rate_text, truecolor, i + 1, n);
    let front = report::chart_lines(rows, drawn, rate_text, truecolor, i);
    let own = report::row_lines(rows, drawn, rate_text, truecolor, i);
    let all = report::chart_lines(rows, drawn, rate_text, truecolor, n);
    assert(report::chart_lines(rows, drawn, rate_text, truecolor, i + 1) == front + own);
    lemma_in_front(front, own, all, k);
}

/// The lines of the chart, behind those above it.
#[verifier::rlimit(40)]
#[verifier::spinoff_prover]
proof fn lemma_chart_stands(
    ps: Seq<ProjectView>,
    rate: u64,
    rate_text: Seq<char>,
    show_all: bool,
    truecolor: bool,
    k: int,
)
    requires
        deals::eligible(ps).len() > 0,
        ps.len() > 0,
        ({
            let drawn = deals::bars_of(deals::ranked(ps), rate, report::LEFT_FIELD);
            let shown = report::shown_rows(drawn, show_all) as int;
            0 <= k < report::chart_lines(
                deals::ranked(ps),
                drawn,
                rate_text,
                truecolor,
                shown,
            ).len()
        }),
    ensures
        ({
            let lines = report::report_lines(ps, rate, rate_text, show_all, truecolor);
            let drawn = deals::bars_of(deals::ranked(ps), rate, report::LEFT_FIELD);
            let shown = report::shown_rows(drawn, show_all) as int;
            &&& 4 + k < lines.len()
            &&& lines[4 + k] == report::chart_lines(
                deals::ranked(ps),
                drawn,
                rate_text,
                truecolor,
                shown,
            )[k]
        }),
{
    let rows = deals::ranked(ps);
    let drawn = deals::bars_of(rows, rate, report::LEFT_FIELD);
    let shown = report::shown_rows(drawn, show_all);
    let head = report::head_lines(rows, truecolor);
    assert(head.len() == 4);
    let all = report::chart_lines(rows, drawn, rate_text, truecolor, shown as int);
    let rest = report::rest_lines(rows, shown);
    let ranked = report::ranked_lines(ps, rate, rate_text, show_all, truecolor);
    assert(ranked == head + all + rest);
    assert(ranked[4 + k] == all[k]);
}

/// Where the first row that does not lean stands, and that it is shown.
#[verifier::rlimit(40)]
#[verifier::spinoff_prover]
proof fn lemma_cut(ps: Seq<ProjectView>, rate: u64, show_all: bool)
    requires
        deals::eligible(ps).len() <= usize::MAX,
        deals::worthwhile(deals::ranked(ps), rate, report::LEFT_FIELD) < deals::ranked(ps).len(),
    ensures
        ({
            let rows = deals::ranked(ps);
            let drawn = deals::bars_of(rows, rate, report::LEFT_FIELD);
            let cut = deals::worthwhile(rows, rate, report::LEFT_FIELD) as int;
            &&& deals::eligible(ps).len() > 0
            &&& 0 <= cut <= usize::MAX
            &&& chart::first_not_leaning(drawn, 0) == Some(cut as usize)
            &&& cut < report::shown_rows(drawn, show_all)
        }),
{
    let rows = deals::ranked(ps);
    deals::ranking_keeps_the_totals(ps);
    chart::lemma_first_not_leaning(deals::bars_of(rows, rate, report::LEFT_FIELD), 0);
}

/// A line of a row, in the report.
#[verifier::rlimit(40)]
#[verifier::spinoff_prover]
proof fn lemma_row_line_stands(
    ps: Seq<ProjectView>,
    rate: u64,
    rate_text: Seq<char>,
    show_all: bool,
    truecolor: bool,
    i: int,
    k: int,
)
    requires
        deals::eligible(ps).len() > 0,
        ps.len() > 0,
        ({
            let rows = deals::ranked(ps);
            let drawn = deals::bars_of(rows, rate, report::LEFT_FIELD);
            &&& 0 <= i < report::shown_rows(drawn, show_all)
            &&& 0 <= k < report::row_lines(rows, drawn, rate_text, truecolor, i).len()
        }),
    ensures
        ({
            let rows = deals::ranked(ps);
            let drawn = deals::bars_of(rows, rate, report::LEFT_FIELD);
            let at = 4 + report::chart_lines(rows, drawn, rate_text, truecolor, i).len();
            let line = report::row_lines(rows, drawn, rate_text, truecolor, i)[k];
            has_line(ps, rate, rate_text, show_all, truecolor, at + k, line)
        }),
{
    reveal(has_line);
    let rows = deals::ranked(ps);
    let drawn = deals::bars_of(rows, rate, report::LEFT_FIELD);
    let shown = report::shown_rows(drawn, show_all) as int;
    lemma_row_stands(rows, drawn, rate_text, truecolor, i, shown, k);
    let at = report::chart_lines(rows, drawn, rate_text, truecolor, i).len() as int;
    lemma_chart_stands(ps, rate, rate_text, show_all, truecolor, at + k);
}

/// What stands at the first row that does not lean.
#[verifier::rlimit(40)]
#[verifier::spinoff_prover]
proof fn lemma_rule_stands(
    ps: Seq<ProjectView>,
    rate: u64,
    rate_text: Seq<char>,
    show_all: bool,
    truecolor: bool,
) -> (j: int)
    requires
        deals::eligible(ps).len() <= usize::MAX,
        ps.len() > 0,
        deals::worthwhile(deals::ranked(ps), rate, report::LEFT_FIELD) < deals::ranked(ps).len(),
    ensures
        ({
            let rows = deals::ranked(ps);
            let drawn = deals::bars_of(rows, rate, report::LEFT_FIELD);
            let cut = deals::worthwhile(rows, rate, report::LEFT_FIELD) as int;
            let own = report::row_lines(rows, drawn, rate_text, truecolor, cut);
            &&& 0 < j
            &&& has_line(ps, rate, rate_text, show_all, truecolor, j - 1, own[0])
            &&& has_line(ps, rate, rate_text, show_all, truecolor, j, own[1])
            &&& has_line(ps, rate, rate_text, show_all, truecolor, j + 1, own[2])
        }),
{
    let rows = deals::ranked(ps);
    let drawn = deals::bars_of(rows, rate, report::LEFT_FIELD);
    let cut = deals::worthwhile(rows, rate, report::LEFT_FIELD) as int;
    lemma_cut(ps, rate, show_all);
    lemma_row_line_stands(ps, rate, rate_text, show_all, truecolor, cut, 0);
    lemma_row_line_stands(ps, rate, rate_text, show_all, truecolor, cut, 1);
    lemma_row_line_stands(ps, rate, rate_text, show_all, truecolor, cut, 2);
    let at = report::chart_lines(rows, drawn, rate_text, truecolor, cut).len() as int;
    4 + at + 1
}

/// The lines of the first row that does not lean.
#[verifier::rlimit(40)]
#[verifier::spinoff_prover]
proof fn lemma_ruled(
    lines: Seq<Seq<char>>,
    rows: Seq<DoomedView>,
    drawn: Seq<chart::Bars>,
    rate_text: Seq<char>,
    truecolor: bool,
    cut: int,
    j: int,
)
    requires
        0 < j < lines.len() - 1,
        0 <= cut <= usize::MAX,
        chart::first_not_leaning(drawn, 0) == Some(cut as usize),
        lines[j - 1] == report::row_lines(rows, drawn, rate_text, truecolor, cut)[0],
        lines[j] == report::row_lines(rows, drawn, rate_text, truecolor, cut)[1],
        lines[j + 1] == report::row_lines(rows, drawn, rate_text, truecolor, cut)[2],
    ensures
        shows(lines[j - 1], "┼"@),
        shows(lines[j - 1], rate_text),
        tells(lines, rows[cut].target, j),
{
    lemma_rule_text(rate_text, truecolor);
    let t = rows[cut].target;
    lemma_row_shows(drawn[cut], report::label_text(rows[cut].project, t), t, truecolor);
    lemma_restore_text(t);
}

/// The break-even rule stands directly in front of the first row whose bar on the left is
/// not the longer one, and names the rate.
#[verifier::rlimit(40)]
#[verifier::spinoff_prover]
pub proof fn the_rule_is_drawn_where_rows_stop_leaning(
    ps: Seq<ProjectView>,
    rate: u64,
    rate_text: Seq<char>,
    show_all: bool,
    truecolor: bool,
)
    requires
        deals::eligible(ps).len() <= usize::MAX,
        ps.len() > 0,
        deals::worthwhile(deals::ranked(ps), rate, report::LEFT_FIELD) < deals::ranked(ps).len(),
    ensures
        ({
            let lines = report::report_lines(ps, rate, rate_text, show_all, truecolor);
            let rows = deals::ranked(ps);
            let cut = deals::worthwhile(rows, rate, report::LEFT_FIELD);
            exists|j: int|
                0 < j < lines.len() && shows(#[trigger] lines[j - 1], "┼"@) && shows(
                    lines[j - 1],
                    rate_text,
                ) && tells(lines, rows[cut as int].target, j)
        }),
{
    let lines = report::report_lines(ps, rate, rate_text, show_all, truecolor);
    let rows = deals::ranked(ps);
    let drawn = deals::bars_of(rows, rate, report::LEFT_FIELD);
    let cut = deals::worthwhile(rows, rate, report::LEFT_FIELD) as int;
    lemma_cut(ps, rate, show_all);
    let j = lemma_rule_stands(ps, rate, rate_text, show_all, truecolor);
    reveal(has_line);
    lemma_ruled(lines, rows, drawn, rate_text, truecolor, cut, j);
}

proof fn lemma_chart_grows(
    rows: Seq<DoomedView>,
    drawn: Seq<chart::Bars>,
    rate_text: Seq<char>,
    truecolor: bool,
    n: int,
    m: int,
)
    requires
        0 <= n <= m,
    ensures
        report::chart_lines(rows, drawn, rate_text, truecolor, n).is_prefix_of(
            report::chart_lines(rows, drawn, rate_text, truecolor, m),
        ),
    decreases m - n,
{
    if n < m {
        lemma_chart_grows(rows, drawn, rate_text, truecolor, n, m - 1);
        let a = report::chart_lines(rows, drawn, rate_text, truecolor, n);
        let b = report::chart_lines(rows, drawn, rate_text, truecolor, m - 1);
        let c = report::chart_lines(rows, drawn, rate_text, truecolor, m);
        assert(a =~= c.subrange(0, a.len() as int)) by {
            assert(a =~= b.subrange(0, a.len() as int));
        }
    } else {
        let a = report::chart_lines(rows, drawn, rate_text, truecolor, n);
        assert(a =~= a.subrange(0, a.len() as int));
    }
}

#[verifier::rlimit(40)]
#[verifier::spinoff_prover]
proof fn lemma_held_heading(blocked: Seq<ProjectView>, truecolor: bool)
    requires
        blocked.len() > 0,
    ensures
        shows(report::held_lines(blocked, truecolor)[1], "Held back"@),
        shows(
            report::held_lines(blocked, truecolor)[1],
            figures::bytes_text(ranking::total(deals::project_bytes(blocked))),
        ),
{
    let b = figures::bytes_text(ranking::total(deals::project_bytes(blocked)));
    let p = palette::held_paint(truecolor);
    let x = "  "@ + palette::opening_text(p);
    let y = palette::closing_text() + " — "@ + b + " in repos with work that isn't backed up"@;
    let line = report::held_lines(blocked, truecolor)[1];
    assert(line =~= x + "Held back"@ + y);
    lemma_shows(x, "Held back"@, y);
    let u = "  "@ + palette::painted(p, "Held back"@) + " — "@;
    assert(line =~= u + b + " in repos with work that isn't backed up"@);
    lemma_shows(u, b, " in repos with work that isn't backed up"@);
}

/// What is held back is summed up, over every target of the projects that are.
#[verifier::rlimit(40)]
#[verifier::spinoff_prover]
pub proof fn what_is_held_back_is_summed_up(
    ps: Seq<ProjectView>,
    rate: u64,
    rate_text: Seq<char>,
    show_all: bool,
    truecolor: bool,
)
    requires
        deals::blocked(ps).len() > 0,
        ps.len() > 0,
    ensures
        ({
            let lines = report::report_lines(ps, rate, rate_text, show_all, truecolor);
            let held = ps.map_values(
                |p: ProjectView|
                    if p.git_state is Clean || p.git_state is NotARepo {
                        0nat
                    } else {
                        ranking::total(freed_of(p))
                    },
            );
            exists|j: int|
                0 <= j < lines.len() && shows(#[trigger] lines[j], "Held back"@) && shows(
                    lines[j],
                    figures::bytes_text(ranking::total(held)),
                )
        }),
{
    let blocked = deals::blocked(ps);
    lemma_held_total(ps);
    lemma_held_heading(blocked, truecolor);
    let j = lemma_held_stands(ps, rate, rate_text, show_all, truecolor, 1);
    reveal(has_line);
    let line = report::report_lines(ps, rate, rate_text, show_all, truecolor)[j];
    assert(line == report::held_lines(blocked, truecolor)[1]);
}

proof fn lemma_sum(ts: Seq<TargetView>)
    ensures
        scan::reclaimable_sum(ts) == ranking::total(
            ts.map_values(|t: TargetView| rates::freed(t) as nat),
        ),
    decreases ts.len(),
{
    let f = |t: TargetView| rates::freed(t) as nat;
    if ts.len() > 0 {
        lemma_sum(ts.drop_last());
        assert(ts.map_values(f).drop_last() =~= ts.drop_last().map_values(f));
    }
}

proof fn lemma_held_total(ps: Seq<ProjectView>)
    ensures
        ranking::total(deals::project_bytes(deals::blocked(ps))) == ranking::total(
            ps.map_values(
                |p: ProjectView|
                    if p.git_state is Clean || p.git_state is NotARepo {
                        0nat
                    } else {
                        ranking::total(freed_of(p))
                    },
            ),
        ),
    decreases ps.len(),
{
    let f = |p: ProjectView|
        if p.git_state is Clean || p.git_state is NotARepo {
            0nat
        } else {
            ranking::total(freed_of(p))
        };
    if ps.len() > 0 {
        let fewer = ps.drop_last();
        let p = ps.last();
        lemma_held_total(fewer);
        lemma_sum(p.targets);
        assert(ps.map_values(f).drop_last() =~= fewer.map_values(f));
        assert(ps.map_values(f).last() == f(p));
        let a = deals::project_bytes(deals::blocked(ps));
        if !(p.git_state is Clean || p.git_state is NotARepo) {
            assert(a.drop_last() =~= deals::project_bytes(deals::blocked(fewer)));
        }
    }
}

#[verifier::rlimit(40)]
#[verifier::spinoff_prover]
proof fn lemma_nothing_eligible_text()
    ensures
        shows(
            "  Nothing here is eligible to reclaim."@,
            "Nothing here is eligible to reclaim."@,
        ),
{
    reveal_strlit("  Nothing here is eligible to reclaim.");
    reveal_strlit("Nothing here is eligible to reclaim.");
    reveal_strlit("  ");
    let words = "Nothing here is eligible to reclaim."@;
    assert("  Nothing here is eligible to reclaim."@ =~= "  "@ + words + Seq::<char>::empty());
    lemma_shows("  "@, words, Seq::empty());
}

#[verifier::rlimit(40)]
#[verifier::spinoff_prover]
proof fn lemma_ending_text()
    ensures
        shows(report::ending_lines()[1], "Nothing has been touched."@),
{
    let whole = "Run with --reclaim to delete. Nothing has been touched."@;
    let words = "Nothing has been touched."@;
    assert(shows(whole, words)) by {
        reveal_strlit("Run with --reclaim to delete. Nothing has been touched.");
        reveal_strlit("Run with --reclaim to delete. ");
        reveal_strlit("Nothing has been touched.");
        let x = "Run with --reclaim to delete. "@;
        assert(whole =~= x + words + Seq::<char>::empty());
        lemma_shows(x, words, Seq::empty());
    }
    let a = "  "@ + palette::opening_text(Paint::Dimmed);
    assert(report::ending_lines()[1] =~= a + whole + palette::closing_text());
    lemma_still_shows(a, whole, palette::closing_text(), words);
}

/// A report on nothing says so, one without anything that can be acted on says so, and
/// every other ends with saying that nothing has been touched.
#[verifier::rlimit(40)]
#[verifier::spinoff_prover]
pub proof fn a_report_says_where_it_stands(
    ps: Seq<ProjectView>,
    rate: u64,
    rate_text: Seq<char>,
    show_all: bool,
    truecolor: bool,
)
    ensures
        ({
            let lines = report::report_lines(ps, rate, rate_text, show_all, truecolor);
            &&& ps.len() == 0 ==> lines == seq!["Nothing reclaimable found."@]
            &&& ps.len() > 0 && deals::eligible(ps).len() == 0 ==> lines.len() > 1 && shows(
                lines[1],
                "Nothing here is eligible to reclaim."@,
            )
            &&& deals::eligible(ps).len() > 0 ==> lines.len() > 0 && shows(
                lines.last(),
                "Nothing has been touched."@,
            )
        }),
{
    let lines = report::report_lines(ps, rate, rate_text, show_all, truecolor);
    lemma_nothing_eligible_text();
    lemma_ending_text();
    if deals::eligible(ps).len() > 0 {
        if ps.len() == 0 {
            assert(deals::eligible(ps).len() == 0);
        }
        assert(lines.last() == report::ending_lines()[1]);
    }
}

/// What of each project's targets does not come back.
pub open spec fn shared_in(p: ProjectView) -> Seq<nat> {
    p.targets.map_values(|t: TargetView| t.shared_bytes as nat)
}

/// How often something in each of a project's targets could not be read.
pub open spec fn unread_in(p: ProjectView) -> Seq<nat> {
    p.targets.map_values(|t: TargetView| t.unreadable as nat)
}

proof fn lemma_caveat_sums(ts: Seq<TargetView>)
    ensures
        scan::shared_sum(ts) == ranking::total(
            ts.map_values(|t: TargetView| t.shared_bytes as nat),
        ),
        scan::unreadable_sum(ts) == ranking::total(
            ts.map_values(|t: TargetView| t.unreadable as nat),
        ),
    decreases ts.len(),
{
    let f = |t: TargetView| t.shared_bytes as nat;
    let g = |t: TargetView| t.unreadable as nat;
    if ts.len() > 0 {
        lemma_caveat_sums(ts.drop_last());
        assert(ts.map_values(f).drop_last() =~= ts.drop_last().map_values(f));
        assert(ts.map_values(g).drop_last() =~= ts.drop_last().map_values(g));
    }
}

/// The caveats stand in the report.
#[verifier::rlimit(40)]
#[verifier::spinoff_prover]
proof fn lemma_caveats_stand(
    ps: Seq<ProjectView>,
    rate: u64,
    rate_text: Seq<char>,
    show_all: bool,
    truecolor: bool,
    k: int,
) -> (j: int)
    requires
        ps.len() > 0,
        deals::eligible(ps).len() > 0,
        0 <= k < report::caveat_lines(
            ranking::total(deals::project_shared(ps)),
            ranking::total(deals::project_unreadable(ps)),
        ).len(),
    ensures
        has_line(
            ps,
            rate,
            rate_text,
            show_all,
            truecolor,
            j,
            report::caveat_lines(
                ranking::total(deals::project_shared(ps)),
                ranking::total(deals::project_unreadable(ps)),
            )[k],
        ),
{
    reveal(has_line);
    let lines = report::report_lines(ps, rate, rate_text, show_all, truecolor);
    let ranked = report::ranked_lines(ps, rate, rate_text, show_all, truecolor);
    let caveats = report::caveat_lines(
        ranking::total(deals::project_shared(ps)),
        ranking::total(deals::project_unreadable(ps)),
    );
    let held = report::held_lines(deals::blocked(ps), truecolor);
    assert(lines == ranked + caveats + held + report::ending_lines());
    assert(lines[ranked.len() + k] == caveats[k]);
    ranked.len() + k
}

/// One of some lines shows some words.
pub open spec fn is_shown(lines: Seq<Seq<char>>, words: Seq<char>) -> bool {
    exists|j: int| 0 <= j < lines.len() && shows(#[trigger] lines[j], words)
}

/// Where some bytes do not come back, the report says how many, and where something could
/// not be read, it says how often: over every target of every project.
#[verifier::rlimit(40)]
#[verifier::spinoff_prover]
pub proof fn what_the_figures_leave_out_is_said(
    ps: Seq<ProjectView>,
    rate: u64,
    rate_text: Seq<char>,
    show_all: bool,
    truecolor: bool,
)
    requires
        deals::eligible(ps).len() > 0,
        ps.len() > 0,
        ranking::total(
            ps.map_values(|p: ProjectView| ranking::total(shared_in(p))),
        ) <= u64::MAX,
    ensures
        ({
            let lines = report::report_lines(ps, rate, rate_text, show_all, truecolor);
            let shared = ranking::total(
                ps.map_values(|p: ProjectView| ranking::total(shared_in(p))),
            );
            let unread = ranking::total(
                ps.map_values(|p: ProjectView| ranking::total(unread_in(p))),
            );
            &&& shared > 0 ==> is_shown(lines, figures::bytes_text(shared))
            &&& unread > 0 ==> is_shown(lines, text::decimal(unread))
        }),
{
    let fs = |p: ProjectView| ranking::total(shared_in(p));
    let fu = |p: ProjectView| ranking::total(unread_in(p));
    assert(deals::project_shared(ps) =~= ps.map_values(fs)) by {
        assert forall|i: int| 0 <= i < ps.len() implies deals::project_shared(ps)[i]
            == ps.map_values(fs)[i] by {
            lemma_caveat_sums(ps[i].targets);
        }
    }
    assert(deals::project_unreadable(ps) =~= ps.map_values(fu)) by {
        assert forall|i: int| 0 <= i < ps.len() implies deals::project_unreadable(ps)[i]
            == ps.map_values(fu)[i] by {
            lemma_caveat_sums(ps[i].targets);
        }
    }
    let shared = ranking::total(ps.map_values(fs));
    let unread = ranking::total(ps.map_values(fu));
    if shared > 0 {
        let k = lemma_shared_caveat(shared as u64, unread);
        let j = lemma_caveats_stand(ps, rate, rate_text, show_all, truecolor, k);
        lemma_line_is_shown(ps, rate, rate_text, show_all, truecolor, j, report::caveat_lines(
            shared,
            unread,
        )[k], figures::bytes_text(shared));
    }
    if unread > 0 {
        let k = lemma_unread_caveat(shared, unread);
        let j = lemma_caveats_stand(ps, rate, rate_text, show_all, truecolor, k);
        lemma_line_is_shown(ps, rate, rate_text, show_all, truecolor, j, report::caveat_lines(
            shared,
            unread,
        )[k], text::decimal(unread));
    }
}

#[verifier::rlimit(40)]
#[verifier::spinoff_prover]
proof fn lemma_line_is_shown(
    ps: Seq<ProjectView>,
    rate: u64,
    rate_text: Seq<char>,
    show_all: bool,
    truecolor: bool,
    j: int,
    line: Seq<char>,
    words: Seq<char>,
)
    requires
        has_line(ps, rate, rate_text, show_all, truecolor, j, line),
        shows(line, words),
    ensures
        is_shown(report::report_lines(ps, rate, rate_text, show_all, truecolor), words),
{
    reveal(has_line);
}

#[verifier::rlimit(40)]
#[verifier::spinoff_prover]
proof fn lemma_shared_caveat(shared: u64, unread: nat) -> (k: int)
    requires
        shared > 0,
    ensures
        0 <= k < report::caveat_lines(shared as nat, unread).len(),
        shows(
            report::caveat_lines(shared as nat, unread)[k],
            figures::bytes_text(shared as nat),
        ),
{
    prose::the_shared_are_summed_up(shared);
    let note = prose::note_lines(prose::shared_text(shared as nat));
    assert(report::caveat_lines(shared as nat, unread)[1] == note[0]);
    1
}

#[verifier::rlimit(40)]
#[verifier::spinoff_prover]
proof fn lemma_unread_caveat(shared: nat, unread: nat) -> (k: int)
    requires
        unread > 0,
    ensures
        0 <= k < report::caveat_lines(shared, unread).len(),
        shows(report::caveat_lines(shared, unread)[k], text::decimal(unread)),
{
    prose::the_unreadable_are_counted(unread);
    let note = prose::note_lines(prose::unreadable_text(unread));
    let front = if shared > 0 {
        prose::note_lines(prose::shared_text(shared)).len() as int
    } else {
        0
    };
    assert(report::caveat_lines(shared, unread)[1 + front] == note[0]);
    1 + front
}

} // verus!
