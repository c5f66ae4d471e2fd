//! The caveats of a report, and how prose is broken into lines.
use crate::binary64;
use crate::figures;
use crate::figures::bytes;
use crate::page;
use crate::palette;
use crate::palette::{dim, push_painted, Paint};
use crate::scan::TargetView;
use crate::text;
use crate::text::{push_decimal, split_words};
use vstd::prelude::*;
use vstd::string::*;

verus! {

/// The caveat on bytes that would not come back.
pub open spec fn shared_text(shared: nat) -> Seq<char> {
    figures::bytes_text(shared)
        + " of the apparent size is hard linked and would not come back — shared package stores, or one file counted under two names."@
}

/// Explains the gap between what directories look like and what removing them
/// gives back. Only where there is a gap.
pub fn shared_warning(shared: u64) -> (r: Option<String>)
    ensures
        r is Some <==> shared > 0,
        r matches Some(t) ==> t@ == shared_text(shared as nat),
{
    if shared > 0 {
        let mut r = bytes(shared);
        r.append(
            " of the apparent size is hard linked and would not come back — shared package stores, or one file counted under two names.",
        );
        Some(r)
    } else {
        None
    }
}

/// The caveat on what could not be read.
pub open spec fn unreadable_text(n: nat) -> Seq<char> {
    text::decimal(n) + " "@ + (if n == 1 {
        "entry"@
    } else {
        "entries"@
    }) + " could not be read. Sizes marked ~ are lower bounds."@
}

/// Explains every `~` in the output. Only where there is one.
pub fn lower_bound_warning(n: u32) -> (r: Option<String>)
    ensures
        r is Some <==> n > 0,
        r matches Some(t) ==> t@ == unreadable_text(n as nat),
{
    if n > 0 {
        let mut r = String::new();
        push_decimal(&mut r, n as u64);
        r.append(" ");
        if n == 1 {
            r.append("entry");
        } else {
            r.append("entries");
        }
        r.append(" could not be read. Sizes marked ~ are lower bounds.");
        assert(r@ =~= unreadable_text(n as nat));
        Some(r)
    } else {
        None
    }
}

/// Lines that start with `line` and go on with the words, each taking as many as
/// fit.
pub open spec fn filled(line: Seq<char>, words: Seq<Seq<char>>, width: nat) -> Seq<Seq<char>>
    decreases words.len(),
{
    if words.len() == 0 {
        if line.len() == 0 {
            Seq::empty()
        } else {
            seq![line]
        }
    } else if line.len() == 0 {
        filled(words[0], words.drop_first(), width)
    } else if line.len() + 1 + words[0].len() > width {
        seq![line] + filled(words[0], words.drop_first(), width)
    } else {
        filled(line.push(' ') + words[0], words.drop_first(), width)
    }
}

/// Text broken into lines.
pub open spec fn wrapped(t: Seq<char>, width: nat) -> Seq<Seq<char>> {
    filled(Seq::empty(), text::words(t), width)
}

/// Greedy word wrap. A word that is longer than a line has a line to itself.
pub fn wrap(t: &str, width: usize) -> (r: Vec<String>)
    ensures
        text::texts(r@) == wrapped(t@, width as nat),
{
    let words = split_words(t);
    let ghost all = text::texts(words@);
    let ghost whole = wrapped(t@, width as nat);
    let mut lines: Vec<String> = Vec::new();
    let mut line = String::new();
    let mut len: usize = 0;
    let mut i: usize = 0;
    assert(all.skip(0) =~= all);
    assert(line@ =~= Seq::<char>::empty());
    assert(text::texts(lines@) + whole =~= whole);
    while i < words.len()
        invariant
            i <= words@.len(),
            all == text::texts(words@),
            len == line@.len(),
            whole == text::texts(lines@) + filled(line@, all.skip(i as int), width as nat),
        decreases words@.len() - i,
    {
        let ghost before = text::texts(lines@);
        let ghost rest = all.skip(i as int);
        assert(rest[0] == words@[i as int]@);
        assert(rest.drop_first() =~= all.skip(i + 1));
        let word = &words[i];
        let n: usize = word.as_str().unicode_len();
        if len > 0 {
            let full = match len.checked_add(n) {
                Some(both) => both >= width,
                None => true,
            };
            if full {
                let mut done = String::new();
                std::mem::swap(&mut done, &mut line);
                let ghost d = done@;
                lines.push(done);
                assert(text::texts(lines@) =~= before.push(d));
                assert(before + (seq![d] + filled(rest[0], rest.drop_first(), width as nat))
                    =~= text::texts(lines@) + filled(rest[0], rest.drop_first(), width as nat));
                line = word.clone();
                len = n;
            } else {
                line.push(' ');
                line.append(word.as_str());
                len = len + 1 + n;
            }
        } else {
            line = word.clone();
            len = n;
        }
        i = i + 1;
    }
    let ghost before = text::texts(lines@);
    assert(all.skip(i as int) =~= Seq::<Seq<char>>::empty());
    if len > 0 {
        let ghost d = line@;
        lines.push(line);
        assert(text::texts(lines@) =~= before + seq![d]);
    } else {
        assert(before + Seq::<Seq<char>>::empty() =~= before);
    }
    lines
}

/// A line of a note: indented and dimmed.
pub open spec fn note_line(line: Seq<char>) -> Seq<char> {
    "  "@ + palette::painted(Paint::Dimmed, line)
}

/// A note as lines.
pub open spec fn note_lines(t: Seq<char>) -> Seq<Seq<char>> {
    wrapped(t, 76).map_values(|l: Seq<char>| note_line(l))
}

/// A wrapped, indented, dimmed note.
pub fn note(t: &str) -> (r: Vec<String>)
    ensures
        text::texts(r@) == note_lines(t@),
{
    let lines = wrap(t, 76);
    let mut r: Vec<String> = Vec::new();
    let mut i: usize = 0;
    while i < lines.len()
        invariant
            i <= lines@.len(),
            r@.len() == i,
            forall|k: int| 0 <= k < i ==> (#[trigger] r@[k])@ == note_line(lines@[k]@),
        decreases lines@.len() - i,
    {
        let mut s = String::new();
        s.append("  ");
        push_painted(&mut s, dim(), lines[i].as_str());
        assert(s@ =~= note_line(lines@[i as int]@));
        r.push(s);
        i = i + 1;
    }
    assert(text::texts(r@) =~= note_lines(t@)) by {
        assert forall|k: int| 0 <= k < r@.len() implies text::texts(r@)[k] == note_lines(t@)[k] by {
            assert(text::texts(lines@)[k] == lines@[k]@);
        }
    }
    r
}

proof fn lemma_filled_fits(line: Seq<char>, words: Seq<Seq<char>>, width: nat, k: int)
    requires
        0 <= k < filled(line, words, width).len(),
        forall|i: int| 0 <= i < words.len() ==> (#[trigger] words[i]).len() > 0,
        line.len() <= width || line.len() == 0 || !line.contains(' '),
        forall|i: int| 0 <= i < words.len() ==> !(#[trigger] words[i]).contains(' '),
    ensures
        ({
            let l = filled(line, words, width)[k];
            l.len() > 0 && (l.len() <= width || !l.contains(' '))
        }),
    decreases words.len(),
{
    if words.len() > 0 {
        let rest = words.drop_first();
        assert forall|i: int| 0 <= i < rest.len() implies (#[trigger] rest[i]).len() > 0
            && !rest[i].contains(' ') by {
            assert(rest[i] == words[i + 1]);
        }
        assert(words[0].len() > 0);
        if line.len() == 0 {
            lemma_filled_fits(words[0], rest, width, k);
        } else if line.len() + 1 + words[0].len() > width {
            if k > 0 {
                assert(filled(line, words, width)[k] == filled(words[0], rest, width)[k - 1]);
                lemma_filled_fits(words[0], rest, width, k - 1);
            }
        } else {
            lemma_filled_fits(line.push(' ') + words[0], rest, width, k);
        }
    }
}

/// A line never runs past the width, unless it is a single word that is longer
/// than that.
pub proof fn wrapped_lines_fit(t: Seq<char>, width: nat, k: int)
    requires
        0 <= k < wrapped(t, width).len(),
    ensures
        wrapped(t, width)[k].len() > 0,
        wrapped(t, width)[k].len() <= width || !wrapped(t, width)[k].contains(' '),
{
    text::words_are_solid(t);
    assert forall|i: int| 0 <= i < text::words(t).len() implies !(#[trigger] text::words(
        t,
    )[i]).contains(' ') by {
        let w = text::words(t)[i];
        assert forall|j: int| 0 <= j < w.len() implies w[j] != ' ' by {
            assert(!text::whitespace(w[j]));
        }
    }
    lemma_filled_fits(Seq::empty(), text::words(t), width, k);
}

proof fn lemma_joined_front(first: Seq<char>, rest: Seq<Seq<char>>, sep: Seq<char>)
    requires
        rest.len() > 0,
    ensures
        text::joined(seq![first] + rest, sep) == first + sep + text::joined(rest, sep),
    decreases rest.len(),
{
    let all = seq![first] + rest;
    if rest.len() == 1 {
        assert(all.drop_last() =~= seq![first]);
        assert(text::joined(all.drop_last(), sep) == first);
    } else {
        assert(all.drop_last() =~= seq![first] + rest.drop_last());
        lemma_joined_front(first, rest.drop_last(), sep);
        assert(first + sep + text::joined(rest.drop_last(), sep) + sep + rest.last() =~= first + sep
            + (text::joined(rest.drop_last(), sep) + sep + rest.last()));
    }
}

proof fn lemma_filled_keeps(line: Seq<char>, words: Seq<Seq<char>>, width: nat)
    requires
        line.len() > 0,
        forall|i: int| 0 <= i < words.len() ==> (#[trigger] words[i]).len() > 0,
    ensures
        filled(line, words, width).len() > 0,
        text::joined(filled(line, words, width), seq![' ']) == text::joined(
            seq![line] + words,
            seq![' '],
        ),
    decreases words.len(),
{
    let sep = seq![' '];
    if words.len() == 0 {
        assert(seq![line] + words =~= seq![line]);
    } else {
        let rest = words.drop_first();
        let w = words[0];
        assert forall|i: int| 0 <= i < rest.len() implies (#[trigger] rest[i]).len() > 0 by {
            assert(rest[i] == words[i + 1]);
        }
        assert(words =~= seq![w] + rest);
        lemma_joined_front(line, words, sep);
        if line.len() + 1 + w.len() > width {
            lemma_filled_keeps(w, rest, width);
            lemma_joined_front(line, filled(w, rest, width), sep);
        } else {
            let longer = line.push(' ') + w;
            lemma_filled_keeps(longer, rest, width);
            if rest.len() == 0 {
                assert(seq![longer] + rest =~= seq![longer]);
                assert(words =~= seq![w]);
                assert(longer =~= line + sep + w);
            } else {
                lemma_joined_front(longer, rest, sep);
                lemma_joined_front(w, rest, sep);
                assert(longer + sep + text::joined(rest, sep) =~= line + sep + (w + sep
                    + text::joined(rest, sep)));
            }
        }
    }
}

/// Wrapping neither drops a word nor repeats one nor changes their order.
pub proof fn wrapping_keeps_the_words(t: Seq<char>, width: nat)
    ensures
        text::joined(wrapped(t, width), seq![' ']) == text::joined(text::words(t), seq![' ']),
{
    text::words_are_solid(t);
    let ws = text::words(t);
    if ws.len() > 0 {
        let rest = ws.drop_first();
        assert(ws[0].len() > 0);
        assert forall|i: int| 0 <= i < rest.len() implies (#[trigger] rest[i]).len() > 0 by {
            assert(rest[i] == ws[i + 1]);
        }
        lemma_filled_keeps(ws[0], rest, width);
        assert(seq![ws[0]] + rest =~= ws);
    }
}

proof fn lemma_filled_starts(line: Seq<char>, words: Seq<Seq<char>>, width: nat)
    requires
        line.len() > 0,
    ensures
        filled(line, words, width).len() > 0,
        page::shows(filled(line, words, width)[0], line),
    decreases words.len(),
{
    let none = Seq::<char>::empty();
    page::lemma_shows(none, line, none);
    assert(none + line + none =~= line);
    if words.len() > 0 && line.len() + 1 + words[0].len() <= width {
        let longer = line.push(' ') + words[0];
        lemma_filled_starts(longer, words.drop_first(), width);
        page::lemma_shows(none, line, seq![' '] + words[0]);
        assert(none + line + (seq![' '] + words[0]) =~= longer);
        page::lemma_shows_through(
            filled(longer, words.drop_first(), width)[0],
            longer,
            line,
        );
    }
}

proof fn lemma_note_starts(word: Seq<char>, rest: Seq<char>)
    requires
        word.len() > 0,
        forall|i: int| 0 <= i < word.len() ==> !text::whitespace(#[trigger] word[i]),
    ensures
        note_lines(word.push(' ') + rest).len() > 0,
        page::shows(note_lines(word.push(' ') + rest)[0], word),
{
    let t = word.push(' ') + rest;
    text::words_of_both(word, rest);
    text::solid_text_is_a_word(word);
    let ws = text::words(t);
    assert(ws[0] == word);
    lemma_filled_starts(word, ws.drop_first(), 76);
    lemma_note_shows(wrapped(t, 76)[0], word);
    assert(note_lines(t)[0] == note_line(wrapped(t, 76)[0]));
}

proof fn lemma_note_shows(line: Seq<char>, words: Seq<char>)
    requires
        page::shows(line, words),
    ensures
        page::shows(note_line(line), words),
{
    let a = "  "@ + palette::opening_text(Paint::Dimmed);
    assert(note_line(line) =~= a + line + palette::closing_text());
    page::lemma_still_shows(a, line, palette::closing_text(), words);
}

proof fn lemma_figure_starts(number: Seq<char>, unit: Seq<char>, rest: Seq<char>)
    requires
        number.len() > 0,
        unit.len() > 0,
        number.len() + 1 + unit.len() <= 76,
        forall|i: int| 0 <= i < number.len() ==> !text::whitespace(#[trigger] number[i]),
        forall|i: int| 0 <= i < unit.len() ==> !text::whitespace(#[trigger] unit[i]),
    ensures
        note_lines(number.push(' ') + (unit.push(' ') + rest)).len() > 0,
        page::shows(
            note_lines(number.push(' ') + (unit.push(' ') + rest))[0],
            number.push(' ') + unit,
        ),
{
    let t = number.push(' ') + (unit.push(' ') + rest);
    text::words_of_both(number, unit.push(' ') + rest);
    text::words_of_both(unit, rest);
    text::solid_text_is_a_word(number);
    text::solid_text_is_a_word(unit);
    let ws = text::words(t);
    assert(ws[0] == number);
    assert(ws.drop_first()[0] == unit);
    let figure = number.push(' ') + unit;
    lemma_filled_starts(figure, ws.drop_first().drop_first(), 76);
    let first = wrapped(t, 76)[0];
    assert(wrapped(t, 76) == filled(number, ws.drop_first(), 76));
    assert(wrapped(t, 76) == filled(figure, ws.drop_first().drop_first(), 76));
    lemma_note_shows(first, figure);
    assert(note_lines(t)[0] == note_line(first));
}

/// The note on what could not be read begins with how many entries that are.
pub proof fn the_unreadable_are_counted(n: nat)
    ensures
        note_lines(unreadable_text(n)).len() > 0,
        page::shows(note_lines(unreadable_text(n))[0], text::decimal(n)),
{
    reveal_strlit(" ");
    text::decimals_are_digits(n);
    let d = text::decimal(n);
    let rest = (if n == 1 {
        "entry"@
    } else {
        "entries"@
    }) + " could not be read. Sizes marked ~ are lower bounds."@;
    assert(unreadable_text(n) =~= d.push(' ') + rest);
    lemma_note_starts(d, rest);
}

proof fn lemma_figure_parts(n: nat) -> (r: (Seq<char>, Seq<char>))
    ensures
        figures::bytes_text(n) == r.0.push(' ') + r.1,
        r.0.len() > 0,
        r.1.len() > 0,
        forall|i: int| 0 <= i < r.0.len() ==> !text::whitespace(#[trigger] r.0[i]),
        forall|i: int| 0 <= i < r.1.len() ==> !text::whitespace(#[trigger] r.1[i]),
{
    reveal_strlit(" ");
    reveal_strlit(".");
    reveal_strlit("B");
    reveal_strlit("KB");
    reveal_strlit("MB");
    reveal_strlit("GB");
    reveal_strlit("TB");
    let size = binary64::held(n);
    let i = figures::unit_of(size);
    let unit = figures::unit_name(i);
    let number = if i == 0 {
        text::decimal(n)
    } else {
        let tenths = binary64::nearest(10 * size, figures::unit_size(i));
        text::decimal(tenths / 10) + "."@ + text::decimal(tenths % 10)
    };
    let tenths = binary64::nearest(10 * size, figures::unit_size(i));
    text::decimals_are_digits(n);
    text::decimals_are_digits(tenths / 10);
    text::decimals_are_digits(tenths % 10);
    assert(figures::bytes_text(n) =~= number.push(' ') + unit);
    (number, unit)
}

/// The note on bytes that do not come back begins with how many that are.
pub proof fn the_shared_are_summed_up(shared: u64)
    ensures
        note_lines(shared_text(shared as nat)).len() > 0,
        page::shows(
            note_lines(shared_text(shared as nat))[0],
            figures::bytes_text(shared as nat),
        ),
{
    let t = TargetView {
        path: Seq::empty(),
        bytes: shared,
        shared_bytes: 0,
        unreadable: 0,
        rebuild_seconds: 0,
        restore_command: Seq::empty(),
    };
    figures::no_size_is_wider(t);
    let (number, unit) = lemma_figure_parts(shared as nat);
    let tail = "of the apparent size is hard linked and would not come back — shared package stores, or one file counted under two names."@;
    lemma_shared_tail();
    assert(shared_text(shared as nat) =~= number.push(' ') + (unit.push(' ') + tail));
    lemma_figure_starts(number, unit, tail);
}

proof fn lemma_shared_tail()
    ensures
        " of the apparent size is hard linked and would not come back — shared package stores, or one file counted under two names."@
            == seq![' ']
            + "of the apparent size is hard linked and would not come back — shared package stores, or one file counted under two names."@,
{
    reveal_strlit(
        " of the apparent size is hard linked and would not come back — shared package stores, or one file counted under two names.",
    );
    reveal_strlit(
        "of the apparent size is hard linked and would not come back — shared package stores, or one file counted under two names.",
    );
}

} // verus!
