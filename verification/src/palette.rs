//! The "Verdigris" palette.
//!
//! Oxidised copper and brass. Three rules hold it together:
//!
//!   1. **Only accents are ever coloured.** No role sets a background, and what
//!      needs to recede is dimmed and not darkened.
//!   2. **Roles, not colours.** Callers ask for [`space_freed`], not for green.
//!   3. **Every role names its stand-in.** Terminals without truecolour get a
//!      deliberate choice out of the sixteen.
//!
//! Whether colour is emitted at all, and whether a terminal manages truecolour, is
//! for the caller to find out.
use crate::text;
use anstyle::{AnsiColor, RgbColor, Style};
use vstd::prelude::*;
use vstd::string::*;

verus! {

/// The stand-ins among the sixteen colours that every terminal has.
#[derive(Debug, Clone, Copy, PartialEq, Eq, Structural)]
pub enum Ansi {
    Red,
    Green,
    Yellow,
    White,
    BrightBlack,
}

/// A colour.
#[derive(Debug, Clone, Copy, PartialEq, Eq, Structural)]
pub enum Colour {
    Rgb(u8, u8, u8),
    Ansi(Ansi),
}

/// How a piece of text is set apart.
#[derive(Debug, Clone, Copy, PartialEq, Eq, Structural)]
pub enum Paint {
    /// In a foreground colour.
    Coloured(Colour),
    /// Dimmed, in whatever colour the terminal has.
    Dimmed,
}

/// The digits of a stand-in.
pub open spec fn ansi_code(a: Ansi) -> Seq<char> {
    match a {
        Ansi::Red => seq!['3', '1'],
        Ansi::Green => seq!['3', '2'],
        Ansi::Yellow => seq!['3', '3'],
        Ansi::White => seq!['3', '7'],
        Ansi::BrightBlack => seq!['9', '0'],
    }
}

/// An escape sequence that changes how text looks.
pub open spec fn escape(code: Seq<char>) -> Seq<char> {
    seq!['\u{1b}', '['] + code + seq!['m']
}

/// The code that starts a paint.
pub open spec fn opening_code(p: Paint) -> Seq<char> {
    match p {
        Paint::Coloured(Colour::Rgb(r, g, b)) => seq!['3', '8', ';', '2', ';'] + text::decimal(
            r as nat,
        ) + seq![';'] + text::decimal(g as nat) + seq![';'] + text::decimal(b as nat),
        Paint::Coloured(Colour::Ansi(a)) => ansi_code(a),
        Paint::Dimmed => seq!['2'],
    }
}

/// What starts a paint.
pub open spec fn opening_text(p: Paint) -> Seq<char> {
    escape(opening_code(p))
}

/// What ends every paint.
pub open spec fn closing_text() -> Seq<char> {
    escape(seq!['0'])
}

/// Text in a paint.
pub open spec fn painted(p: Paint, t: Seq<char>) -> Seq<char> {
    opening_text(p) + t + closing_text()
}

/// Displays an `anstyle::Style` with nothing but the paint set. A style displays as
/// the escape sequence of its effect or of its foreground colour: `2` for dimmed, a
/// two-digit code for one of the sixteen colours, and `38;2;` with the three
/// channels in decimal for truecolour.
#[verifier::external_body]
fn opening(p: Paint) -> (r: String)
    ensures
        r@ == opening_text(p),
{
    let style = match p {
        Paint::Coloured(Colour::Rgb(r, g, b)) => RgbColor(r, g, b).on_default(),
        Paint::Coloured(Colour::Ansi(Ansi::Red)) => AnsiColor::Red.on_default(),
        Paint::Coloured(Colour::Ansi(Ansi::Green)) => AnsiColor::Green.on_default(),
        Paint::Coloured(Colour::Ansi(Ansi::Yellow)) => AnsiColor::Yellow.on_default(),
        Paint::Coloured(Colour::Ansi(Ansi::White)) => AnsiColor::White.on_default(),
        Paint::Coloured(Colour::Ansi(Ansi::BrightBlack)) => AnsiColor::BrightBlack.on_default(),
        Paint::Dimmed => Style::new().dimmed(),
    };
    format!("{style}")
}

/// Displays an `anstyle::Style` with the alternate flag, which is the reset
/// sequence for every style that sets something. Every paint sets something, and
/// the sequence is the same for all of them.
#[verifier::external_body]
fn closing() -> (r: String)
    ensures
        r@ == closing_text(),
{
    let style = Style::new().dimmed();
    format!("{style:#}")
}

/// Starts a paint.
pub fn push_opening(out: &mut String, p: Paint)
    ensures
        final(out)@ == old(out)@ + opening_text(p),
{
    out.append(opening(p).as_str());
}

/// Ends a paint.
pub fn push_closing(out: &mut String)
    ensures
        final(out)@ == old(out)@ + closing_text(),
{
    out.append(closing().as_str());
}

/// Text in a paint.
pub fn push_painted(out: &mut String, p: Paint, t: &str)
    ensures
        final(out)@ == old(out)@ + painted(p, t@),
{
    push_opening(out, p);
    out.append(t);
    push_closing(out);
    assert(out@ =~= old(out)@ + painted(p, t@));
}

impl Paint {
    /// The foreground colour, if one is set.
    pub fn get_fg_color(&self) -> (r: Option<Colour>)
        ensures
            r == match *self {
                Paint::Coloured(c) => Some(c),
                Paint::Dimmed => None,
            },
    {
        match self {
            Paint::Coloured(c) => Some(*c),
            Paint::Dimmed => None,
        }
    }

    /// The background colour. No paint sets one.
    pub fn get_bg_color(&self) -> (r: Option<Colour>)
        ensures
            r is None,
    {
        None
    }
}

/// The colour of a role at either depth.
pub open spec fn role_paint(truecolor: bool, r: u8, g: u8, b: u8, fallback: Ansi) -> Paint {
    Paint::Coloured(
        if truecolor {
            Colour::Rgb(r, g, b)
        } else {
            Colour::Ansi(fallback)
        },
    )
}

fn role(truecolor: bool, r: u8, g: u8, b: u8, fallback: Ansi) -> (p: Paint)
    ensures
        p == role_paint(truecolor, r, g, b, fallback),
{
    if truecolor {
        Paint::Coloured(Colour::Rgb(r, g, b))
    } else {
        Paint::Coloured(Colour::Ansi(fallback))
    }
}

/// Verdigris.
pub open spec fn space_paint(truecolor: bool) -> Paint {
    role_paint(truecolor, 0x6E, 0x98, 0x87, Ansi::Green)
}

/// Brass.
pub open spec fn time_paint(truecolor: bool) -> Paint {
    role_paint(truecolor, 0xC6, 0x8B, 0x3C, Ansi::Yellow)
}

/// Rust.
pub open spec fn held_paint(truecolor: bool) -> Paint {
    role_paint(truecolor, 0x9E, 0x4A, 0x4A, Ansi::Red)
}

/// Slate.
pub open spec fn structure_paint(truecolor: bool) -> Paint {
    role_paint(truecolor, 0x5C, 0x63, 0x70, Ansi::BrightBlack)
}

/// Bone.
pub open spec fn emphasis_paint(truecolor: bool) -> Paint {
    role_paint(truecolor, 0xCF, 0xC8, 0xBA, Ansi::White)
}

/// Space that deletion would actually return. The reason to act.
pub fn space_freed(truecolor: bool) -> (p: Paint)
    ensures
        p == space_paint(truecolor),
{
    role(truecolor, 0x6E, 0x98, 0x87, Ansi::Green)
}

/// Time that rebuilding would take. The reason to hesitate.
pub fn time_cost(truecolor: bool) -> (p: Paint)
    ensures
        p == time_paint(truecolor),
{
    role(truecolor, 0xC6, 0x8B, 0x3C, Ansi::Yellow)
}

/// Work that isn't backed up, and so will not be touched.
pub fn held_back(truecolor: bool) -> (p: Paint)
    ensures
        p == held_paint(truecolor),
{
    role(truecolor, 0x9E, 0x4A, 0x4A, Ansi::Red)
}

/// Spine, rules, and anything that should recede.
pub fn structure(truecolor: bool) -> (p: Paint)
    ensures
        p == structure_paint(truecolor),
{
    role(truecolor, 0x5C, 0x63, 0x70, Ansi::BrightBlack)
}

/// Totals and the few figures worth landing on.
pub fn emphasis(truecolor: bool) -> (p: Paint)
    ensures
        p == emphasis_paint(truecolor),
{
    role(truecolor, 0xCF, 0xC8, 0xBA, Ansi::White)
}

/// Deliberately no colour, just weight. For secondary text.
pub fn dim() -> (p: Paint)
    ensures
        p == Paint::Dimmed,
{
    Paint::Dimmed
}

/// Space and time never look alike, at either depth.
pub proof fn the_two_quantities_differ(truecolor: bool)
    ensures
        space_paint(truecolor) != time_paint(truecolor),
{
}

/// Text up to and with the next `m`.
spec fn end_of_escape(s: Seq<char>) -> nat
    decreases s.len(),
{
    if s.len() == 0 {
        0
    } else if s[0] == 'm' {
        1
    } else {
        1 + end_of_escape(s.drop_first())
    }
}

proof fn lemma_end_of_escape(s: Seq<char>)
    ensures
        end_of_escape(s) <= s.len(),
        s.len() > 0 ==> end_of_escape(s) > 0,
    decreases s.len(),
{
    if s.len() > 0 && s[0] != 'm' {
        lemma_end_of_escape(s.drop_first());
    }
}

/// What a terminal shows of a text: everything but the escape sequences.
pub closed spec fn visible(s: Seq<char>) -> Seq<char>
    decreases s.len(),
{
    if s.len() == 0 {
        Seq::empty()
    } else if s[0] == '\u{1b}' {
        proof {
            lemma_end_of_escape(s);
        }
        visible(s.skip(end_of_escape(s) as int))
    } else {
        seq![s[0]] + visible(s.drop_first())
    }
}

/// Text without escape sequences.
pub open spec fn plain(s: Seq<char>) -> bool {
    !s.contains('\u{1b}')
}

/// Nothing shows of nothing.
pub proof fn nothing_shows()
    ensures
        visible(Seq::empty()) == Seq::<char>::empty(),
{
}

/// Plain text shows as it is, whatever follows.
pub proof fn plain_text_shows(a: Seq<char>, b: Seq<char>)
    requires
        plain(a),
    ensures
        visible(a + b) == a + visible(b),
    decreases a.len(),
{
    if a.len() == 0 {
        assert(a + b =~= b);
        assert(a + visible(b) =~= visible(b));
    } else {
        assert(a.contains(a[0]));
        assert((a + b).drop_first() =~= a.drop_first() + b);
        assert(plain(a.drop_first())) by {
            assert forall|i: int| 0 <= i < a.drop_first().len() implies a.drop_first()[i]
                != '\u{1b}' by {
                assert(a.drop_first()[i] == a[i + 1]);
                assert(a.contains(a[i + 1]));
            }
        }
        plain_text_shows(a.drop_first(), b);
        assert(a =~= seq![a[0]] + a.drop_first());
        assert(seq![a[0]] + (a.drop_first() + visible(b)) =~= a + visible(b));
    }
}

proof fn lemma_end_is(s: Seq<char>, n: int)
    requires
        0 <= n < s.len(),
        s[n] == 'm',
        forall|i: int| 0 <= i < n ==> s[i] != 'm',
    ensures
        end_of_escape(s) == n + 1,
    decreases n,
{
    if n > 0 {
        assert(s[0] != 'm');
        let t = s.drop_first();
        assert forall|i: int| 0 <= i < n - 1 implies t[i] != 'm' by {
            assert(t[i] == s[i + 1]);
        }
        lemma_end_is(t, n - 1);
    }
}

/// An escape sequence does not show, whatever follows.
pub proof fn escapes_do_not_show(code: Seq<char>, b: Seq<char>)
    requires
        !code.contains('m'),
    ensures
        visible(escape(code) + b) == visible(b),
{
    let s = escape(code) + b;
    assert forall|i: int| 0 <= i < code.len() + 2 implies s[i] != 'm' by {
        if i >= 2 {
            assert(s[i] == code[i - 2]);
            assert(code.contains(code[i - 2]));
        }
    }
    lemma_end_is(s, code.len() as int + 2);
    assert(s.skip(code.len() as int + 3) =~= b);
}

/// No more shows than there is.
pub proof fn no_more_shows_than_there_is(s: Seq<char>)
    ensures
        visible(s).len() <= s.len(),
    decreases s.len(),
{
    if s.len() > 0 {
        if s[0] == '\u{1b}' {
            lemma_end_of_escape(s);
            no_more_shows_than_there_is(s.skip(end_of_escape(s) as int));
        } else {
            no_more_shows_than_there_is(s.drop_first());
        }
    }
}

proof fn lemma_skipping_shows_less(s: Seq<char>)
    ensures
        visible(s.skip(end_of_escape(s) as int)).len() <= visible(s).len(),
    decreases s.len(),
{
    lemma_end_of_escape(s);
    if s.len() == 0 {
        assert(s.skip(0) =~= s);
    } else if s[0] == '\u{1b}' {
    } else if s[0] == 'm' {
        assert(s.skip(1) =~= s.drop_first());
    } else {
        let t = s.drop_first();
        lemma_end_of_escape(t);
        lemma_skipping_shows_less(t);
        assert(s.skip(1 + end_of_escape(t) as int) =~= t.skip(end_of_escape(t) as int));
    }
}

proof fn lemma_end_in_both(a: Seq<char>, b: Seq<char>)
    ensures
        a.contains('m') ==> end_of_escape(a + b) == end_of_escape(a),
        !a.contains('m') ==> end_of_escape(a) == a.len() && end_of_escape(a + b) == a.len()
            + end_of_escape(b),
    decreases a.len(),
{
    if a.len() == 0 {
        assert(a + b =~= b);
    } else {
        let t = a.drop_first();
        lemma_end_in_both(t, b);
        assert((a + b).drop_first() =~= t + b);
        assert(a[0] == 'm' || (a.contains('m') <==> t.contains('m'))) by {
            if a[0] != 'm' && a.contains('m') {
                let i = choose|i: int| 0 <= i < a.len() && a[i] == 'm';
                assert(t[i - 1] == 'm');
            }
            if t.contains('m') {
                let i = choose|i: int| 0 <= i < t.len() && t[i] == 'm';
                assert(a[i + 1] == 'm');
            }
        }
        if a[0] == 'm' {
            assert(a.contains('m'));
        } else {
            assert(!a.contains('m') ==> a[0] != 'm');
        }
    }
}

/// Of two texts one behind the other no more shows than of each.
pub proof fn both_show_no_more_than_each(a: Seq<char>, b: Seq<char>)
    ensures
        visible(a + b).len() <= visible(a).len() + visible(b).len(),
    decreases a.len(),
{
    let s = a + b;
    if a.len() == 0 {
        assert(s =~= b);
    } else if a[0] == '\u{1b}' {
        lemma_end_of_escape(a);
        lemma_end_of_escape(s);
        lemma_end_in_both(a, b);
        let n = end_of_escape(a) as int;
        if a.contains('m') {
            assert(s.skip(n) =~= a.skip(n) + b);
            both_show_no_more_than_each(a.skip(n), b);
        } else {
            lemma_end_of_escape(b);
            assert(s.skip((a.len() + end_of_escape(b)) as int) =~= b.skip(end_of_escape(b) as int));
            lemma_skipping_shows_less(b);
        }
    } else {
        assert(s.drop_first() =~= a.drop_first() + b);
        both_show_no_more_than_each(a.drop_first(), b);
    }
}

proof fn lemma_decimal_is_digits(n: nat)
    ensures
        !text::decimal(n).contains('m'),
        !text::decimal(n).contains('\u{1b}'),
    decreases n,
{
    text::decimals_are_digits(n);
    let d = text::decimal(n);
    assert forall|i: int| 0 <= i < d.len() implies d[i] != 'm' && d[i] != '\u{1b}' by {
        assert('0' as u32 <= d[i] as u32 <= '9' as u32);
    }
}

proof fn lemma_opening_ends_once(p: Paint)
    ensures
        !opening_code(p).contains('m'),
{
    if let Paint::Coloured(Colour::Rgb(r, g, b)) = p {
        lemma_decimal_is_digits(r as nat);
        lemma_decimal_is_digits(g as nat);
        lemma_decimal_is_digits(b as nat);
        let x = seq!['3', '8', ';', '2', ';'];
        let y = x + text::decimal(r as nat);
        let z = y + seq![';'];
        let u = z + text::decimal(g as nat);
        let v = u + seq![';'];
        lemma_neither_contains(x, text::decimal(r as nat));
        lemma_neither_contains(y, seq![';']);
        lemma_neither_contains(z, text::decimal(g as nat));
        lemma_neither_contains(u, seq![';']);
        lemma_neither_contains(v, text::decimal(b as nat));
    }
}

/// Painting a text does not change what shows of it.
pub proof fn painted_text_shows(p: Paint, t: Seq<char>, b: Seq<char>)
    requires
        plain(t),
    ensures
        visible(painted(p, t) + b) == t + visible(b),
{
    lemma_opening_ends_once(p);
    assert(painted(p, t) + b =~= opening_text(p) + (t + (closing_text() + b)));
    escapes_do_not_show(opening_code(p), t + (closing_text() + b));
    plain_text_shows(t, closing_text() + b);
    escapes_do_not_show(seq!['0'], b);
}

/// Starting a paint shows nothing.
pub proof fn openings_do_not_show(p: Paint, b: Seq<char>)
    ensures
        visible(opening_text(p) + b) == visible(b),
{
    lemma_opening_ends_once(p);
    escapes_do_not_show(opening_code(p), b);
}

/// Painting a text, whatever it is, makes no more of it show.
pub proof fn paint_adds_nothing(p: Paint, t: Seq<char>)
    ensures
        visible(painted(p, t)).len() <= visible(t).len(),
{
    assert(painted(p, t) =~= opening_text(p) + (t + closing_text()));
    openings_do_not_show(p, t + closing_text());
    both_show_no_more_than_each(t, closing_text());
    assert(closing_text() =~= escape(seq!['0']) + Seq::empty());
    escapes_do_not_show(seq!['0'], Seq::empty());
    nothing_shows();
}

proof fn lemma_neither_contains(a: Seq<char>, b: Seq<char>)
    requires
        !a.contains('m'),
        !b.contains('m'),
    ensures
        !(a + b).contains('m'),
{
    let s = a + b;
    assert forall|i: int| 0 <= i < s.len() implies s[i] != 'm' by {
        if i < a.len() {
            assert(a.contains(a[i]));
        } else {
            assert(b.contains(b[i - a.len()]));
        }
    }
}

} // verus!
