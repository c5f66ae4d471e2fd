//! Text as the report and the interface need it: numbers, padding, trimming and
//! words, all counted in characters and never in bytes.
use vstd::prelude::*;
use vstd::string::*;

verus! {

/// `String::push`: the given character is appended and nothing else changes.
pub assume_specification[ String::push ](s: &mut String, c: char)
    ensures
        final(s)@ == old(s)@.push(c),
;

/// The same character `n` times.
pub open spec fn repeated(c: char, n: nat) -> Seq<char> {
    Seq::new(n, |i: int| c)
}

/// The character for a decimal digit.
pub open spec fn digit(d: nat) -> char {
    (48 + d) as char
}

/// The decimal notation of a number.
pub open spec fn decimal(n: nat) -> Seq<char>
    decreases n,
{
    if n < 10 {
        seq![digit(n)]
    } else {
        decimal(n / 10).push(digit(n % 10))
    }
}

/// A decimal number is made of digits, and there is one at least.
pub proof fn decimals_are_digits(n: nat)
    ensures
        decimal(n).len() > 0,
        forall|i: int|
            0 <= i < decimal(n).len() ==> '0' as u32 <= (#[trigger] decimal(n)[i]) as u32
                <= '9' as u32,
    decreases n,
{
    if n >= 10 {
        decimals_are_digits(n / 10);
    }
}


/// Ten to a power.
pub open spec fn power_of_ten(k: nat) -> nat
    decreases k,
{
    if k == 0 {
        1
    } else {
        10 * power_of_ten((k - 1) as nat)
    }
}

/// A number below a power of ten has at most that many digits.
pub proof fn lemma_decimal_len(n: nat, k: nat)
    requires
        k > 0,
        n < power_of_ten(k),
    ensures
        decimal(n).len() <= k,
    decreases k,
{
    if n >= 10 {
        if k == 1 {
            reveal_with_fuel(power_of_ten, 2);
        }
        lemma_decimal_len(n / 10, (k - 1) as nat);
    }
}

/// Appends one character `n` times.
pub fn push_repeated(out: &mut String, c: char, n: usize)
    ensures
        final(out)@ == old(out)@ + repeated(c, n as nat),
{
    let mut i: usize = 0;
    while i < n
        invariant
            i <= n,
            out@ == old(out)@ + repeated(c, i as nat),
        decreases n - i,
    {
        out.push(c);
        i = i + 1;
        assert(out@ =~= old(out)@ + repeated(c, i as nat));
    }
    assert(out@ =~= old(out)@ + repeated(c, n as nat));
}

/// Appends a number in decimal.
pub fn push_decimal(out: &mut String, n: u64)
    ensures
        final(out)@ == old(out)@ + decimal(n as nat),
    decreases n,
{
    if n >= 10 {
        push_decimal(out, n / 10);
    }
    let d: u8 = (n % 10) as u8;
    out.push((48u8 + d) as char);
    assert(out@ =~= old(out)@ + decimal(n as nat));
}

/// The views of a list of strings.
pub open spec fn texts(v: Seq<String>) -> Seq<Seq<char>> {
    v.map_values(|s: String| s@)
}

/// Parts with a separator between each two neighbours.
pub open spec fn joined(parts: Seq<Seq<char>>, sep: Seq<char>) -> Seq<char>
    decreases parts.len(),
{
    if parts.len() == 0 {
        Seq::empty()
    } else if parts.len() == 1 {
        parts[0]
    } else {
        joined(parts.drop_last(), sep) + sep + parts.last()
    }
}

/// Text padded on the right with spaces up to `width` characters.
pub open spec fn left_aligned(s: Seq<char>, width: nat) -> Seq<char> {
    s + repeated(' ', if s.len() < width { (width - s.len()) as nat } else { 0 })
}

/// Text padded on the left with spaces up to `width` characters.
pub open spec fn right_aligned(s: Seq<char>, width: nat) -> Seq<char> {
    repeated(' ', if s.len() < width { (width - s.len()) as nat } else { 0 }) + s
}

/// The first `n` characters, or all of them where there are fewer.
pub open spec fn clipped(s: Seq<char>, n: nat) -> Seq<char> {
    if s.len() <= n {
        s
    } else {
        s.take(n as int)
    }
}

/// The characters that Unicode gives the property `White_Space`.
pub open spec fn whitespace(c: char) -> bool {
    let u = c as u32;
    ||| 0x9 <= u <= 0xD
    ||| u == 0x20
    ||| u == 0x85
    ||| u == 0xA0
    ||| u == 0x1680
    ||| 0x2000 <= u <= 0x200A
    ||| u == 0x2028
    ||| u == 0x2029
    ||| u == 0x202F
    ||| u == 0x205F
    ||| u == 0x3000
}

/// Nothing but whitespace, or nothing at all.
pub open spec fn blank(s: Seq<char>) -> bool {
    forall|i: int| 0 <= i < s.len() ==> whitespace(#[trigger] s[i])
}

/// Text without its leading whitespace.
pub open spec fn trimmed_start(s: Seq<char>) -> Seq<char>
    decreases s.len(),
{
    if s.len() > 0 && whitespace(s[0]) {
        trimmed_start(s.drop_first())
    } else {
        s
    }
}

/// Text without its trailing whitespace.
pub open spec fn trimmed_end(s: Seq<char>) -> Seq<char>
    decreases s.len(),
{
    if s.len() > 0 && whitespace(s.last()) {
        trimmed_end(s.drop_last())
    } else {
        s
    }
}

/// Text without the whitespace on either side.
pub open spec fn trimmed(s: Seq<char>) -> Seq<char> {
    trimmed_end(trimmed_start(s))
}

/// The maximal runs of characters that are not whitespace, in order.
pub open spec fn words(s: Seq<char>) -> Seq<Seq<char>>
    decreases s.len(),
{
    if s.len() == 0 {
        Seq::empty()
    } else if whitespace(s.last()) {
        words(s.drop_last())
    } else if s.len() == 1 || whitespace(s[s.len() - 2]) {
        words(s.drop_last()).push(seq![s.last()])
    } else {
        let before = words(s.drop_last());
        before.drop_last().push(before.last().push(s.last()))
    }
}

/// The characters of a string, so that they can be reached by index.
pub fn chars_of(s: &str) -> (r: Vec<char>)
    ensures
        r@ == s@,
{
    let mut r: Vec<char> = Vec::new();
    for c in it: s.chars()
        invariant
            r@ == s@.take(it.index()),
            it.seq() == s@,
    {
        r.push(c);
        assert(s@.take(it.index() + 1) =~= s@.take(it.index()).push(c));
    }
    assert(s@.take(s@.len() as int) =~= s@);
    r
}

/// The string made of `v[from..to]`.
pub fn text_of(v: &Vec<char>, from: usize, to: usize) -> (r: String)
    requires
        from <= to <= v@.len(),
    ensures
        r@ == v@.subrange(from as int, to as int),
{
    let mut r = String::new();
    let mut i: usize = from;
    while i < to
        invariant
            from <= i <= to <= v@.len(),
            r@ == v@.subrange(from as int, i as int),
        decreases to - i,
    {
        r.push(v[i]);
        i = i + 1;
        assert(r@ =~= v@.subrange(from as int, i as int));
    }
    r
}

/// Appends text padded on the right up to `width` characters.
pub fn push_left_aligned(out: &mut String, s: &str, width: usize)
    ensures
        final(out)@ == old(out)@ + left_aligned(s@, width as nat),
{
    let n = s.unicode_len();
    out.append(s);
    if n < width {
        push_repeated(out, ' ', width - n);
    }
    assert(out@ =~= old(out)@ + left_aligned(s@, width as nat));
}

/// Appends text padded on the left up to `width` characters.
pub fn push_right_aligned(out: &mut String, s: &str, width: usize)
    ensures
        final(out)@ == old(out)@ + right_aligned(s@, width as nat),
{
    let n = s.unicode_len();
    if n < width {
        push_repeated(out, ' ', width - n);
    }
    out.append(s);
    assert(out@ =~= old(out)@ + right_aligned(s@, width as nat));
}

/// Appends at most the first `n` characters.
pub fn push_clipped(out: &mut String, s: &str, n: usize)
    ensures
        final(out)@ == old(out)@ + clipped(s@, n as nat),
{
    let v = chars_of(s);
    let m: usize = if v.len() <= n { v.len() } else { n };
    let head = text_of(&v, 0, m);
    out.append(head.as_str());
    assert(head@ =~= clipped(s@, n as nat));
}

/// The parts with a separator between each two neighbours.
pub fn join(parts: &Vec<String>, sep: &str) -> (r: String)
    ensures
        r@ == joined(texts(parts@), sep@),
{
    let mut r = String::new();
    let ghost all = texts(parts@);
    let mut i: usize = 0;
    while i < parts.len()
        invariant
            i <= parts@.len(),
            all == texts(parts@),
            r@ == joined(all.take(i as int), sep@),
        decreases parts@.len() - i,
    {
        if i > 0 {
            r.append(sep);
        }
        r.append(parts[i].as_str());
        proof {
            let longer = all.take(i + 1);
            assert(longer.drop_last() =~= all.take(i as int));
            assert(longer.last() == parts@[i as int]@);
            if i > 0 {
                assert(r@ =~= joined(longer, sep@));
            } else {
                assert(joined(all.take(0), sep@) =~= Seq::<char>::empty());
                assert(r@ =~= longer[0]);
            }
        }
        i = i + 1;
    }
    assert(all.take(all.len() as int) =~= all);
    r
}

/// Whether a character has the Unicode property `White_Space`.
pub fn is_whitespace(c: char) -> (r: bool)
    ensures
        r == whitespace(c),
{
    let u: u32 = c as u32;
    (0x9 <= u && u <= 0xD) || u == 0x20 || u == 0x85 || u == 0xA0 || u == 0x1680 || (0x2000 <= u
        && u <= 0x200A) || u == 0x2028 || u == 0x2029 || u == 0x202F || u == 0x205F || u == 0x3000
}

/// Whether text holds nothing but whitespace.
pub fn is_blank(s: &str) -> (r: bool)
    ensures
        r == blank(s@),
{
    let v = chars_of(s);
    let mut i: usize = 0;
    while i < v.len()
        invariant
            i <= v@.len(),
            v@ == s@,
            forall|k: int| 0 <= k < i ==> whitespace(#[trigger] v@[k]),
        decreases v@.len() - i,
    {
        if !is_whitespace(v[i]) {
            assert(!whitespace(s@[i as int]));
            return false;
        }
        i = i + 1;
    }
    true
}

proof fn lemma_trimmed_start_skips(s: Seq<char>, n: int)
    requires
        0 <= n <= s.len(),
        forall|k: int| 0 <= k < n ==> whitespace(#[trigger] s[k]),
    ensures
        trimmed_start(s) == trimmed_start(s.skip(n)),
    decreases n,
{
    if n > 0 {
        assert forall|k: int| 0 <= k < n - 1 implies whitespace(#[trigger] s.drop_first()[k]) by {
            assert(s.drop_first()[k] == s[k + 1]);
        }
        assert(whitespace(s[0]));
        lemma_trimmed_start_skips(s.drop_first(), n - 1);
        assert(s.drop_first().skip(n - 1) =~= s.skip(n));
    } else {
        assert(s.skip(0) =~= s);
    }
}

proof fn lemma_trimmed_end_skips(s: Seq<char>, n: int)
    requires
        0 <= n <= s.len(),
        forall|k: int| n <= k < s.len() ==> whitespace(#[trigger] s[k]),
    ensures
        trimmed_end(s) == trimmed_end(s.take(n)),
    decreases s.len() - n,
{
    if n < s.len() {
        assert forall|k: int| n <= k < s.drop_last().len() implies whitespace(
            #[trigger] s.drop_last()[k],
        ) by {
            assert(s.drop_last()[k] == s[k]);
        }
        assert(whitespace(s[s.len() - 1]));
        lemma_trimmed_end_skips(s.drop_last(), n);
        assert(s.drop_last().take(n) =~= s.take(n));
    } else {
        assert(s.take(n) =~= s);
    }
}

/// Text without the whitespace on either side.
pub fn trim(s: &str) -> (r: String)
    ensures
        r@ == trimmed(s@),
{
    let v = chars_of(s);
    let mut from: usize = 0;
    while from < v.len() && is_whitespace(v[from])
        invariant
            from <= v@.len(),
            forall|k: int| 0 <= k < from ==> whitespace(#[trigger] v@[k]),
        decreases v@.len() - from,
    {
        from = from + 1;
    }
    let mut to: usize = v.len();
    while to > from && is_whitespace(v[to - 1])
        invariant
            from <= to <= v@.len(),
            forall|k: int| to <= k < v@.len() ==> whitespace(#[trigger] v@[k]),
        decreases to,
    {
        to = to - 1;
    }
    proof {
        lemma_trimmed_start_skips(s@, from as int);
        let rest = s@.skip(from as int);
        if from < v@.len() {
            assert(rest[0] == v@[from as int]);
        }
        assert(trimmed_start(s@) == rest);
        assert forall|k: int| to - from <= k < rest.len() implies whitespace(#[trigger] rest[k]) by {
            assert(rest[k] == v@[k + from]);
        }
        lemma_trimmed_end_skips(rest, to - from);
        let core = rest.take(to - from);
        if core.len() > 0 {
            assert(core.last() == v@[to - 1]);
        }
        assert(core =~= v@.subrange(from as int, to as int));
    }
    text_of(&v, from, to)
}

/// Text is blank exactly when trimming leaves nothing.
pub proof fn blank_means_trims_to_nothing(s: Seq<char>)
    ensures
        blank(s) <==> trimmed(s).len() == 0,
    decreases s.len(),
{
    if s.len() == 0 {
    } else if whitespace(s[0]) {
        blank_means_trims_to_nothing(s.drop_first());
        assert(blank(s) <==> blank(s.drop_first())) by {
            if blank(s.drop_first()) {
                assert forall|i: int| 0 <= i < s.len() implies whitespace(#[trigger] s[i]) by {
                    if i > 0 {
                        assert(whitespace(s.drop_first()[i - 1]));
                    }
                }
            }
            if blank(s) {
                assert forall|i: int| 0 <= i < s.drop_first().len() implies whitespace(
                    #[trigger] s.drop_first()[i],
                ) by {
                    assert(whitespace(s[i + 1]));
                }
            }
        }
    } else {
        lemma_trimmed_end_keeps_head(s);
        assert(!whitespace(s[0]));
    }
}

proof fn lemma_trimmed_end_keeps_head(s: Seq<char>)
    requires
        s.len() > 0,
        !whitespace(s[0]),
    ensures
        trimmed_end(s).len() > 0,
    decreases s.len(),
{
    if whitespace(s.last()) {
        assert(s.len() > 1);
        lemma_trimmed_end_keeps_head(s.drop_last());
    }
}

/// The words of a text.
pub fn split_words(s: &str) -> (r: Vec<String>)
    ensures
        texts(r@) == words(s@),
{
    let v = chars_of(s);
    let mut done: Vec<String> = Vec::new();
    let mut start: usize = 0;
    let mut i: usize = 0;
    while i < v.len()
        invariant
            start <= i <= v@.len(),
            v@ == s@,
            start < i ==> !whitespace(v@[i - 1]),
            start == i ==> i == 0 || whitespace(v@[i - 1]),
            words(v@.take(i as int)) == if start < i {
                texts(done@).push(v@.subrange(start as int, i as int))
            } else {
                texts(done@)
            },
        decreases v@.len() - i,
    {
        let ghost before = texts(done@);
        let c = v[i];
        proof {
            let longer = v@.take(i + 1);
            assert(longer.drop_last() =~= v@.take(i as int));
            assert(longer.last() == c);
            if i > 0 {
                assert(longer[longer.len() - 2] == v@[i - 1]);
            }
        }
        if is_whitespace(c) {
            if start < i {
                done.push(text_of(&v, start, i));
                assert(texts(done@) =~= before.push(v@.subrange(start as int, i as int)));
            }
            start = i + 1;
        } else {
            proof {
                if start < i {
                    let w = v@.subrange(start as int, i as int);
                    assert(before.push(w).drop_last() =~= before);
                    assert(w.push(c) =~= v@.subrange(start as int, i + 1));
                } else {
                    assert(seq![c] =~= v@.subrange(start as int, i + 1));
                }
            }
        }
        i = i + 1;
    }
    assert(v@.take(i as int) =~= s@);
    let ghost before = texts(done@);
    if start < i {
        done.push(text_of(&v, start, i));
        assert(texts(done@) =~= before.push(v@.subrange(start as int, i as int)));
    }
    done
}

/// A word is not empty and holds no white space.
pub proof fn words_are_solid(s: Seq<char>)
    ensures
        s.len() > 0 && !whitespace(s.last()) ==> words(s).len() > 0,
        forall|i: int| 0 <= i < words(s).len() ==> (#[trigger] words(s)[i]).len() > 0,
        forall|i: int, j: int|
            0 <= i < words(s).len() && 0 <= j < words(s)[i].len() ==> !whitespace(
                #[trigger] words(s)[i][j],
            ),
    decreases s.len(),
{
    if s.len() > 0 {
        words_are_solid(s.drop_last());
        let before = words(s.drop_last());
        assert forall|i: int, j: int|
            0 <= i < words(s).len() && 0 <= j < words(s)[i].len() implies !whitespace(
            #[trigger] words(s)[i][j],
        ) by {
            if i < before.len() {
                if 0 <= j < before[i].len() {
                    assert(!whitespace(before[i][j]));
                }
            }
        }
        assert forall|i: int| 0 <= i < words(s).len() implies (#[trigger] words(s)[i]).len() > 0 by {
            if i < before.len() {
                assert(before[i].len() > 0);
            }
        }
    }
}

/// Aligning a text adds nothing but spaces.
pub proof fn lemma_alignment(s: Seq<char>, width: nat)
    ensures
        forall|c: char| #![auto]
            c != ' ' && !s.contains(c) ==> !left_aligned(s, width).contains(c) && !right_aligned(
                s,
                width,
            ).contains(c),
{
    assert forall|c: char| c != ' ' && !s.contains(c) implies !(#[trigger] left_aligned(
        s,
        width,
    ).contains(c)) && !right_aligned(s, width).contains(c) by {
        let l = left_aligned(s, width);
        let r = right_aligned(s, width);
        assert forall|i: int| 0 <= i < l.len() implies l[i] != c by {
            if i < s.len() {
                assert(s.contains(s[i]));
            }
        }
        assert forall|i: int| 0 <= i < r.len() implies r[i] != c by {
            let pad = r.len() - s.len();
            if i >= pad {
                assert(s.contains(s[i - pad]));
            }
        }
    }
}

/// Adds one line to a list.
pub fn push_line(out: &mut Vec<String>, line: String)
    ensures
        texts(final(out)@) == texts(old(out)@).push(line@),
{
    out.push(line);
    assert(texts(out@) =~= texts(old(out)@).push(line@));
}

/// Adds lines to a list.
pub fn push_lines(out: &mut Vec<String>, lines: Vec<String>)
    ensures
        texts(final(out)@) == texts(old(out)@) + texts(lines@),
{
    let ghost all = lines@;
    assert(texts(out@) =~= texts(old(out)@) + texts(all.take(0)));
    for line in it: lines
        invariant
            it.seq() == all,
            texts(out@) == texts(old(out)@) + texts(all.take(it.index())),
    {
        proof {
            let i = it.index() as int;
            assert(all.take(i + 1) =~= all.take(i).push(line));
            assert(texts(all.take(i + 1)) =~= texts(all.take(i)).push(line@));
            assert(texts(old(out)@) + texts(all.take(i + 1)) =~= (texts(old(out)@) + texts(
                all.take(i),
            )).push(line@));
        }
        push_line(out, line);
    }
    assert(all.take(all.len() as int) =~= all);
}

/// Appending five texts one by one appends them together.
pub proof fn lemma_five_appended(
    o: Seq<char>,
    a: Seq<char>,
    b: Seq<char>,
    c: Seq<char>,
    d: Seq<char>,
    e: Seq<char>,
)
    ensures
        o + a + b + c + d + e == o + (a + b + c + d + e),
{
    assert(o + a + b + c + d + e =~= o + (a + b + c + d + e));
}

/// Appending eight texts one by one appends them together.
pub proof fn lemma_eight_appended(
    o: Seq<char>,
    a: Seq<char>,
    b: Seq<char>,
    c: Seq<char>,
    d: Seq<char>,
    e: Seq<char>,
    f: Seq<char>,
    g: Seq<char>,
    h: Seq<char>,
)
    ensures
        o + a + b + c + d + e + f + g + h == o + (a + b + c + d + e + f + g + h),
{
    let five = a + b + c + d + e;
    lemma_five_appended(o, a, b, c, d, e);
    assert((o + five) + f + g + h =~= o + (five + f + g + h));
}

/// The number that some digits stand for.
pub open spec fn read_back(s: Seq<char>) -> int
    decreases s.len(),
{
    if s.len() == 0 {
        0
    } else {
        10 * read_back(s.drop_last()) + (s.last() as u32 - '0' as u32)
    }
}

/// Reading a decimal number back gives the number, and no zero stands in front of it.
pub proof fn decimals_can_be_read_back(n: nat)
    ensures
        read_back(decimal(n)) == n,
        n > 0 ==> decimal(n)[0] != '0',
    decreases n,
{
    if n < 10 {
        let s = decimal(n);
        assert(s.drop_last() =~= Seq::<char>::empty());
        assert(read_back(s.drop_last()) == 0);
        assert(s.last() as u32 == 48 + n);
    } else {
        decimals_can_be_read_back(n / 10);
        decimals_are_digits(n / 10);
        let s = decimal(n);
        assert(s.drop_last() =~= decimal(n / 10));
        assert(s.last() as u32 == 48 + n % 10);
        assert(s[0] == decimal(n / 10)[0]);
    }
}

/// A character that can be seen in any font: a letter, a digit or a sign.
pub open spec fn visible(c: char) -> bool {
    '!' as u32 <= c as u32 <= '~' as u32
}

/// A space, or a character that ends a line or moves to the next column.
pub open spec fn spacing(c: char) -> bool {
    c == ' ' || c == '\n' || c == '\r' || c == '\t'
}

/// Text in which something can be seen is not blank; text of spaces and line ends is.
pub proof fn what_can_be_seen_is_not_blank(s: Seq<char>)
    ensures
        (exists|i: int| 0 <= i < s.len() && visible(#[trigger] s[i])) ==> !blank(s),
        (forall|i: int| 0 <= i < s.len() ==> spacing(#[trigger] s[i])) ==> blank(s),
{
}

proof fn lemma_trimmed_start(a: Seq<char>, w: Seq<char>)
    requires
        forall|i: int| 0 <= i < a.len() ==> spacing(#[trigger] a[i]),
        w.len() > 0 ==> visible(w[0]),
    ensures
        trimmed_start(a + w) == w,
    decreases a.len(),
{
    let s = a + w;
    if a.len() == 0 {
        assert(s =~= w);
    } else {
        assert(s[0] == a[0]);
        assert(s.drop_first() =~= a.drop_first() + w);
        lemma_trimmed_start(a.drop_first(), w);
    }
}

proof fn lemma_trimmed_end(w: Seq<char>, b: Seq<char>)
    requires
        forall|i: int| 0 <= i < b.len() ==> spacing(#[trigger] b[i]),
        w.len() > 0 ==> visible(w.last()),
    ensures
        trimmed_end(w + b) == w,
    decreases b.len(),
{
    let s = w + b;
    if b.len() == 0 {
        assert(s =~= w);
    } else {
        assert(s.last() == b.last());
        assert(s.drop_last() =~= w + b.drop_last());
        lemma_trimmed_end(w, b.drop_last());
    }
}

/// Trimming takes the spaces and line ends off both sides of what can be seen, and
/// nothing else.
pub proof fn trimming_keeps_what_can_be_seen(a: Seq<char>, w: Seq<char>, b: Seq<char>)
    requires
        forall|i: int| 0 <= i < a.len() ==> spacing(#[trigger] a[i]),
        forall|i: int| 0 <= i < b.len() ==> spacing(#[trigger] b[i]),
        w.len() > 0,
        visible(w[0]),
        visible(w.last()),
    ensures
        trimmed(a + w + b) == w,
{
    assert(a + w + b =~= a + (w + b));
    assert((w + b)[0] == w[0]);
    lemma_trimmed_start(a, w + b);
    lemma_trimmed_end(w, b);
}

proof fn lemma_start_is_cut(s: Seq<char>) -> (k: int)
    ensures
        0 <= k <= s.len(),
        trimmed_start(s) == s.skip(k),
        forall|i: int| 0 <= i < k ==> !visible(#[trigger] s[i]),
    decreases s.len(),
{
    if s.len() > 0 && whitespace(s[0]) {
        let k = lemma_start_is_cut(s.drop_first());
        assert(s.drop_first().skip(k) =~= s.skip(k + 1));
        assert forall|i: int| 0 <= i < k + 1 implies !visible(#[trigger] s[i]) by {
            if i > 0 {
                assert(s.drop_first()[i - 1] == s[i]);
            }
        }
        k + 1
    } else {
        assert(s.skip(0) =~= s);
        0
    }
}

proof fn lemma_end_is_cut(s: Seq<char>) -> (k: int)
    ensures
        0 <= k <= s.len(),
        trimmed_end(s) == s.take(k),
        forall|i: int| k <= i < s.len() ==> !visible(#[trigger] s[i]),
    decreases s.len(),
{
    if s.len() > 0 && whitespace(s.last()) {
        let k = lemma_end_is_cut(s.drop_last());
        assert(s.drop_last().take(k) =~= s.take(k));
        assert forall|i: int| k <= i < s.len() implies !visible(#[trigger] s[i]) by {
            if i < s.len() - 1 {
                assert(s.drop_last()[i] == s[i]);
            }
        }
        k
    } else {
        assert(s.take(s.len() as int) =~= s);
        s.len() as int
    }
}

/// What trimming leaves is a piece of the text, and nothing that can be seen stands in
/// front of it or behind it.
pub proof fn trimming_takes_nothing_that_can_be_seen(s: Seq<char>) -> (r: (int, int))
    ensures
        0 <= r.0 <= r.1 <= s.len(),
        trimmed(s) == s.subrange(r.0, r.1),
        forall|i: int| 0 <= i < r.0 ==> !visible(#[trigger] s[i]),
        forall|i: int| r.1 <= i < s.len() ==> !visible(#[trigger] s[i]),
{
    let k = lemma_start_is_cut(s);
    let t = s.skip(k);
    let e = lemma_end_is_cut(t);
    assert(t.take(e) =~= s.subrange(k, k + e));
    assert forall|i: int| k + e <= i < s.len() implies !visible(#[trigger] s[i]) by {
        assert(t[i - k] == s[i]);
    }
    (k, k + e)
}

/// The words of two texts with a space between them are those of the one and then those
/// of the other.
pub proof fn words_of_both(a: Seq<char>, b: Seq<char>)
    ensures
        words(a.push(' ') + b) == words(a) + words(b),
    decreases b.len(),
{
    let s = a.push(' ') + b;
    let none = Seq::<Seq<char>>::empty();
    if b.len() == 0 {
        assert(s =~= a.push(' '));
        assert(s.drop_last() =~= a);
        assert(words(b) =~= none);
        assert(words(a) + none =~= words(a));
    } else {
        words_of_both(a, b.drop_last());
        assert(s.drop_last() =~= a.push(' ') + b.drop_last());
        assert(s.last() == b.last());
        if whitespace(b.last()) {
        } else if b.len() == 1 {
            assert(s[s.len() - 2] == ' ');
            assert(words(b.drop_last()) =~= none);
            assert(words(s) =~= words(a) + words(b));
        } else {
            assert(s[s.len() - 2] == b[b.len() - 2]);
            if whitespace(b[b.len() - 2]) {
                assert(words(s) =~= words(a) + words(b));
            } else {
                words_are_solid(b.drop_last());
                assert(b.drop_last().last() == b[b.len() - 2]);
                let x = words(a);
                let y = words(b.drop_last());
                assert((x + y).drop_last() =~= x + y.drop_last());
                assert((x + y).last() == y.last());
                assert(words(s) =~= words(a) + words(b));
            }
        }
    }
}

/// Text without white space is one word.
pub proof fn solid_text_is_a_word(s: Seq<char>)
    requires
        s.len() > 0,
        forall|i: int| 0 <= i < s.len() ==> !whitespace(#[trigger] s[i]),
    ensures
        words(s) == seq![s],
    decreases s.len(),
{
    if s.len() == 1 {
        assert(s.drop_last() =~= Seq::<char>::empty());
        assert(words(s.drop_last()) =~= Seq::<Seq<char>>::empty());
        assert(seq![s.last()] =~= s);
    } else {
        solid_text_is_a_word(s.drop_last());
        assert(s.drop_last().push(s.last()) =~= s);
        assert(words(s) =~= seq![s]);
    }
}

} // verus!
