//! Paths as text, taken apart the way the filesystem reads them.
//!
//! A path is a sequence of parts between slashes. Repeated slashes and single
//! dots say nothing and leave no part, except for a dot in front. Two paths are
//! the same place in name when their parts are equal, and one lies inside another
//! when the other's parts come first. Nothing here asks the filesystem.
use crate::text::{chars_of, text_of};
use vstd::prelude::*;
use vstd::string::*;

verus! {

/// One part of a path.
pub enum Part {
    /// A leading slash.
    Root,
    /// A leading `.`.
    Here,
    /// `..`
    Up,
    Name(Seq<char>),
}

/// One part of a path.
#[derive(Debug, PartialEq, Eq)]
pub enum Component {
    Root,
    Here,
    Up,
    Name(String),
}

impl View for Component {
    type V = Part;

    open spec fn view(&self) -> Part {
        match self {
            Component::Root => Part::Root,
            Component::Here => Part::Here,
            Component::Up => Part::Up,
            Component::Name(s) => Part::Name(s@),
        }
    }
}

/// The views of a list of components.
pub open spec fn views(v: Seq<Component>) -> Seq<Part> {
    v.map_values(|c: Component| c@)
}

/// Where the first slash is, or the length where there is none.
pub open spec fn first_slash(s: Seq<char>) -> nat
    decreases s.len(),
{
    if s.len() == 0 || s[0] == '/' {
        0
    } else {
        1 + first_slash(s.drop_first())
    }
}

/// The parts of a path that go on from another, where a dot says nothing.
pub open spec fn tail_parts(s: Seq<char>) -> Seq<Part>
    decreases s.len(),
{
    if s.len() == 0 {
        Seq::empty()
    } else if s[0] == '/' {
        tail_parts(s.drop_first())
    } else {
        proof {
            lemma_first_slash(s);
        }
        let j = first_slash(s);
        let rest = tail_parts(s.skip(j as int));
        if s.take(j as int) == seq!['.'] {
            rest
        } else if s.take(j as int) == seq!['.', '.'] {
            seq![Part::Up] + rest
        } else {
            seq![Part::Name(s.take(j as int))] + rest
        }
    }
}

/// Whether a path starts at the root.
pub open spec fn absolute(s: Seq<char>) -> bool {
    s.len() > 0 && s[0] == '/'
}

/// What stands in front of the parts between slashes.
pub open spec fn head_parts(s: Seq<char>) -> Seq<Part> {
    if absolute(s) {
        seq![Part::Root]
    } else if s.len() > 0 && s[0] == '.' && (s.len() == 1 || s[1] == '/') {
        seq![Part::Here]
    } else {
        Seq::empty()
    }
}

/// The parts of a path.
pub open spec fn parts(s: Seq<char>) -> Seq<Part> {
    head_parts(s) + tail_parts(s)
}

/// One sequence comes first in the other.
pub open spec fn begins_with<T>(s: Seq<T>, front: Seq<T>) -> bool {
    front.len() <= s.len() && s.take(front.len() as int) == front
}

/// The two texts name the same place.
pub open spec fn same_place(a: Seq<char>, b: Seq<char>) -> bool {
    parts(a) == parts(b)
}

/// The place that `a` names is `b` or lies below it.
pub open spec fn within(a: Seq<char>, b: Seq<char>) -> bool {
    begins_with(parts(a), parts(b))
}

/// A path below another, or the second one where it starts at the root.
pub open spec fn joined_path(a: Seq<char>, b: Seq<char>) -> Seq<char> {
    if absolute(b) {
        b
    } else if a.len() == 0 || a.last() == '/' {
        a + b
    } else {
        a.push('/') + b
    }
}

/// The last name of a path, where it ends in one.
pub open spec fn last_name(s: Seq<char>) -> Option<Seq<char>> {
    let p = parts(s);
    if p.len() > 0 {
        match p.last() {
            Part::Name(n) => Some(n),
            _ => None,
        }
    } else {
        None
    }
}

/// Text without the slashes and single dots in front that leave no part.
pub open spec fn skip_empty(s: Seq<char>) -> Seq<char>
    decreases s.len(),
{
    if s.len() > 0 && s[0] == '/' {
        skip_empty(s.drop_first())
    } else if s.len() > 0 && s[0] == '.' && (s.len() == 1 || s[1] == '/') {
        skip_empty(s.drop_first())
    } else {
        s
    }
}

/// Text without the slashes and single dots at the end that leave no part.
pub open spec fn trim_tail(s: Seq<char>) -> Seq<char>
    decreases s.len(),
{
    if s.len() > 0 && s.last() == '/' {
        trim_tail(s.drop_last())
    } else if s.len() > 0 && s.last() == '.' && (s.len() == 1 || s[s.len() - 2] == '/') {
        trim_tail(s.drop_last())
    } else {
        s
    }
}

/// What is left of a text after the first `n` of its parts between slashes.
pub open spec fn after_parts(s: Seq<char>, n: nat) -> Seq<char>
    decreases n,
{
    if n == 0 {
        s
    } else {
        let t = skip_empty(s);
        after_parts(t.skip(first_slash(t) as int), (n - 1) as nat)
    }
}

/// A path relative to one that it lies within, otherwise the path itself.
pub open spec fn relative_to(s: Seq<char>, base: Seq<char>) -> Seq<char> {
    if !within(s, base) {
        s
    } else if parts(base).len() == 0 {
        let h = head_parts(s).len() as int;
        s.take(h) + trim_tail(s.skip(h))
    } else {
        let n = (parts(base).len() - head_parts(s).len()) as nat;
        trim_tail(skip_empty(after_parts(s, n)))
    }
}

/// A text comes before another, character by character.
pub open spec fn text_before(a: Seq<char>, b: Seq<char>) -> bool
    decreases a.len(),
{
    if b.len() == 0 {
        false
    } else if a.len() == 0 {
        true
    } else {
        (a[0] as u32) < (b[0] as u32) || (a[0] == b[0] && text_before(
            a.drop_first(),
            b.drop_first(),
        ))
    }
}

/// The rank of a kind of part.
pub open spec fn kind(p: Part) -> int {
    match p {
        Part::Root => 0,
        Part::Here => 1,
        Part::Up => 2,
        Part::Name(_) => 3,
    }
}

/// A part comes before another.
pub open spec fn part_before(a: Part, b: Part) -> bool {
    ||| kind(a) < kind(b)
    ||| match (a, b) {
        (Part::Name(x), Part::Name(y)) => text_before(x, y),
        _ => false,
    }
}

/// A list of parts comes before another, part by part.
pub open spec fn parts_before(a: Seq<Part>, b: Seq<Part>) -> bool
    decreases a.len(),
{
    if b.len() == 0 {
        false
    } else if a.len() == 0 {
        true
    } else {
        part_before(a[0], b[0]) || (a[0] == b[0] && parts_before(a.drop_first(), b.drop_first()))
    }
}

/// The first slash is found where it stands, and none comes before it.
pub proof fn lemma_first_slash(s: Seq<char>)
    ensures
        first_slash(s) <= s.len(),
        first_slash(s) < s.len() ==> s[first_slash(s) as int] == '/',
        forall|i: int| 0 <= i < first_slash(s) ==> s[i] != '/',
    decreases s.len(),
{
    if s.len() > 0 && s[0] != '/' {
        let t = s.drop_first();
        lemma_first_slash(t);
        assert forall|i: int| 0 <= i < first_slash(s) implies s[i] != '/' by {
            if i > 0 {
                assert(s[i] == t[i - 1]);
            }
        }
        if first_slash(s) < s.len() {
            assert(s[first_slash(s) as int] == t[first_slash(t) as int]);
        }
    }
}

proof fn lemma_first_slash_is(s: Seq<char>, n: nat)
    requires
        n <= s.len(),
        n < s.len() ==> s[n as int] == '/',
        forall|i: int| 0 <= i < n ==> s[i] != '/',
    ensures
        first_slash(s) == n,
{
    lemma_first_slash(s);
    let m = first_slash(s);
    if m < n {
        assert(s[m as int] != '/');
    }
    if n < m {
        assert(s[n as int] != '/');
    }
}

/// The parts of two texts with a slash between them are those of the one and then
/// those of the other.
pub proof fn tail_parts_of_both(a: Seq<char>, b: Seq<char>)
    ensures
        tail_parts(a.push('/') + b) == tail_parts(a) + tail_parts(b),
    decreases a.len(),
{
    let s = a.push('/') + b;
    if a.len() == 0 {
        assert(s.drop_first() =~= b);
        assert(tail_parts(a) =~= Seq::<Part>::empty());
        assert(tail_parts(a) + tail_parts(b) =~= tail_parts(b));
    } else if a[0] == '/' {
        tail_parts_of_both(a.drop_first(), b);
        assert(s.drop_first() =~= a.drop_first().push('/') + b);
    } else {
        let j = first_slash(a);
        lemma_first_slash(a);
        assert(j > 0);
        lemma_first_slash_is(s, j);
        tail_parts_of_both(a.skip(j as int), b);
        assert(s.skip(j as int) =~= a.skip(j as int).push('/') + b);
        assert(s.take(j as int) =~= a.take(j as int));
        let ra = tail_parts(a.skip(j as int));
        let rb = tail_parts(b);
        assert(seq![Part::Up] + (ra + rb) =~= (seq![Part::Up] + ra) + rb);
        let n = Part::Name(a.take(j as int));
        assert(seq![n] + (ra + rb) =~= (seq![n] + ra) + rb);
    }
}

/// Joining a path that does not start at the root or with a dot adds its parts to
/// those of the first.
pub proof fn parts_of_joined(a: Seq<char>, b: Seq<char>)
    requires
        head_parts(b).len() == 0,
    ensures
        parts(joined_path(a, b)) == parts(a) + parts(b),
{
    let s = joined_path(a, b);
    assert(parts(b) =~= tail_parts(b));
    assert(!absolute(b));
    if a.len() == 0 {
        assert(s =~= b);
        assert(parts(a) =~= Seq::<Part>::empty());
        assert(parts(a) + parts(b) =~= parts(b));
    } else if a.last() == '/' {
        let c = a.drop_last();
        assert(s =~= c.push('/') + b);
        tail_parts_of_both(c, b);
        tail_parts_of_both(c, Seq::empty());
        assert(a =~= c.push('/') + Seq::<char>::empty());
        assert(tail_parts(c) + tail_parts(Seq::<char>::empty()) =~= tail_parts(c));
        assert(head_parts(s) == head_parts(a));
        assert(parts(s) =~= parts(a) + parts(b));
    } else {
        tail_parts_of_both(a, b);
        if a.len() == 1 {
            assert(s[1] == '/');
        }
        assert(head_parts(s) == head_parts(a));
        assert(parts(s) =~= parts(a) + parts(b));
    }
}

/// Whether a path starts at the root.
pub fn is_absolute(s: &str) -> (r: bool)
    ensures
        r == absolute(s@),
{
    let v = chars_of(s);
    v.len() > 0 && v[0] == '/'
}

fn slash_from(v: &Vec<char>, i: usize) -> (j: usize)
    requires
        i <= v@.len(),
    ensures
        i <= j <= v@.len(),
        j - i == first_slash(v@.skip(i as int)),
{
    let mut j: usize = i;
    while j < v.len() && v[j] != '/'
        invariant
            i <= j <= v@.len(),
            forall|k: int| i <= k < j ==> v@[k] != '/',
        decreases v@.len() - j,
    {
        j = j + 1;
    }
    proof {
        let t = v@.skip(i as int);
        assert forall|k: int| 0 <= k < j - i implies t[k] != '/' by {
            assert(t[k] == v@[k + i]);
        }
        lemma_first_slash_is(t, (j - i) as nat);
    }
    j
}

/// The parts of a path.
pub fn components(s: &str) -> (r: Vec<Component>)
    ensures
        views(r@) == parts(s@),
{
    let v = chars_of(s);
    let mut r: Vec<Component> = Vec::new();
    if v.len() > 0 && v[0] == '/' {
        r.push(Component::Root);
    } else if v.len() > 0 && v[0] == '.' && (v.len() == 1 || v[1] == '/') {
        r.push(Component::Here);
    }
    assert(views(r@) =~= head_parts(s@));
    let mut i: usize = 0;
    assert(s@.skip(0) =~= s@);
    while i < v.len()
        invariant
            i <= v@.len(),
            v@ == s@,
            views(r@) + tail_parts(s@.skip(i as int)) == parts(s@),
        decreases v@.len() - i,
    {
        let ghost t = s@.skip(i as int);
        let ghost before = views(r@);
        if v[i] == '/' {
            assert(t.drop_first() =~= s@.skip(i + 1));
            i = i + 1;
        } else {
            let j = slash_from(&v, i);
            let ghost rest = tail_parts(s@.skip(j as int));
            assert(j > i);
            assert(t.skip(j - i) =~= s@.skip(j as int));
            assert(t.take(j - i) =~= s@.subrange(i as int, j as int));
            let ghost name = s@.subrange(i as int, j as int);
            if j - i == 1 && v[i] == '.' {
                assert(name =~= seq!['.']);
            } else if j - i == 2 && v[i] == '.' && v[i + 1] == '.' {
                assert(name =~= seq!['.', '.']);
                r.push(Component::Up);
                assert(views(r@) =~= before.push(Part::Up));
                assert(before.push(Part::Up) + rest =~= before + (seq![Part::Up] + rest));
            } else {
                proof {
                    if name == seq!['.'] {
                        assert(name[0] == '.');
                    }
                    if name == seq!['.', '.'] {
                        assert(name[0] == '.' && name[1] == '.');
                    }
                }
                r.push(Component::Name(text_of(&v, i, j)));
                assert(views(r@) =~= before.push(Part::Name(name)));
                assert(before.push(Part::Name(name)) + rest =~= before + (seq![Part::Name(name)]
                    + rest));
            }
            i = j;
        }
    }
    assert(s@.skip(i as int) =~= Seq::<char>::empty());
    assert(views(r@) + Seq::<Part>::empty() =~= views(r@));
    r
}

fn same_component(a: &Component, b: &Component) -> (r: bool)
    ensures
        r == (a@ == b@),
{
    match (a, b) {
        (Component::Root, Component::Root) => true,
        (Component::Here, Component::Here) => true,
        (Component::Up, Component::Up) => true,
        (Component::Name(x), Component::Name(y)) => *x == *y,
        _ => false,
    }
}

/// Whether one list of components comes first in another.
pub fn starts_with(a: &Vec<Component>, front: &Vec<Component>) -> (r: bool)
    ensures
        r == begins_with(views(a@), views(front@)),
{
    if front.len() > a.len() {
        return false;
    }
    let mut i: usize = 0;
    while i < front.len()
        invariant
            i <= front@.len() <= a@.len(),
            forall|k: int| 0 <= k < i ==> views(a@)[k] == views(front@)[k],
        decreases front@.len() - i,
    {
        if !same_component(&a[i], &front[i]) {
            proof {
                let n = front@.len() as int;
                assert(views(a@).take(n)[i as int] != views(front@)[i as int]);
            }
            return false;
        }
        i = i + 1;
    }
    assert(views(a@).take(front@.len() as int) =~= views(front@));
    true
}

/// Whether `a` names `b` or a place below it.
pub fn is_within(a: &str, b: &str) -> (r: bool)
    ensures
        r == within(a@, b@),
{
    starts_with(&components(a), &components(b))
}

/// Whether two texts name the same place.
pub fn is_same_place(a: &str, b: &str) -> (r: bool)
    ensures
        r == same_place(a@, b@),
{
    let x = components(a);
    let y = components(b);
    let r = x.len() == y.len() && starts_with(&x, &y);
    assert(views(x@).take(x@.len() as int) =~= views(x@));
    r
}

/// A path below another, or the second one where it starts at the root.
pub fn join_path(a: &str, b: &str) -> (r: String)
    ensures
        r@ == joined_path(a@, b@),
{
    if is_absolute(b) {
        return b.to_owned();
    }
    let v = chars_of(a);
    let mut r = a.to_owned();
    if v.len() > 0 && v[v.len() - 1] != '/' {
        r.push('/');
    }
    r.append(b);
    r
}

/// The last name of a path, where it ends in one.
pub fn file_name(s: &str) -> (r: Option<String>)
    ensures
        r is Some <==> last_name(s@) is Some,
        r matches Some(n) ==> Some(n@) == last_name(s@),
{
    let mut c = components(s);
    let ghost all = c@;
    match c.pop() {
        Some(last) => {
            assert(views(all).last() == last@);
            match last {
                Component::Name(n) => Some(n),
                _ => None,
            }
        },
        None => None,
    }
}

fn skip_empty_from(v: &Vec<char>, i: usize) -> (j: usize)
    requires
        i <= v@.len(),
    ensures
        i <= j <= v@.len(),
        v@.skip(j as int) == skip_empty(v@.skip(i as int)),
{
    let mut j: usize = i;
    while j < v.len() && (v[j] == '/' || (v[j] == '.' && (j + 1 == v.len() || v[j + 1] == '/')))
        invariant
            i <= j <= v@.len(),
            skip_empty(v@.skip(j as int)) == skip_empty(v@.skip(i as int)),
        decreases v@.len() - j,
    {
        assert(v@.skip(j as int).drop_first() =~= v@.skip(j + 1));
        j = j + 1;
    }
    j
}

/// A path relative to one that it lies within, otherwise the path itself.
pub fn strip_base(s: &str, base: &str) -> (r: String)
    ensures
        r@ == relative_to(s@, base@),
{
    let all = components(s);
    let front = components(base);
    if !starts_with(&all, &front) {
        return s.to_owned();
    }
    let v = chars_of(s);
    let heads: usize = if v.len() > 0 && (v[0] == '/' || (v[0] == '.' && (v.len() == 1 || v[1]
        == '/'))) {
        1
    } else {
        0
    };
    assert(heads == head_parts(s@).len());
    let mut from: usize = 0;
    let mut i: usize = heads;
    if front.len() > 0 {
        i = 0;
        assert(s@.skip(0) =~= s@);
        let mut n: usize = front.len() - heads;
        let ghost total = n as nat;
        while n > 0
            invariant
                i <= v@.len(),
                v@ == s@,
                after_parts(v@.skip(i as int), n as nat) == after_parts(s@, total),
            decreases n,
        {
            let k = skip_empty_from(&v, i);
            i = slash_from(&v, k);
            assert(v@.skip(k as int).skip(i - k) =~= v@.skip(i as int));
            n = n - 1;
        }
        i = skip_empty_from(&v, i);
        from = i;
    }
    let mut to: usize = v.len();
    while to > i && (v[to - 1] == '/' || (v[to - 1] == '.' && (to - 1 == i || v[to - 2] == '/')))
        invariant
            i <= to <= v@.len(),
            trim_tail(v@.subrange(i as int, to as int)) == trim_tail(v@.skip(i as int)),
        decreases to,
    {
        let ghost t = v@.subrange(i as int, to as int);
        assert(t.drop_last() =~= v@.subrange(i as int, to - 1));
        to = to - 1;
    }
    assert(front@.len() == 0 ==> v@.subrange(0, to as int) =~= v@.take(i as int) + v@.subrange(
        i as int,
        to as int,
    ));
    text_of(&v, from, to)
}

/// Text that stands between slashes as a name of its own.
pub open spec fn plain_name(n: Seq<char>) -> bool {
    &&& n.len() > 0
    &&& !n.contains('/')
    &&& n != seq!['.']
    &&& n != seq!['.', '.']
}

/// The parts after the first are names between slashes, or ways up.
proof fn lemma_tail_is_plain(s: Seq<char>)
    ensures
        forall|i: int|
            0 <= i < tail_parts(s).len() ==> match #[trigger] tail_parts(s)[i] {
                Part::Name(n) => plain_name(n),
                Part::Up => true,
                _ => false,
            },
    decreases s.len(),
{
    if s.len() > 0 {
        if s[0] == '/' {
            lemma_tail_is_plain(s.drop_first());
        } else {
            lemma_first_slash(s);
            let j = first_slash(s);
            lemma_tail_is_plain(s.skip(j as int));
            let n = s.take(j as int);
            if n.contains('/') {
                let k = choose|k: int| 0 <= k < n.len() && n[k] == '/';
                assert(s[k] == '/');
            }
        }
    }
}

/// A plain name is a path of that one part.
pub proof fn parts_of_plain_name(n: Seq<char>)
    requires
        plain_name(n),
    ensures
        parts(n) == seq![Part::Name(n)],
        head_parts(n).len() == 0,
{
    assert forall|i: int| 0 <= i < n.len() implies n[i] != '/' by {
        if n[i] == '/' {
            assert(n.contains('/'));
        }
    }
    lemma_first_slash_is(n, n.len());
    assert(n.take(n.len() as int) =~= n);
    assert(n.skip(n.len() as int) =~= Seq::<char>::empty());
    assert(tail_parts(Seq::<char>::empty()) =~= Seq::<Part>::empty());
    assert(tail_parts(n) =~= seq![Part::Name(n)]);
    if n.len() == 1 && n[0] == '.' {
        assert(n =~= seq!['.']);
    }
    assert(parts(n) =~= seq![Part::Name(n)]);
}

proof fn lemma_dots()
    ensures
        parts(seq!['.', '.']) == seq![Part::Up],
        head_parts(seq!['.', '.']).len() == 0,
        parts(seq!['.']) == seq![Part::Here],
        parts(seq!['/']) == seq![Part::Root],
        parts(Seq::<char>::empty()) == Seq::<Part>::empty(),
{
    let up = seq!['.', '.'];
    lemma_first_slash_is(up, 2);
    assert(up.take(2) =~= up);
    assert(up.skip(2) =~= Seq::<char>::empty());
    assert(up != seq!['.']) by {
        assert(up.len() != seq!['.'].len());
    }
    assert(tail_parts(Seq::<char>::empty()) =~= Seq::<Part>::empty());
    assert(parts(up) =~= seq![Part::Up]);
    let here = seq!['.'];
    lemma_first_slash_is(here, 1);
    assert(here.take(1) =~= here);
    assert(here.skip(1) =~= Seq::<char>::empty());
    assert(parts(here) =~= seq![Part::Here]);
    let slash = seq!['/'];
    assert(slash.drop_first() =~= Seq::<char>::empty());
    assert(parts(slash) =~= seq![Part::Root]);
    assert(parts(Seq::<char>::empty()) =~= Seq::<Part>::empty());
}

/// How many directories a path goes through, itself and the outermost included.
pub open spec fn depth(s: Seq<char>) -> nat {
    if absolute(s) {
        parts(s).len()
    } else {
        parts(s).len() + 1
    }
}

/// A leading slash or dot is the first part and no other.
proof fn lemma_head_comes_first(s: Seq<char>, i: int)
    requires
        0 <= i < parts(s).len(),
        parts(s)[i] is Root || parts(s)[i] is Here,
    ensures
        i == 0,
        parts(s).take(i + 1) == seq![parts(s)[i]],
{
    let h = head_parts(s).len();
    lemma_tail_is_plain(s);
    if i >= h {
        assert(parts(s)[i] == tail_parts(s)[i - h]);
    }
    assert(h <= 1);
    assert(parts(s).take(i + 1) =~= seq![parts(s)[i]]);
}

/// A path and the directories above it, innermost first: up to the root for a
/// path that starts there, and up to the empty path otherwise.
pub fn ancestors(s: &str) -> (r: Vec<String>)
    ensures
        r@.len() == depth(s@),
        forall|i: int|
            0 <= i < r@.len() ==> parts((#[trigger] r@[i])@) == parts(s@).take(
                parts(s@).len() - i,
            ),
{
    let c = components(s);
    let ghost p = parts(s@);
    let mut upward: Vec<String> = Vec::new();
    let mut at = String::new();
    proof {
        lemma_dots();
        lemma_tail_is_plain(s@);
        assert(at@ =~= Seq::<char>::empty());
        assert(p.take(0) =~= Seq::<Part>::empty());
    }
    if !is_absolute(s) {
        upward.push(at.clone());
    }
    let mut i: usize = 0;
    while i < c.len()
        invariant
            i <= c@.len(),
            p == parts(s@),
            views(c@) == p,
            parts(at@) == p.take(i as int),
            upward@.len() == if absolute(s@) {
                i as nat
            } else {
                (i + 1) as nat
            },
            forall|k: int|
                0 <= k < upward@.len() ==> parts((#[trigger] upward@[k])@) == p.take(
                    if absolute(s@) {
                        k + 1
                    } else {
                        k
                    },
                ),
        decreases c@.len() - i,
    {
        proof {
            lemma_dots();
            lemma_tail_is_plain(s@);
            assert(views(c@)[i as int] == c@[i as int]@);
            assert(p.take(i + 1) =~= p.take(i as int).push(p[i as int]));
            if i >= head_parts(s@).len() {
                assert(p[i as int] == tail_parts(s@)[i - head_parts(s@).len()]);
            }
        }
        let ghost before = at@;
        match &c[i] {
            Component::Root => {
                at = String::new();
                at.push('/');
                assert(at@ =~= seq!['/']);
                proof {
                    lemma_head_comes_first(s@, i as int);
                }
            },
            Component::Here => {
                at = String::new();
                at.push('.');
                assert(at@ =~= seq!['.']);
                proof {
                    lemma_head_comes_first(s@, i as int);
                }
            },
            Component::Up => {
                let mut up = String::new();
                up.push('.');
                up.push('.');
                assert(up@ =~= seq!['.', '.']);
                at = join_path(at.as_str(), up.as_str());
                proof {
                    parts_of_joined(before, up@);
                    assert(parts(at@) =~= p.take(i + 1));
                }
            },
            Component::Name(n) => {
                at = join_path(at.as_str(), n.as_str());
                proof {
                    parts_of_plain_name(n@);
                    parts_of_joined(before, n@);
                    assert(parts(at@) =~= p.take(i + 1));
                }
            },
        }
        upward.push(at.clone());
        i = i + 1;
    }
    let mut r: Vec<String> = Vec::new();
    let mut left: usize = upward.len();
    while left > 0
        invariant
            left <= upward@.len(),
            p == parts(s@),
            upward@.len() == depth(s@),
            r@.len() == upward@.len() - left,
            forall|k: int|
                0 <= k < upward@.len() ==> parts((#[trigger] upward@[k])@) == p.take(
                    if absolute(s@) {
                        k + 1
                    } else {
                        k
                    },
                ),
            forall|k: int|
                0 <= k < r@.len() ==> parts((#[trigger] r@[k])@) == p.take(p.len() - k),
        decreases left,
    {
        left = left - 1;
        r.push(upward[left].clone());
    }
    r
}


proof fn lemma_code_points(a: char, b: char)
    ensures
        a as u32 == b as u32 ==> a == b,
{
}

proof fn lemma_text_order(a: Seq<char>, b: Seq<char>, c: Seq<char>)
    ensures
        !text_before(a, a),
        a == b || text_before(a, b) || text_before(b, a),
        text_before(a, b) && text_before(b, c) ==> text_before(a, c),
    decreases a.len(),
{
    if a.len() > 0 {
        if b.len() > 0 && c.len() > 0 {
            lemma_text_order(a.drop_first(), b.drop_first(), c.drop_first());
        } else if b.len() > 0 {
            lemma_text_order(a.drop_first(), b.drop_first(), c);
        } else {
            lemma_text_order(a.drop_first(), b, c);
        }
        if b.len() > 0 && a[0] == b[0] && a.drop_first() == b.drop_first() {
            assert(a =~= seq![a[0]] + a.drop_first());
            assert(b =~= seq![b[0]] + b.drop_first());
        }
        if b.len() > 0 {
            lemma_code_points(a[0], b[0]);
        }
    } else if b.len() == 0 {
        assert(a =~= b);
    }
}

proof fn lemma_part_order(a: Part, b: Part, c: Part)
    ensures
        !part_before(a, a),
        a == b || part_before(a, b) || part_before(b, a),
        part_before(a, b) && part_before(b, c) ==> part_before(a, c),
{
    match (a, b, c) {
        (Part::Name(x), Part::Name(y), Part::Name(z)) => {
            lemma_text_order(x, y, z);
        },
        (Part::Name(x), Part::Name(y), _) => {
            lemma_text_order(x, y, y);
        },
        (Part::Name(x), _, _) => {
            lemma_text_order(x, x, x);
        },
        _ => {},
    }
}

/// The order of paths is a strict total one.
pub proof fn paths_are_ordered(a: Seq<Part>, b: Seq<Part>, c: Seq<Part>)
    ensures
        !parts_before(a, a),
        a == b || parts_before(a, b) || parts_before(b, a),
        parts_before(a, b) && parts_before(b, c) ==> parts_before(a, c),
    decreases a.len(),
{
    if a.len() > 0 {
        lemma_part_order(a[0], a[0], a[0]);
        if b.len() > 0 && c.len() > 0 {
            paths_are_ordered(a.drop_first(), b.drop_first(), c.drop_first());
            lemma_part_order(a[0], b[0], c[0]);
        } else if b.len() > 0 {
            paths_are_ordered(a.drop_first(), b.drop_first(), c);
            lemma_part_order(a[0], b[0], b[0]);
        } else {
            paths_are_ordered(a.drop_first(), b, c);
        }
        if b.len() > 0 && a[0] == b[0] && a.drop_first() == b.drop_first() {
            assert(a =~= seq![a[0]] + a.drop_first());
            assert(b =~= seq![b[0]] + b.drop_first());
        }
    } else if b.len() == 0 {
        assert(a =~= b);
    }
}

fn text_comes_before(a: &str, b: &str) -> (r: bool)
    ensures
        r == text_before(a@, b@),
{
    let x = chars_of(a);
    let y = chars_of(b);
    assert(x@.skip(0) =~= a@);
    assert(y@.skip(0) =~= b@);
    let mut i: usize = 0;
    while i < x.len() && i < y.len()
        invariant
            x@ == a@,
            y@ == b@,
            i <= x@.len(),
            i <= y@.len(),
            text_before(a@, b@) == text_before(x@.skip(i as int), y@.skip(i as int)),
        decreases x@.len() - i,
    {
        assert(x@.skip(i as int).drop_first() =~= x@.skip(i + 1));
        assert(y@.skip(i as int).drop_first() =~= y@.skip(i + 1));
        if (x[i] as u32) < (y[i] as u32) {
            return true;
        }
        if x[i] != y[i] {
            return false;
        }
        i = i + 1;
    }
    i < y.len()
}

fn component_comes_before(a: &Component, b: &Component) -> (r: bool)
    ensures
        r == part_before(a@, b@),
{
    match (a, b) {
        (Component::Name(x), Component::Name(y)) => text_comes_before(x.as_str(), y.as_str()),
        (Component::Name(_), _) => false,
        (Component::Up, Component::Name(_)) => true,
        (Component::Up, _) => false,
        (Component::Here, Component::Name(_)) => true,
        (Component::Here, Component::Up) => true,
        (Component::Here, _) => false,
        (Component::Root, Component::Root) => false,
        (Component::Root, _) => true,
    }
}

/// Does a path come before another, part by part?
pub fn comes_before(a: &Vec<Component>, b: &Vec<Component>) -> (r: bool)
    ensures
        r == parts_before(views(a@), views(b@)),
{
    let ghost x = views(a@);
    let ghost y = views(b@);
    assert(x.skip(0) =~= x);
    assert(y.skip(0) =~= y);
    let mut i: usize = 0;
    while i < a.len() && i < b.len()
        invariant
            x == views(a@),
            y == views(b@),
            i <= a@.len(),
            i <= b@.len(),
            parts_before(x, y) == parts_before(x.skip(i as int), y.skip(i as int)),
        decreases a@.len() - i,
    {
        assert(x.skip(i as int)[0] == a@[i as int]@);
        assert(y.skip(i as int)[0] == b@[i as int]@);
        assert(x.skip(i as int).drop_first() =~= x.skip(i + 1));
        assert(y.skip(i as int).drop_first() =~= y.skip(i + 1));
        if component_comes_before(&a[i], &b[i]) {
            return true;
        }
        if !same_component(&a[i], &b[i]) {
            return false;
        }
        i = i + 1;
    }
    i < b.len()
}

proof fn lemma_skip_empty(s: Seq<char>)
    ensures
        tail_parts(skip_empty(s)) == tail_parts(s),
        ({
            let t = skip_empty(s);
            t.len() > 0 ==> t[0] != '/' && t.take(first_slash(t) as int) != seq!['.']
        }),
    decreases s.len(),
{
    if s.len() > 0 && s[0] == '/' {
        lemma_skip_empty(s.drop_first());
    } else if s.len() > 0 && s[0] == '.' && (s.len() == 1 || s[1] == '/') {
        lemma_first_slash_is(s, 1);
        assert(s.take(1) =~= seq!['.']);
        assert(s.skip(1) =~= s.drop_first());
        lemma_skip_empty(s.drop_first());
    } else if s.len() > 0 {
        lemma_first_slash(s);
        let j = first_slash(s);
        if s.take(j as int) == seq!['.'] {
            assert(s.take(j as int).len() == 1);
            assert(s.take(j as int)[0] == s[0]);
        }
    }
}

proof fn lemma_trim_tail(s: Seq<char>)
    ensures
        tail_parts(trim_tail(s)) == tail_parts(s),
    decreases s.len(),
{
    let none = Seq::<char>::empty();
    if s.len() > 0 && s.last() == '/' {
        let a = s.drop_last();
        assert(s =~= a.push('/') + none);
        tail_parts_of_both(a, none);
        assert(tail_parts(a) + tail_parts(none) =~= tail_parts(a));
        lemma_trim_tail(a);
    } else if s.len() > 0 && s.last() == '.' && (s.len() == 1 || s[s.len() - 2] == '/') {
        let dot = seq!['.'];
        lemma_first_slash_is(dot, 1);
        assert(dot.take(1) =~= dot);
        assert(dot.skip(1) =~= none);
        assert(tail_parts(none) =~= Seq::<Part>::empty());
        assert(tail_parts(dot) =~= Seq::<Part>::empty());
        lemma_trim_tail(s.drop_last());
        if s.len() == 1 {
            assert(s =~= dot);
            assert(s.drop_last() =~= none);
        } else {
            let a = s.take(s.len() - 2);
            assert(s =~= a.push('/') + dot);
            assert(s.drop_last() =~= a.push('/') + none);
            tail_parts_of_both(a, dot);
            tail_parts_of_both(a, none);
        }
    }
}

proof fn lemma_after_parts(s: Seq<char>, n: nat)
    requires
        n <= tail_parts(s).len(),
    ensures
        tail_parts(after_parts(s, n)) == tail_parts(s).skip(n as int),
    decreases n,
{
    if n == 0 {
        assert(tail_parts(s).skip(0) =~= tail_parts(s));
    } else {
        let t = skip_empty(s);
        lemma_skip_empty(s);
        lemma_first_slash(t);
        let j = first_slash(t) as int;
        assert(t.len() > 0);
        let rest = tail_parts(t.skip(j));
        assert(tail_parts(t).len() == 1 + rest.len());
        assert(tail_parts(t).skip(1) =~= rest);
        lemma_after_parts(t.skip(j), (n - 1) as nat);
        assert(rest.skip(n - 1) =~= tail_parts(s).skip(n as int));
    }
}

/// A path relative to one that it lies within goes on from there: its parts are those of
/// the path behind those of the other. Any other path is left as it is.
pub proof fn relative_paths_go_on(s: Seq<char>, base: Seq<char>)
    requires
        parts(base).len() > 0,
    ensures
        within(s, base) ==> tail_parts(relative_to(s, base)) == parts(s).skip(
            parts(base).len() as int,
        ),
        !within(s, base) ==> relative_to(s, base) == s,
{
    if within(s, base) {
        let h = head_parts(s);
        let p = parts(s);
        let b = parts(base).len();
        assert(h.len() <= 1);
        let n = (b - h.len()) as nat;
        assert(p.len() == h.len() + tail_parts(s).len());
        lemma_after_parts(s, n);
        let rest = after_parts(s, n);
        lemma_skip_empty(rest);
        lemma_trim_tail(skip_empty(rest));
        assert(tail_parts(s).skip(n as int) =~= p.skip(b as int));
    }
}

/// A path that stands in a directory is, relative to it, what was put behind the
/// directory: its parts are those of that.
pub proof fn joining_is_undone(base: Seq<char>, rest: Seq<char>)
    requires
        parts(base).len() > 0,
        head_parts(rest).len() == 0,
    ensures
        tail_parts(relative_to(joined_path(base, rest), base)) == parts(rest),
{
    let s = joined_path(base, rest);
    parts_of_joined(base, rest);
    let b = parts(base).len() as int;
    assert(parts(s).take(b) =~= parts(base));
    relative_paths_go_on(s, base);
    assert(parts(s).skip(b) =~= parts(rest));
}

/// A path starts at the root where it begins with a slash; two dots lead up, one dot
/// leads nowhere and slashes only part.
pub proof fn dots_and_slashes(s: Seq<char>)
    ensures
        absolute(s) <==> s.len() > 0 && s[0] == '/',
        absolute(s) <==> parts(s).len() > 0 && parts(s)[0] == Part::Root,
        tail_parts(seq!['.', '.']) == seq![Part::Up],
        tail_parts(seq!['.']) == Seq::<Part>::empty(),
        tail_parts(seq!['/'] + s) == tail_parts(s),
{
    let up = seq!['.', '.'];
    let dot = seq!['.'];
    let none = Seq::<char>::empty();
    lemma_first_slash_is(up, 2);
    assert(up.take(2) =~= up);
    assert(up.skip(2) =~= none);
    assert(up.len() != dot.len());
    assert(tail_parts(none) =~= Seq::<Part>::empty());
    assert(seq![Part::Up] + tail_parts(none) =~= seq![Part::Up]);
    lemma_first_slash_is(dot, 1);
    assert(dot.take(1) =~= dot);
    assert(dot.skip(1) =~= none);
    assert((seq!['/'] + s).drop_first() =~= s);
    if !absolute(s) && parts(s).len() > 0 {
        lemma_tail_is_plain(s);
        if head_parts(s).len() == 0 {
            assert(parts(s)[0] == tail_parts(s)[0]);
        }
    }
}

/// What was joined last is the last name.
pub proof fn the_last_name_was_joined_last(a: Seq<char>, n: Seq<char>)
    requires
        plain_name(n),
    ensures
        last_name(joined_path(a, n)) == Some(n),
{
    parts_of_plain_name(n);
    parts_of_joined(a, n);
    assert((parts(a) + seq![Part::Name(n)]).last() == Part::Name(n));
}

proof fn lemma_texts_in_order(front: Seq<char>, a: Seq<char>, b: Seq<char>)
    requires
        b.len() > 0,
        a.len() == 0 || (a[0] as u32) < (b[0] as u32),
    ensures
        text_before(front + a, front + b),
    decreases front.len(),
{
    if front.len() == 0 {
        assert(front + a =~= a);
        assert(front + b =~= b);
    } else {
        lemma_texts_in_order(front.drop_first(), a, b);
        assert((front + a).drop_first() =~= front.drop_first() + a);
        assert((front + b).drop_first() =~= front.drop_first() + b);
        assert((front + a)[0] == front[0] && (front + b)[0] == front[0]);
    }
}

/// Paths come in the order of a dictionary: a directory in front of what is in it, and of
/// two names in it the one whose first different character is the smaller one.
pub proof fn paths_come_as_in_a_dictionary(
    front: Seq<Part>,
    name: Seq<char>,
    a: Seq<char>,
    b: Seq<char>,
    more: Seq<Part>,
    rest: Seq<Part>,
)
    requires
        b.len() > 0,
        a.len() == 0 || (a[0] as u32) < (b[0] as u32),
    ensures
        parts_before(front, front + seq![Part::Name(name)] + more),
        parts_before(
            front + seq![Part::Name(name + a)] + more,
            front + seq![Part::Name(name + b)] + rest,
        ),
    decreases front.len(),
{
    let within = front + seq![Part::Name(name)] + more;
    let x = front + seq![Part::Name(name + a)] + more;
    let y = front + seq![Part::Name(name + b)] + rest;
    if front.len() == 0 {
        lemma_texts_in_order(name, a, b);
        assert(x[0] == Part::Name(name + a));
        assert(y[0] == Part::Name(name + b));
        assert(part_before(x[0], y[0]));
    } else {
        let fewer = front.drop_first();
        paths_come_as_in_a_dictionary(fewer, name, a, b, more, rest);
        assert(within.drop_first() =~= fewer + seq![Part::Name(name)] + more);
        assert(x.drop_first() =~= fewer + seq![Part::Name(name + a)] + more);
        assert(y.drop_first() =~= fewer + seq![Part::Name(name + b)] + rest);
        assert(within[0] == front[0] && x[0] == front[0] && y[0] == front[0]);
    }
}

} // verus!
