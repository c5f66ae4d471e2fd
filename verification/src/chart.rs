//! Geometry for the diverging balance chart.
//!
//! Each row is drawn against a centre spine: space freed grows left, time to
//! rebuild grows right. Both sides are square-rooted, and the right side is
//! multiplied by a reference rate before rooting:
//!
//! ```text
//! left  = sqrt(reclaimable_mb)
//! right = sqrt(rebuild_seconds * rate)
//! ```
//!
//! The two are equal exactly when a row returns the reference rate, so break-even
//! is simply where rows stop leaning left. One scale is derived per chart and
//! shared by both sides, so it cannot change which of them is longer.
//!
//! The numbers are double precision ones, see [`crate::binary64`].
use crate::binary64;
use crate::binary64::{
    divide, from_bits, from_u64, larger, multiply, round_to_word, square_root, Binary64,
    INFINITY_BITS, LEAST,
};
use crate::text::{chars_of, push_repeated, text_of};
use vstd::prelude::*;
use vstd::string::*;

verus! {

/// Megabytes per second of rebuild at which a row balances: the bit pattern of 3.
///
/// A `node_modules` worth 420 MB for 45 seconds is clearly worth doing, a release
/// build worth 230 MB for ten minutes clearly is not, and this sits between them.
pub const DEFAULT_WORTH_RATE: u64 = 0x4008_0000_0000_0000;

/// One row's bars, in terminal cells.
#[derive(Debug, Clone, Copy, PartialEq, Eq, Structural)]
pub struct Bars {
    pub left: usize,
    pub right: usize,
    /// Either side wanted more cells than the field allows.
    pub overflowed: bool,
}

impl Bars {
    /// More space than time.
    pub open spec fn leans(self) -> bool {
        self.left > self.right
    }

    /// Does this row return more than the reference rate? Counted in cells, so a
    /// row whose bars round to the same length is not claimed to lean either way.
    pub fn leans_left(&self) -> (r: bool)
        ensures
            r == self.leans(),
    {
        self.left > self.right
    }
}

/// Unscaled magnitudes for one row.
#[derive(Debug, Clone, Copy, PartialEq, Eq, Structural)]
pub struct Units {
    pub left: Binary64,
    pub right: Binary64,
}

/// A number that the square root of a double precision number can be.
pub open spec fn root_sized(x: Binary64) -> bool {
    &&& x.valid()
    &&& x matches Binary64::Normal { e, .. } ==> -564 <= e <= 461
}

impl Units {
    pub open spec fn valid(self) -> bool {
        root_sized(self.left) && root_sized(self.right)
    }
}

/// A number of bytes in megabytes.
pub open spec fn megabytes(bytes: u64) -> Binary64 {
    match binary64::of_nat(bytes as nat) {
        Binary64::Normal { m, e } => Binary64::Normal { m, e: (e - 20) as i32 },
        other => other,
    }
}

/// The rate that a bit pattern stands for. What is not a positive number, or is
/// too small to be a normal one, counts as the smallest normal number.
pub open spec fn effective_rate(rate: u64) -> Binary64 {
    if LEAST <= rate <= INFINITY_BITS {
        binary64::from_bits_spec(rate)->0
    } else {
        Binary64::Normal { m: LEAST, e: -1074i32 }
    }
}

/// How many megabytes a row has to return to break even.
pub open spec fn fair_return(seconds: u32, rate: u64) -> Binary64 {
    binary64::product(binary64::of_nat(seconds as nat), effective_rate(rate))
}

/// Where a row sits relative to break-even, before any scaling.
pub open spec fn units_of(bytes: u64, seconds: u32, rate: u64) -> Units {
    Units {
        left: binary64::root(megabytes(bytes)),
        right: binary64::root(fair_return(seconds, rate)),
    }
}

/// The largest magnitude of any row.
pub open spec fn widest(rows: Seq<Units>) -> Binary64
    decreases rows.len(),
{
    if rows.len() == 0 {
        Binary64::Zero
    } else {
        let before = widest(rows.drop_last());
        let row = rows.last();
        let a = if row.left.bits() > before.bits() {
            row.left
        } else {
            before
        };
        if row.right.bits() > a.bits() {
            row.right
        } else {
            a
        }
    }
}

/// Cells per unit such that the largest magnitude fills the field.
pub open spec fn scale_of(rows: Seq<Units>, field: usize) -> Binary64 {
    if widest(rows) is Zero || field == 0 {
        Binary64::Zero
    } else {
        binary64::quotient(binary64::of_nat(field as nat), widest(rows))
    }
}

/// How many cells a magnitude asks for: at least one, unless it is nothing.
pub open spec fn cells_wanted(magnitude: Binary64, scale: Binary64) -> nat {
    if magnitude is Zero {
        0
    } else {
        let p = binary64::product(magnitude, scale);
        let n = if p is Infinite || binary64::whole(p) > usize::MAX {
            usize::MAX as nat
        } else {
            binary64::whole(p)
        };
        if n == 0 {
            1
        } else {
            n
        }
    }
}

/// The bars of one row: what it asks for, cut off at the field.
pub open spec fn bars_of(u: Units, scale: Binary64, field: usize) -> Bars {
    let l = cells_wanted(u.left, scale);
    let r = cells_wanted(u.right, scale);
    Bars {
        left: if l <= field {
            l as usize
        } else {
            field
        },
        right: if r <= field {
            r as usize
        } else {
            field
        },
        overflowed: l > field || r > field,
    }
}

/// Where a row sits relative to break-even, before any scaling.
pub fn units(reclaimable_bytes: u64, rebuild_seconds: u32, rate: u64) -> (r: Units)
    ensures
        r == units_of(reclaimable_bytes, rebuild_seconds, rate),
        r.valid(),
{
    let mb = match from_u64(reclaimable_bytes) {
        Binary64::Normal { m, e } => Binary64::Normal { m, e: e - 20 },
        other => other,
    };
    let fair = match from_bits(rate) {
        Some(Binary64::Zero) => Binary64::Normal { m: LEAST, e: -1074 },
        Some(x) => x,
        None => Binary64::Normal { m: LEAST, e: -1074 },
    };
    assert(fair == effective_rate(rate));
    let goal = multiply(from_u64(rebuild_seconds as u64), fair);
    Units { left: square_root(mb), right: square_root(goal) }
}

proof fn lemma_widest(rows: Seq<Units>)
    requires
        forall|i: int| 0 <= i < rows.len() ==> (#[trigger] rows[i]).valid(),
    ensures
        root_sized(widest(rows)),
        forall|i: int|
            0 <= i < rows.len() ==> (#[trigger] rows[i]).left.bits() <= widest(rows).bits()
                && rows[i].right.bits() <= widest(rows).bits(),
        widest(rows) is Zero || exists|i: int|
            0 <= i < rows.len() && ((#[trigger] rows[i]).left == widest(rows) || rows[i].right
                == widest(rows)),
    decreases rows.len(),
{
    if rows.len() > 0 {
        let shorter = rows.drop_last();
        assert forall|i: int| 0 <= i < shorter.len() implies (#[trigger] shorter[i]).valid() by {
            assert(shorter[i] == rows[i]);
        }
        lemma_widest(shorter);
        assert(rows.last() == rows[rows.len() - 1]);
        if widest(rows) == widest(shorter) && !(widest(rows) is Zero) {
            let i = choose|i: int|
                0 <= i < shorter.len() && ((#[trigger] shorter[i]).left == widest(shorter)
                    || shorter[i].right == widest(shorter));
            assert(shorter[i] == rows[i]);
        }
        assert forall|i: int| 0 <= i < rows.len() implies (#[trigger] rows[i]).left.bits()
            <= widest(rows).bits() && rows[i].right.bits() <= widest(rows).bits() by {
            if i < rows.len() - 1 {
                assert(shorter[i] == rows[i]);
            }
        }
    }
}

/// Cells per unit such that the largest magnitude in `rows` fills `field`. Shared
/// by both sides of every row.
pub fn scale_for(rows: &Vec<Units>, field: usize) -> (r: Binary64)
    requires
        forall|i: int| 0 <= i < rows@.len() ==> (#[trigger] rows@[i]).valid(),
    ensures
        r == scale_of(rows@, field),
        r.valid(),
{
    let mut top = Binary64::Zero;
    let mut i: usize = 0;
    while i < rows.len()
        invariant
            i <= rows@.len(),
            forall|k: int| 0 <= k < rows@.len() ==> (#[trigger] rows@[k]).valid(),
            top == widest(rows@.take(i as int)),
            root_sized(top),
        decreases rows@.len() - i,
    {
        let row = rows[i];
        assert(row.valid());
        top = larger(larger(top, row.left), row.right);
        proof {
            let longer = rows@.take(i + 1);
            assert(longer.drop_last() =~= rows@.take(i as int));
            assert(longer.last() == row);
        }
        i = i + 1;
    }
    assert(rows@.take(i as int) =~= rows@);
    match top {
        Binary64::Zero => Binary64::Zero,
        _ => {
            if field == 0 {
                Binary64::Zero
            } else {
                divide(from_u64(field as u64), top)
            }
        },
    }
}

fn want_cells(magnitude: Binary64, scale: Binary64) -> (r: usize)
    requires
        magnitude.valid(),
        scale.valid(),
    ensures
        r == cells_wanted(magnitude, scale),
{
    match magnitude {
        Binary64::Zero => 0,
        _ => {
            let p = multiply(magnitude, scale);
            proof {
                if let (
                    Binary64::Normal { m: m1, e: e1 },
                    Binary64::Normal { m: m2, e: e2 },
                ) = (magnitude, scale) {
                    assert(p matches Binary64::Normal { e, .. } ==> e >= -4000);
                }
            }
            let n = round_to_word(p);
            if n == 0 {
                1
            } else {
                n
            }
        },
    }
}

/// Converts one row's magnitudes into drawable cell counts. A quantity that is
/// not nothing gets at least one cell.
pub fn bars(u: Units, cols_per_unit: Binary64, field: usize) -> (r: Bars)
    requires
        u.left.valid(),
        u.right.valid(),
        cols_per_unit.valid(),
    ensures
        r == bars_of(u, cols_per_unit, field),
        r.left <= field,
        r.right <= field,
{
    let l = want_cells(u.left, cols_per_unit);
    let r = want_cells(u.right, cols_per_unit);
    Bars {
        left: if l <= field {
            l
        } else {
            field
        },
        right: if r <= field {
            r
        } else {
            field
        },
        overflowed: l > field || r > field,
    }
}

/// The bars of all rows of a chart, on the scale that fills the field.
pub open spec fn drawn(rows: Seq<Units>, field: usize) -> Seq<Bars> {
    rows.map_values(|u: Units| bars_of(u, scale_of(rows, field), field))
}

/// Draws all rows of a chart on one scale.
pub fn draw(rows: &Vec<Units>, field: usize) -> (r: Vec<Bars>)
    requires
        forall|i: int| 0 <= i < rows@.len() ==> (#[trigger] rows@[i]).valid(),
    ensures
        r@ == drawn(rows@, field),
{
    let scale = scale_for(rows, field);
    let mut r: Vec<Bars> = Vec::new();
    let mut i: usize = 0;
    while i < rows.len()
        invariant
            i <= rows@.len(),
            r@.len() == i,
            scale == scale_of(rows@, field),
            scale.valid(),
            forall|k: int| 0 <= k < rows@.len() ==> (#[trigger] rows@[k]).valid(),
            forall|k: int| 0 <= k < i ==> #[trigger] r@[k] == bars_of(rows@[k], scale, field),
        decreases rows@.len() - i,
    {
        assert(rows@[i as int].valid());
        r.push(bars(rows[i], scale, field));
        i = i + 1;
    }
    assert(r@ =~= drawn(rows@, field));
    r
}

/// The first row from `i` on that does not lean left.
pub open spec fn first_not_leaning(rows: Seq<Bars>, i: int) -> Option<usize>
    decreases rows.len() - i,
{
    if i >= rows.len() {
        None
    } else if !rows[i].leans() {
        Some(i as usize)
    } else {
        first_not_leaning(rows, i + 1)
    }
}

/// All rows lean left before the first that does not.
pub proof fn lemma_first_not_leaning(rows: Seq<Bars>, i: int)
    requires
        0 <= i,
        rows.len() <= usize::MAX,
    ensures
        first_not_leaning(rows, i) matches Some(at) ==> i <= at < rows.len() && !rows[at as int].leans() && forall|k: int|
            i <= k < at ==> (#[trigger] rows[k]).leans(),
        first_not_leaning(rows, i) is None ==> forall|k: int|
            i <= k < rows.len() ==> (#[trigger] rows[k]).leans(),
    decreases rows.len() - i,
{
    if i < rows.len() && rows[i].leans() {
        lemma_first_not_leaning(rows, i + 1);
    }
}

/// Index of the first row that does not lean left, which is where the break-even
/// rule is drawn. `None` when every row leans left.
pub fn break_even_at(rows: &Vec<Bars>) -> (r: Option<usize>)
    ensures
        r == first_not_leaning(rows@, 0),
        r matches Some(i) ==> i < rows@.len() && !rows@[i as int].leans() && forall|k: int|
            0 <= k < i ==> (#[trigger] rows@[k]).leans(),
        r is None ==> forall|k: int| 0 <= k < rows@.len() ==> (#[trigger] rows@[k]).leans(),
{
    let mut i: usize = 0;
    while i < rows.len()
        invariant
            i <= rows@.len(),
            first_not_leaning(rows@, 0) == first_not_leaning(rows@, i as int),
            forall|k: int| 0 <= k < i ==> (#[trigger] rows@[k]).leans(),
        decreases rows@.len() - i,
    {
        if !rows[i].leans_left() {
            return Some(i);
        }
        i = i + 1;
    }
    None
}

/// Text cut to a width with its head kept and an ellipsis behind.
pub open spec fn head_kept(s: Seq<char>, width: nat) -> Seq<char> {
    if s.len() <= width {
        s
    } else if width == 0 {
        Seq::empty()
    } else {
        s.take(width - 1).push('…')
    }
}

/// Text cut to a width with its tail kept and an ellipsis in front.
pub open spec fn tail_kept(s: Seq<char>, width: nat) -> Seq<char> {
    if s.len() <= width {
        s
    } else if width == 0 {
        Seq::empty()
    } else {
        seq!['…'] + s.skip(s.len() - (width - 1))
    }
}

/// Truncates keeping the *head*: for commands, whose start tells what will run.
pub fn truncate_right(s: &str, width: usize) -> (r: String)
    ensures
        r@ == head_kept(s@, width as nat),
        r@.len() <= width,
{
    let v = chars_of(s);
    if v.len() <= width {
        return s.to_owned();
    }
    if width <= 1 {
        let mut r = String::new();
        push_repeated(&mut r, '…', width);
        assert(r@ =~= head_kept(s@, width as nat));
        return r;
    }
    let mut r = text_of(&v, 0, width - 1);
    r.push('…');
    assert(r@ =~= head_kept(s@, width as nat));
    r
}

/// Truncates keeping the *tail*: for paths, whose end tells them apart.
pub fn truncate_left(s: &str, width: usize) -> (r: String)
    ensures
        r@ == tail_kept(s@, width as nat),
        r@.len() <= width,
{
    let v = chars_of(s);
    if v.len() <= width {
        return s.to_owned();
    }
    if width <= 1 {
        let mut r = String::new();
        push_repeated(&mut r, '…', width);
        assert(r@ =~= tail_kept(s@, width as nat));
        return r;
    }
    let mut r = String::new();
    r.push('…');
    let tail = text_of(&v, v.len() - (width - 1), v.len());
    r.append(tail.as_str());
    assert(r@ =~= tail_kept(s@, width as nat));
    r
}

/// The magnitudes of every row are ones that can be drawn.
pub proof fn units_are_valid(bytes: u64, seconds: u32, rate: u64)
    ensures
        units_of(bytes, seconds, rate).valid(),
        megabytes(bytes).valid(),
        fair_return(seconds, rate).valid(),
{
    binary64::words_can_be_held(bytes as nat);
    binary64::words_can_be_held(seconds as nat);
    assert(effective_rate(rate).valid()) by {
        if LEAST <= rate < INFINITY_BITS {
            assert(1 <= rate / LEAST < 2047);
        }
    }
    binary64::products_can_be_held(binary64::of_nat(seconds as nat), effective_rate(rate));
    binary64::roots_can_be_held(megabytes(bytes));
    binary64::roots_can_be_held(fair_return(seconds, rate));
}

/// A larger magnitude does not ask for fewer cells at the same scale.
pub proof fn more_is_not_drawn_shorter(a: Binary64, b: Binary64, scale: Binary64)
    requires
        a.valid(),
        b.valid(),
        scale.valid(),
        a.bits() <= b.bits(),
    ensures
        cells_wanted(a, scale) <= cells_wanted(b, scale),
{
    binary64::bits_are_in_order(a, b);
    binary64::products_are_in_order(a, b, scale);
    binary64::products_are_in_order(b, b, scale);
    if !(binary64::product(b, scale) is Infinite) {
        binary64::wholes_are_in_order(
            binary64::product(a, scale),
            binary64::product(b, scale),
        );
    }
}

/// Whatever the scale and the field, a row is only drawn leaning left if its space
/// magnitude is the larger one: no choice of width makes a row look better than it
/// is.
pub proof fn scaling_never_invents_a_lean(u: Units, scale: Binary64, field: usize)
    requires
        u.left.valid(),
        u.right.valid(),
        scale.valid(),
        bars_of(u, scale, field).leans(),
    ensures
        u.left.bits() > u.right.bits(),
{
    if u.left.bits() <= u.right.bits() {
        more_is_not_drawn_shorter(u.left, u.right, scale);
    }
}

/// Whatever the scale and the field, a row whose time bar is drawn longer has the
/// larger time magnitude: no choice of width makes a row look worse than it is.
pub proof fn scaling_never_invents_a_lean_to_the_right(u: Units, scale: Binary64, field: usize)
    requires
        u.left.valid(),
        u.right.valid(),
        scale.valid(),
        bars_of(u, scale, field).right > bars_of(u, scale, field).left,
    ensures
        u.right.bits() > u.left.bits(),
{
    if u.right.bits() <= u.left.bits() {
        more_is_not_drawn_shorter(u.right, u.left, scale);
    }
}

/// A row that leans left returns more megabytes than the reference rate asks for
/// its rebuild time.
pub proof fn leaning_left_beats_the_rate(
    bytes: u64,
    seconds: u32,
    rate: u64,
    scale: Binary64,
    field: usize,
)
    requires
        scale.valid(),
        bars_of(units_of(bytes, seconds, rate), scale, field).leans(),
    ensures
        megabytes(bytes).bits() > fair_return(seconds, rate).bits(),
{
    units_are_valid(bytes, seconds, rate);
    scaling_never_invents_a_lean(units_of(bytes, seconds, rate), scale, field);
    let a = megabytes(bytes);
    let b = fair_return(seconds, rate);
    if a.bits() <= b.bits() {
        binary64::bits_are_in_order(a, b);
        binary64::roots_are_in_order(a, b);
        binary64::bits_are_in_order(binary64::root(a), binary64::root(b));
    }
}

/// A row that returns exactly the reference rate balances: both bars are equal,
/// whatever the scale, and it does not lean.
pub proof fn break_even_is_symmetric(
    bytes: u64,
    seconds: u32,
    rate: u64,
    scale: Binary64,
    field: usize,
)
    requires
        megabytes(bytes) == fair_return(seconds, rate),
    ensures
        units_of(bytes, seconds, rate).left == units_of(bytes, seconds, rate).right,
        ({
            let b = bars_of(units_of(bytes, seconds, rate), scale, field);
            b.left == b.right && !b.leans()
        }),
{
}

/// What is not nothing is always drawn, and nothing never is.
pub proof fn only_nothing_is_not_drawn(u: Units, scale: Binary64, field: usize)
    requires
        field > 0,
    ensures
        bars_of(u, scale, field).left == 0 <==> u.left is Zero,
        bars_of(u, scale, field).right == 0 <==> u.right is Zero,
{
}

/// The longest bar of a chart fills the field, and none needs more than that. A
/// field of `2^51` cells or more would leave no room to tell halves of a cell
/// apart.
pub proof fn the_longest_bar_fills_the_field(rows: Seq<Units>, field: usize)
    requires
        forall|i: int| 0 <= i < rows.len() ==> (#[trigger] rows[i]).valid(),
        widest(rows) is Normal,
        0 < field,
        2 * field < LEAST,
    ensures
        exists|i: int|
            0 <= i < rows.len() && ((#[trigger] drawn(rows, field)[i]).left == field || drawn(
                rows,
                field,
            )[i].right == field),
        forall|i: int| 0 <= i < rows.len() ==> !(#[trigger] drawn(rows, field)[i]).overflowed,
{
    let top = widest(rows);
    let scale = scale_of(rows, field);
    lemma_widest(rows);
    binary64::words_can_be_held(field as nat);
    binary64::quotients_can_be_held(binary64::of_nat(field as nat), top);
    binary64::multiplying_undoes_dividing(field as nat, top);
    assert(cells_wanted(top, scale) == field);
    assert forall|i: int| 0 <= i < rows.len() implies !(#[trigger] drawn(
        rows,
        field,
    )[i]).overflowed by {
        assert(rows[i].valid());
        more_is_not_drawn_shorter(rows[i].left, top, scale);
        more_is_not_drawn_shorter(rows[i].right, top, scale);
    }
    let i = choose|i: int|
        0 <= i < rows.len() && ((#[trigger] rows[i]).left == top || rows[i].right == top);
    assert(drawn(rows, field)[i] == bars_of(rows[i], scale, field));
}

/// The scale of a chart is a number that can be held.
pub proof fn scales_can_be_held(rows: Seq<Units>, field: usize)
    requires
        forall|i: int| 0 <= i < rows.len() ==> (#[trigger] rows[i]).valid(),
    ensures
        scale_of(rows, field).valid(),
{
    lemma_widest(rows);
    binary64::words_can_be_held(field as nat);
    binary64::quotients_can_be_held(binary64::of_nat(field as nat), widest(rows));
}

/// A row leans left exactly when its bar on the left is the longer one.
pub proof fn leaning_is_having_the_longer_bar(b: Bars)
    ensures
        b.leans() <==> b.left > b.right,
{
}

} // verus!
