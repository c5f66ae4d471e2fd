//! Figures as they are shown: sizes and durations.
use crate::binary64;
use crate::binary64::{hold, nearest_of};
use crate::scan::{Target, TargetView};
use crate::text;
use crate::text::push_decimal;
use vstd::prelude::*;
use vstd::string::*;

verus! {

/// How many bytes one of the units has, counting from bytes.
pub open spec fn unit_size(i: nat) -> nat {
    if i == 0 {
        1
    } else if i == 1 {
        0x400
    } else if i == 2 {
        0x10_0000
    } else if i == 3 {
        0x4000_0000
    } else {
        0x100_0000_0000
    }
}

/// The name of one of the units.
pub open spec fn unit_name(i: nat) -> Seq<char> {
    if i == 0 {
        "B"@
    } else if i == 1 {
        "KB"@
    } else if i == 2 {
        "MB"@
    } else if i == 3 {
        "GB"@
    } else {
        "TB"@
    }
}

/// The largest of the units that a size reaches.
pub open spec fn unit_of(size: nat) -> nat {
    if size >= unit_size(4) {
        4
    } else if size >= unit_size(3) {
        3
    } else if size >= unit_size(2) {
        2
    } else if size >= unit_size(1) {
        1
    } else {
        0
    }
}

/// A size: whole bytes, or tenths of the largest unit that it reaches. It is first
/// brought to the nearest number that double precision holds.
pub open spec fn bytes_text(n: nat) -> Seq<char> {
    let size = binary64::held(n);
    let i = unit_of(size);
    if i == 0 {
        text::decimal(n) + " "@ + unit_name(0)
    } else {
        let tenths = binary64::nearest(10 * size, unit_size(i));
        text::decimal(tenths / 10) + "."@ + text::decimal(tenths % 10) + " "@ + unit_name(i)
    }
}

/// A size for people to read.
pub fn bytes(n: u64) -> (r: String)
    ensures
        r@ == bytes_text(n as nat),
{
    let size: u128 = hold(n);
    let (unit, name): (u128, &str) = if size >= 0x100_0000_0000 {
        (0x100_0000_0000, "TB")
    } else if size >= 0x4000_0000 {
        (0x4000_0000, "GB")
    } else if size >= 0x10_0000 {
        (0x10_0000, "MB")
    } else if size >= 0x400 {
        (0x400, "KB")
    } else {
        let mut r = String::new();
        push_decimal(&mut r, n);
        r.append(" ");
        r.append("B");
        assert(r@ =~= bytes_text(n as nat));
        return r;
    };
    let tenths: u128 = nearest_of(10 * size, unit);
    proof {
        binary64::lemma_nearest_is_close(10 * size as nat, unit as nat);
        assert(tenths <= 10 * size) by (nonlinear_arith)
            requires
                (tenths - 1) * unit < 10 * size,
                unit >= 2,
                size > 0,
                tenths >= 0,
        ;
    }
    assert(tenths / 10 <= u64::MAX) by (nonlinear_arith)
        requires
            (tenths - 1) * unit < 10 * size,
            unit >= 0x400,
            size <= 0x1_0000_0000_0000_0000,
            tenths >= 0,
    ;
    let mut r = String::new();
    push_decimal(&mut r, (tenths / 10) as u64);
    r.append(".");
    push_decimal(&mut r, (tenths % 10) as u64);
    r.append(" ");
    r.append(name);
    assert(r@ =~= bytes_text(n as nat));
    r
}

/// A duration in its two largest units, the smaller left out where it is zero.
pub open spec fn duration_text(secs: nat) -> Seq<char> {
    if secs < 60 {
        text::decimal(secs) + "s"@
    } else if secs < 3600 {
        if secs % 60 == 0 {
            text::decimal(secs / 60) + "m"@
        } else {
            text::decimal(secs / 60) + "m "@ + text::decimal(secs % 60) + "s"@
        }
    } else {
        if (secs % 3600) / 60 == 0 {
            text::decimal(secs / 3600) + "h"@
        } else {
            text::decimal(secs / 3600) + "h "@ + text::decimal((secs % 3600) / 60) + "m"@
        }
    }
}

/// A duration for people to read.
pub fn duration(secs: u64) -> (r: String)
    ensures
        r@ == duration_text(secs as nat),
{
    let mut r = String::new();
    if secs < 60 {
        push_decimal(&mut r, secs);
        r.append("s");
    } else if secs < 3600 {
        push_decimal(&mut r, secs / 60);
        if secs % 60 == 0 {
            r.append("m");
        } else {
            r.append("m ");
            push_decimal(&mut r, secs % 60);
            r.append("s");
        }
    } else {
        push_decimal(&mut r, secs / 3600);
        if (secs % 3600) / 60 == 0 {
            r.append("h");
        } else {
            r.append("h ");
            push_decimal(&mut r, (secs % 3600) / 60);
            r.append("m");
        }
    }
    assert(r@ =~= duration_text(secs as nat));
    r
}

/// The size of a target. One that could not be measured completely is marked `~`.
pub open spec fn size_text(t: TargetView) -> Seq<char> {
    if t.unreadable > 0 {
        "~"@ + bytes_text(t.reclaimable() as nat)
    } else {
        bytes_text(t.reclaimable() as nat)
    }
}

/// What a target returns, never presented as exact if it is not.
pub fn size_of(t: &Target) -> (r: String)
    ensures
        r@ == size_text(t@),
{
    let n = bytes(t.reclaimable_bytes());
    if t.unreadable > 0 {
        let mut r = String::new();
        r.append("~");
        r.append(n.as_str());
        assert(r@ =~= size_text(t@));
        r
    } else {
        n
    }
}

/// Every duration below a hundred hours takes up seven columns at most.
pub proof fn durations_fit(secs: nat)
    requires
        secs < 360000,
    ensures
        duration_text(secs).len() <= 7,
{
    reveal_strlit("s");
    reveal_strlit("m");
    reveal_strlit("m ");
    reveal_strlit("h");
    reveal_strlit("h ");
    reveal_with_fuel(text::power_of_ten, 5);
    text::lemma_decimal_len(secs % 60, 2);
    if secs < 60 {
        text::lemma_decimal_len(secs, 2);
    } else if secs < 3600 {
        text::lemma_decimal_len(secs / 60, 2);
    } else {
        text::lemma_decimal_len(secs / 3600, 2);
        text::lemma_decimal_len((secs % 3600) / 60, 2);
    }
}

/// Every size below ten thousand terabytes takes up nine columns at most.
pub proof fn sizes_fit(n: nat)
    requires
        n < 9999 * unit_size(4),
    ensures
        bytes_text(n).len() <= 9,
{
    reveal_strlit(" ");
    reveal_strlit(".");
    reveal_strlit("B");
    reveal_strlit("KB");
    reveal_strlit("MB");
    reveal_strlit("GB");
    reveal_strlit("TB");
    reveal_with_fuel(text::power_of_ten, 5);
    binary64::lemma_held_is_close(n);
    let size = binary64::held(n);
    let i = unit_of(size);
    if i == 0 {
        text::lemma_decimal_len(n, 4);
    } else {
        let d = unit_size(i);
        let tenths = binary64::nearest(10 * size, d);
        binary64::lemma_nearest_is_close(10 * size, d);
        assert(size <= n + 3);
        assert(tenths / 10 < 10000) by (nonlinear_arith)
            requires
                (tenths - 1) * d < 10 * size,
                size <= 9999 * d + 3,
                d >= 0x400,
        ;
        text::lemma_decimal_len(tenths / 10, 4);
        text::lemma_decimal_len(tenths % 10, 1);
    }
}

/// No size that can be measured takes more than thirteen columns, or fourteen with the
/// mark of a lower bound.
pub proof fn no_size_is_wider(t: TargetView)
    ensures
        size_text(t).len() <= 14,
{
    reveal_strlit("~");
    reveal_strlit(" ");
    reveal_strlit(".");
    reveal_strlit("B");
    reveal_strlit("KB");
    reveal_strlit("MB");
    reveal_strlit("GB");
    reveal_strlit("TB");
    reveal_with_fuel(text::power_of_ten, 9);
    let n = t.reclaimable() as nat;
    binary64::lemma_held_is_close(n);
    let size = binary64::held(n);
    let i = unit_of(size);
    if i == 0 {
        text::lemma_decimal_len(n, 4);
    } else {
        let d = unit_size(i);
        let tenths = binary64::nearest(10 * size, d);
        binary64::lemma_nearest_is_close(10 * size, d);
        assert(size <= 0x100_0001 * d);
        assert(tenths / 10 < 100000000) by (nonlinear_arith)
            requires
                (tenths - 1) * d < 10 * size,
                size <= 0x100_0001 * d,
                d >= 0x400,
        ;
        text::lemma_decimal_len(tenths / 10, 8);
        text::lemma_decimal_len(tenths % 10, 1);
    }
}

/// A size is shown in tenths of the largest unit that it reaches, and no tenth is nearer,
/// as long as double precision holds it; below a thousand and twenty-four it is exact.
pub proof fn sizes_are_shown_to_the_tenth(n: nat) -> (r: (nat, nat))
    requires
        n < binary64::LIMIT,
    ensures
        n < 1024 ==> bytes_text(n) == text::decimal(n) + " B"@,
        n >= 1024 ==> ({
            let (unit, tenths) = r;
            let name = if unit == 0x400 {
                " KB"@
            } else if unit == 0x10_0000 {
                " MB"@
            } else if unit == 0x4000_0000 {
                " GB"@
            } else {
                " TB"@
            };
            &&& unit == 0x400 || unit == 0x10_0000 || unit == 0x4000_0000 || unit
                == 0x100_0000_0000
            &&& unit <= n
            &&& n < 1024 * unit || unit == 0x100_0000_0000
            &&& 2 * (10 * n - tenths * unit) <= unit
            &&& 2 * (tenths * unit - 10 * n) <= unit
            &&& bytes_text(n) == text::decimal(tenths / 10) + "."@ + text::decimal(tenths % 10)
                + name
        }),
{
    reveal_strlit(" ");
    reveal_strlit("B");
    reveal_strlit("KB");
    reveal_strlit("MB");
    reveal_strlit("GB");
    reveal_strlit("TB");
    reveal_strlit(" B");
    reveal_strlit(" KB");
    reveal_strlit(" MB");
    reveal_strlit(" GB");
    reveal_strlit(" TB");
    binary64::lemma_held_is_close(n);
    let i = unit_of(n);
    let unit = unit_size(i);
    let tenths = binary64::nearest(10 * n, unit);
    if n < 1024 {
        assert(bytes_text(n) =~= text::decimal(n) + " B"@);
    } else {
        let q = (10 * n) / unit;
        let rest = (10 * n) % unit;
        assert(10 * n == q * unit + rest && 0 <= rest < unit) by (nonlinear_arith)
            requires
                unit > 0,
                q == (10 * n) / unit,
                rest == (10 * n) % unit,
        ;
        assert((q + 1) * unit == q * unit + unit) by (nonlinear_arith);
        let name = " "@ + unit_name(i);
        let whole = text::decimal(tenths / 10) + "."@ + text::decimal(tenths % 10);
        assert(whole + " "@ + unit_name(i) =~= whole + name);
        assert(" "@ + "KB"@ =~= " KB"@);
        assert(" "@ + "MB"@ =~= " MB"@);
        assert(" "@ + "GB"@ =~= " GB"@);
        assert(" "@ + "TB"@ =~= " TB"@);
    }
    (unit, tenths)
}

/// A duration is shown in its two largest units, and what is left out is less than one
/// of the smaller.
pub proof fn durations_are_shown_in_two_units(secs: nat) -> (r: (nat, nat))
    ensures
        secs < 60 ==> duration_text(secs) == text::decimal(secs) + "s"@,
        60 <= secs < 3600 ==> ({
            let (m, s) = r;
            &&& secs == 60 * m + s
            &&& s < 60
            &&& duration_text(secs) == if s == 0 {
                text::decimal(m) + "m"@
            } else {
                text::decimal(m) + "m "@ + text::decimal(s) + "s"@
            }
        }),
        secs >= 3600 ==> ({
            let (h, m) = r;
            &&& 3600 * h + 60 * m <= secs < 3600 * h + 60 * m + 60
            &&& m < 60
            &&& duration_text(secs) == if m == 0 {
                text::decimal(h) + "h"@
            } else {
                text::decimal(h) + "h "@ + text::decimal(m) + "m"@
            }
        }),
{
    if secs < 3600 {
        (secs / 60, secs % 60)
    } else {
        (secs / 3600, (secs % 3600) / 60)
    }
}

} // verus!
