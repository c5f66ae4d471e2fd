//! The geometry of the chart.
use forcefree::binary64::{from_bits, Binary64};
use forcefree::chart::{
    bars, break_even_at, draw, scale_for, truncate_left, truncate_right, units, Bars, Units,
    DEFAULT_WORTH_RATE,
};

const MB: u64 = 1_048_576;
const FIELD: usize = 18;

fn row(mb: u64, secs: u32) -> Units {
    units(mb * MB, secs, DEFAULT_WORTH_RATE)
}

fn drawn(rows: &[Units]) -> Vec<Bars> {
    let rows = rows.to_vec();
    let scale = scale_for(&rows, FIELD);
    rows.iter().map(|u| bars(*u, scale, FIELD)).collect()
}

fn number(x: f64) -> Binary64 {
    from_bits(x.to_bits()).unwrap()
}

fn value(x: Binary64) -> f64 {
    f64::from_bits(x.to_bits())
}

#[test]
fn break_even_row_is_symmetric() {
    // 3 MB/s for 100 s = 300 MB.
    let u = row(300, 100);
    assert!((value(u.left) - value(u.right)).abs() < 1e-9, "{u:?}");

    let b = bars(u, scale_for(&vec![u], FIELD), FIELD);
    assert_eq!(b.left, b.right);
    assert!(!b.leans_left(), "exact break-even is not a win");
}

#[test]
fn rounding_never_tips_a_row() {
    // What exactly the rate asks, one byte more and one byte less.
    for (rate, unit) in [(3.0f64, 3 * MB), (0.5, MB / 2), (0.09375, 98_304)] {
        for seconds in [1u32, 7, 100, 3_601, u32::MAX] {
            let even = unit * seconds as u64;
            for field in [0usize, 6, 18, 400] {
                for scale in [1e-9, 0.3, 1.0, 7.7e12] {
                    let at = |bytes: u64| {
                        bars(units(bytes, seconds, rate.to_bits()), number(scale), field)
                    };
                    let b = at(even);
                    assert_eq!(b.left, b.right, "{rate} {seconds}");
                    assert!(!b.leans_left());
                    assert!(at(even + 1).left >= at(even + 1).right);
                    assert!(!at(even - 1).leans_left());
                }
            }
        }
    }
}

#[test]
fn any_finite_magnitude_is_drawn() {
    let huge = Units {
        left: number(2f64.powi(552)),
        right: number(1.0),
    };
    let b = bars(huge, number(1.0), FIELD);
    assert_eq!((b.left, b.right, b.overflowed), (FIELD, 1, true));
    let b = bars(huge, number(2f64.powi(-551)), FIELD);
    assert_eq!((b.left, b.right, b.overflowed), (2, 1, false));
}

#[test]
fn better_than_reference_leans_left() {
    let b = drawn(&[row(420, 45)]);
    assert!(b[0].leans_left(), "{:?}", b[0]);
}

#[test]
fn worse_than_reference_leans_right() {
    let b = drawn(&[row(230, 600)]);
    assert!(!b[0].leans_left(), "{:?}", b[0]);
    assert!(b[0].right > b[0].left);
}

#[test]
fn scaling_preserves_the_balance_point() {
    let rows = vec![row(420, 45), row(300, 100), row(230, 600), row(20, 300)];
    let tight = scale_for(&rows, 8);
    let wide = scale_for(&rows, 40);

    for u in rows {
        let a = bars(u, tight, 8);
        let b = bars(u, wide, 40);
        assert_eq!(
            a.leans_left(),
            b.leans_left(),
            "lean changed with field width for {u:?}"
        );
    }
}

#[test]
fn oversized_bars_clamp_and_flag_overflow() {
    let u = row(400, 10);
    // A scale far too large for the field.
    let b = bars(u, number(100.0), FIELD);
    assert_eq!(b.left, FIELD);
    assert!(b.overflowed);
}

#[test]
fn a_nonzero_target_never_renders_as_zero_cells() {
    // 4 KB next to a 4 GB neighbour still has to be visible.
    let rows = vec![units(4096, 1, DEFAULT_WORTH_RATE), row(4096, 60)];
    let scale = scale_for(&rows, FIELD);
    let small = bars(rows[0], scale, FIELD);
    assert!(small.left >= 1, "{small:?}");
}

#[test]
fn a_genuinely_empty_side_stays_empty() {
    let b = bars(units(0, 60, DEFAULT_WORTH_RATE), number(1.0), FIELD);
    assert_eq!(b.left, 0);
}

#[test]
fn break_even_is_the_first_row_that_stops_leaning_left() {
    let rows = [row(420, 45), row(439, 60), row(155, 60), row(230, 600)];
    let b = drawn(&rows);
    let at = break_even_at(&b).expect("some row must fall below");
    assert!(b[at - 1].leans_left());
    assert!(!b[at].leans_left());
}

#[test]
fn break_even_is_absent_when_everything_is_worth_doing() {
    let b = drawn(&[row(4096, 45), row(2048, 30)]);
    assert_eq!(break_even_at(&b), None);
}

#[test]
fn commands_truncate_from_the_right_keeping_the_head() {
    assert_eq!(truncate_right("npm ci", 20), "npm ci");
    assert_eq!(
        truncate_right(
            "python -m venv .venv && pip install -r requirements.txt",
            24
        ),
        "python -m venv .venv &&…"
    );
    assert_eq!(truncate_right("abcdef", 3).chars().count(), 3);
}

#[test]
fn paths_truncate_from_the_left_keeping_the_tail() {
    assert_eq!(truncate_left("node_modules", 22), "node_modules");
    assert_eq!(
        truncate_left("Dump/Legacy Furniture Hub/furniture-app/node_modules", 20),
        "…re-app/node_modules"
    );
    assert_eq!(truncate_left("abcdef", 3).chars().count(), 3);
}

#[test]
fn truncation_counts_characters_not_bytes() {
    let s = "проект/node_modules";
    let out = truncate_left(s, 10);
    assert_eq!(out.chars().count(), 10);
}

#[test]
fn no_row_exceeds_the_column_budget() {
    let rows = vec![
        row(8192, 5),
        row(420, 45),
        row(300, 100),
        row(1, 3600),
        units(1, 1, DEFAULT_WORTH_RATE),
    ];
    let scale = scale_for(&rows, FIELD);
    for u in rows {
        let b = bars(u, scale, FIELD);
        assert!(b.left <= FIELD && b.right <= FIELD, "{b:?}");
    }
}

#[test]
fn truncation_to_almost_nothing() {
    assert_eq!(truncate_right("abc", 0), "");
    assert_eq!(truncate_right("abc", 1), "…");
    assert_eq!(truncate_left("abc", 0), "");
    assert_eq!(truncate_left("abc", 1), "…");
    assert_eq!(truncate_left("", 0), "");
}

/// The formulas, written out in the machine's own arithmetic.
fn expected_units(bytes: u64, secs: u32, rate: f64) -> (f64, f64) {
    let mb = bytes as f64 / 1_048_576.0;
    (
        mb.max(0.0).sqrt(),
        (secs as f64 * rate.max(f64::MIN_POSITIVE)).max(0.0).sqrt(),
    )
}

fn expected_cells(magnitude: f64, scale: f64) -> usize {
    if magnitude <= 0.0 {
        return 0;
    }
    ((magnitude * scale).round() as usize).max(1)
}

#[test]
fn units_are_those_of_double_precision() {
    let rates = [
        3.0,
        10.0,
        0.1,
        1e-300,
        1e300,
        f64::INFINITY,
        f64::NAN,
        -4.0,
        0.0,
        5e-324,
    ];
    let sizes = [
        0,
        1,
        4096,
        MB,
        420 * MB,
        999_999_999_999,
        u64::MAX,
        (1 << 53) + 1,
    ];
    for rate in rates {
        for bytes in sizes {
            for secs in [0u32, 1, 45, 600, 86_400, u32::MAX] {
                let u = units(bytes, secs, rate.to_bits());
                let (left, right) = expected_units(bytes, secs, rate);
                assert_eq!(u.left.to_bits(), left.to_bits(), "{bytes} {secs} {rate}");
                assert_eq!(u.right.to_bits(), right.to_bits(), "{bytes} {secs} {rate}");
            }
        }
    }
}

#[test]
fn bars_are_those_of_double_precision() {
    let mut seed: u64 = 0x9E37_79B9_7F4A_7C15;
    let mut next = || {
        seed ^= seed << 13;
        seed ^= seed >> 7;
        seed ^= seed << 17;
        seed
    };
    for _ in 0..300 {
        let rows: Vec<(u64, u32)> = (0..6)
            .map(|_| (next() >> (next() % 50), (next() % 4000) as u32))
            .collect();
        let us: Vec<Units> = rows
            .iter()
            .map(|(b, s)| units(*b, *s, DEFAULT_WORTH_RATE))
            .collect();
        let field = (next() % 40) as usize;
        let plain: Vec<(f64, f64)> = rows
            .iter()
            .map(|(b, s)| expected_units(*b, *s, 3.0))
            .collect();
        let widest = plain
            .iter()
            .flat_map(|u| [u.0, u.1])
            .fold(0.0f64, f64::max);
        let scale = if widest <= 0.0 || field == 0 {
            0.0
        } else {
            field as f64 / widest
        };
        assert_eq!(scale_for(&us, field).to_bits(), scale.to_bits());
        let drawn = draw(&us, field);
        for (i, (l, r)) in plain.iter().enumerate() {
            let (l, r) = (expected_cells(*l, scale), expected_cells(*r, scale));
            assert_eq!(
                drawn[i],
                Bars {
                    left: l.min(field),
                    right: r.min(field),
                    overflowed: l > field || r > field,
                }
            );
        }
    }
}

#[test]
fn the_widest_bar_fills_the_field() {
    for field in [1usize, 6, 16, 18, 30] {
        let rows = vec![row(6700, 180), row(420, 45), row(1, 3600)];
        let b = draw(&rows, field);
        assert_eq!(b.iter().map(|b| b.left.max(b.right)).max(), Some(field));
        assert!(b.iter().all(|b| !b.overflowed));
    }
}
