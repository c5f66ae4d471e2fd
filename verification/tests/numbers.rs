//! Double precision numbers and ranking, held against the machine's.
use forcefree::binary64::{
    divide, from_bits, from_u64, larger, multiply, round_to_word, square_root, Binary64,
};
use forcefree::ranking::rank;

fn of(x: f64) -> Binary64 {
    from_bits(x.to_bits()).unwrap()
}

fn samples() -> Vec<f64> {
    let mut v = vec![
        0.0,
        1.0,
        2.0,
        3.0,
        0.1,
        1.0 / 3.0,
        1e300,
        1e-300,
        f64::MAX,
        f64::MIN_POSITIVE,
        123456789.0,
        0.5,
        1.5,
        2.5,
        4503599627370497.5,
        9007199254740993.0,
        f64::INFINITY,
    ];
    // A walk over many exponents and digits.
    let mut x: u64 = 0x9E37_79B9_7F4A_7C15;
    for _ in 0..200 {
        x ^= x << 13;
        x ^= x >> 7;
        x ^= x << 17;
        let f = f64::from_bits(x & 0x7FFF_FFFF_FFFF_FFFF);
        if f.is_normal() {
            v.push(f);
        }
    }
    v
}

#[test]
fn bits_come_back() {
    for x in samples() {
        assert_eq!(of(x).to_bits(), x.to_bits());
    }
    assert!(from_bits(f64::NAN.to_bits()).is_none());
    assert!(from_bits(5e-324f64.to_bits()).is_none());
    assert!(from_bits((-1.0f64).to_bits()).is_none());
}

#[test]
fn whole_numbers_are_held_like_the_machine_does() {
    for n in [
        0u64,
        1,
        2,
        3,
        999,
        1 << 52,
        (1 << 53) + 1,
        (1 << 53) + 3,
        u64::MAX,
        u64::MAX - 1024,
        u64::MAX - 1025,
        12_345_678_901_234_567,
    ] {
        assert_eq!(from_u64(n).to_bits(), (n as f64).to_bits(), "{n}");
    }
}

#[test]
fn products_and_roots_are_the_machines() {
    let all = samples();
    for &a in &all {
        assert_eq!(square_root(of(a)).to_bits(), a.sqrt().to_bits(), "√{a}");
        for &b in &all {
            let product = a * b;
            if product.is_normal() || product.is_infinite() || a == 0.0 && b.is_finite() {
                assert_eq!(
                    multiply(of(a), of(b)).to_bits(),
                    product.to_bits(),
                    "{a}·{b}"
                );
            }
        }
    }
}

#[test]
fn quotients_are_the_machines() {
    let all = samples();
    for &a in &all {
        for &b in &all {
            if a.is_finite() && b > 0.0 && (a == 0.0 || b.is_infinite() || a / b > 1e-290) {
                assert_eq!(
                    divide(of(a), of(b)).to_bits(),
                    (a / b).to_bits(),
                    "{a}/{b}"
                );
            }
        }
    }
}

#[test]
fn rounding_goes_away_from_zero_at_halves() {
    for x in [0.0, 0.4, 0.5, 0.6, 1.5, 2.5, 16.49, 16.5, 1e15, 1e30, 1e-300] {
        assert_eq!(round_to_word(of(x)), x.round() as usize, "{x}");
    }
}

#[test]
fn larger_and_order_agree_with_the_machine() {
    let all = samples();
    for &a in &all {
        for &b in &all {
            assert_eq!(of(a) < of(b), a < b);
            assert_eq!(larger(of(a), of(b)).to_bits(), a.max(b).to_bits());
        }
    }
}

#[test]
fn ranking_is_stable_and_descending() {
    assert_eq!(rank(&vec![3, 9, 3, 0, 9]), vec![1, 4, 0, 2, 3]);
    assert_eq!(rank(&vec![]), Vec::<usize>::new());
    assert_eq!(rank(&vec![7]), vec![0]);
}
