//! The colours.
use forcefree::palette::{
    dim, emphasis, held_back, push_closing, push_opening, push_painted, space_freed, structure,
    time_cost, Paint,
};

fn all(truecolor: bool) -> [Paint; 6] {
    [
        space_freed(truecolor),
        time_cost(truecolor),
        held_back(truecolor),
        structure(truecolor),
        emphasis(truecolor),
        dim(),
    ]
}

#[test]
fn no_role_sets_a_background() {
    for truecolor in [false, true] {
        for style in all(truecolor) {
            assert!(
                style.get_bg_color().is_none(),
                "{style:?} sets a background"
            );
        }
    }
}

#[test]
fn the_two_quantities_are_distinguishable() {
    for truecolor in [false, true] {
        assert_ne!(
            space_freed(truecolor).get_fg_color(),
            time_cost(truecolor).get_fg_color()
        );
    }
}

#[test]
fn every_coloured_role_resolves_to_a_colour() {
    for truecolor in [false, true] {
        for style in [
            space_freed(truecolor),
            time_cost(truecolor),
            held_back(truecolor),
            structure(truecolor),
            emphasis(truecolor),
        ] {
            assert!(style.get_fg_color().is_some(), "{style:?} has no colour");
        }
    }
}

fn opened(p: Paint) -> String {
    let mut s = String::new();
    push_opening(&mut s, p);
    s
}

#[test]
fn every_role_has_its_escape_sequence() {
    assert_eq!(opened(space_freed(false)), "\u{1b}[32m");
    assert_eq!(opened(time_cost(false)), "\u{1b}[33m");
    assert_eq!(opened(held_back(false)), "\u{1b}[31m");
    assert_eq!(opened(structure(false)), "\u{1b}[90m");
    assert_eq!(opened(emphasis(false)), "\u{1b}[37m");
    assert_eq!(opened(dim()), "\u{1b}[2m");
    assert_eq!(opened(space_freed(true)), "\u{1b}[38;2;110;152;135m");
    assert_eq!(opened(time_cost(true)), "\u{1b}[38;2;198;139;60m");
    assert_eq!(opened(held_back(true)), "\u{1b}[38;2;158;74;74m");
    assert_eq!(opened(structure(true)), "\u{1b}[38;2;92;99;112m");
    assert_eq!(opened(emphasis(true)), "\u{1b}[38;2;207;200;186m");
}

#[test]
fn painting_ends_with_a_reset() {
    let mut s = String::from("a");
    push_painted(&mut s, dim(), "b");
    assert_eq!(s, "a\u{1b}[2mb\u{1b}[0m");
    push_closing(&mut s);
    assert_eq!(s, "a\u{1b}[2mb\u{1b}[0m\u{1b}[0m");
}
