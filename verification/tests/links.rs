//! Hard link accounting.
use forcefree::links::frees_bytes;

#[test]
fn an_unlinked_file_always_frees_its_bytes() {
    assert!(frees_bytes(1, 1));
}

#[test]
fn links_wholly_inside_the_target_still_free_bytes() {
    assert!(frees_bytes(2, 2));
}

#[test]
fn a_link_outside_the_target_means_nothing_is_freed() {
    assert!(!frees_bytes(2, 1));
    assert!(!frees_bytes(9, 3));
}
