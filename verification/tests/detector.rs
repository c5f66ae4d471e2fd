//! What a detector may say.
use forcefree::detector::{
    check_detector, load_builtin, validate_paths, Detector, DetectorError, Reclaimable,
};

fn reclaimable(path: &str, restore: &str) -> Reclaimable {
    Reclaimable {
        path: path.to_string(),
        restore_command: restore.to_string(),
        rebuild_seconds: 10,
        aggressive_only: false,
    }
}

fn detector(targets: Vec<Reclaimable>) -> Detector {
    Detector {
        id: "x".to_string(),
        name: "X".to_string(),
        markers: vec!["m".to_string()],
        reclaimable: targets,
    }
}

fn detector_with(path: &str, restore: &str) -> Detector {
    detector(vec![reclaimable(path, restore)])
}

fn parse(d: &Detector) -> Result<(), String> {
    validate_paths(d).map_err(|e| e.message())
}

#[test]
fn paths_cannot_escape_the_project_root() {
    for bad in ["../..", "../../etc", "a/../../b", "/etc", "C:\\Windows"] {
        let err = parse(&detector_with(bad, "cmd")).unwrap_err();
        assert!(
            err.contains("absolute") || err.contains("stay inside") || err.contains("backslash"),
            "wrong error for {bad:?}: {err}"
        );
    }
}

#[test]
fn backslash_separators_are_rejected_identically_everywhere() {
    let err = parse(&detector_with("target\\debug", "cargo build")).unwrap_err();
    assert!(err.contains("backslash"), "{err}");
    // The portable spelling is fine.
    assert!(parse(&detector_with("target/debug", "cargo build")).is_ok());
}

#[test]
fn a_path_must_actually_be_something() {
    assert!(parse(&detector_with("", "cmd")).is_err());
    assert!(parse(&detector_with("   ", "cmd")).is_err());
}

#[test]
fn a_target_without_a_restore_command_is_rejected() {
    let err = parse(&detector_with("build", "")).expect_err("empty restore_command must be rejected");
    assert!(err.contains("restore_command"), "{err}");
}

#[test]
fn overlapping_targets_are_rejected() {
    let err = parse(&detector(vec![
        reclaimable("build", "c"),
        reclaimable("build/cache", "c"),
    ]))
    .expect_err("overlap must be rejected");
    assert!(err.contains("overlap"), "{err}");
}

#[test]
fn merely_similar_names_are_allowed() {
    assert!(parse(&detector(vec![
        reclaimable("build", "c"),
        reclaimable("buildkit", "c"),
    ]))
    .is_ok());
}

#[test]
fn ordinary_nested_paths_are_still_fine() {
    assert!(parse(&detector_with(".next/cache", "npm run build")).is_ok());
    assert!(parse(&detector_with("target/debug", "cargo build")).is_ok());
}

#[test]
fn every_refusal_says_what_is_wrong() {
    let message = |path: &str, restore: &str| parse(&detector_with(path, restore)).unwrap_err();
    assert_eq!(message(" ", "c"), "detector 'x': empty reclaimable path");
    assert_eq!(
        message("a\\b", "c"),
        "detector 'x': path 'a\\b' uses backslashes; separate with '/' on every platform"
    );
    assert_eq!(
        message("/etc", "c"),
        "detector 'x': path '/etc' is absolute; paths are relative to the project root"
    );
    assert_eq!(
        message("C:/etc", "c"),
        "detector 'x': path 'C:/etc' is absolute; paths are relative to the project root"
    );
    for bad in ["a/..", ".", "./a", "C:etc"] {
        assert_eq!(
            message(bad, "c"),
            format!(
                "detector 'x': path '{bad}' must stay inside the project — no '..', no root, no drive prefix"
            )
        );
    }
    assert_eq!(
        message("build", " \t"),
        "detector 'x': path 'build' has no restore_command; if it cannot be regenerated by a stated command it is not reclaimable"
    );
    let both = detector(vec![reclaimable("a/b", "c"), reclaimable("a", "c")]);
    assert_eq!(
        parse(&both).unwrap_err(),
        "detector 'x': paths 'a/b' and 'a' overlap; one contains the other"
    );
}

#[test]
fn a_bundle_is_taken_whole_or_not_at_all() {
    let good = || Some(detector_with("build", "make"));
    let loaded = load_builtin(vec![("x".to_string(), good())]).unwrap();
    assert_eq!(loaded.len(), 1);
    assert_eq!(loaded[0].reclaimable[0].path, "build");

    let refused = |id: &str, d: Option<Detector>| -> DetectorError {
        match load_builtin(vec![("x".to_string(), good()), (id.to_string(), d)]) {
            Ok(_) => panic!("accepted"),
            Err(e) => e,
        }
    };
    assert_eq!(refused("y", None).message(), "detector 'y' is not valid TOML");
    assert_eq!(
        refused("y", good()).message(),
        "detector 'y': `id` field is 'x', must match the filename"
    );
    let mut unmarked = detector_with("build", "make");
    unmarked.markers.clear();
    assert_eq!(
        refused("x", Some(unmarked)).message(),
        "detector 'x': needs at least one marker"
    );
    assert_eq!(
        refused("x", Some(detector(vec![]))).message(),
        "detector 'x': needs at least one reclaimable target"
    );
    assert!(matches!(
        check_detector(&"x".to_string(), Some(detector_with("..", "c"))),
        Err(DetectorError::BadTarget { .. })
    ));
}

#[test]
fn a_marker_among_the_names_makes_a_project() {
    let d = detector_with("build", "make");
    assert!(d.matches(&vec!["src".to_string(), "m".to_string()]));
    assert!(!d.matches(&vec!["src".to_string()]));
    assert!(!d.matches(&vec![]));
}
