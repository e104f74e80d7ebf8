use unchecked_audit::marker::{contains_marker, remove_marker};

#[test]
fn marker_detection() {
    assert!(contains_marker("get_unchecked"));
    assert!(contains_marker("do_unchecked_work"));
    assert!(contains_marker("_unchecked"));
    assert!(!contains_marker("get"));
    assert!(!contains_marker("unchecked_get"));
    assert!(!contains_marker("get_uncheck"));
    assert!(!contains_marker(""));
}

#[test]
fn marker_removal() {
    assert_eq!(remove_marker("get_unchecked"), "get");
    assert_eq!(remove_marker("fetch_unchecked_mut"), "fetch_mut");
    assert_eq!(remove_marker("_unchecked"), "");
    assert_eq!(remove_marker("get"), "get");
    assert_eq!(remove_marker(""), "");
}

#[test]
fn marker_removed_wherever_it_occurs() {
    assert_eq!(remove_marker("unchecked_get_unchecked"), "unchecked_get");
    assert_eq!(remove_marker("a_unchecked_unchecked"), "a");
    assert_eq!(remove_marker("a_unchecked_uncheckedb"), "ab");
}

#[test]
fn removal_does_not_rescan_joined_text() {
    // Removing the middle occurrence joins "_unch" and "ecked" into a
    // fresh "_unchecked", which a single left-to-right pass keeps.
    assert_eq!(remove_marker("_unch_uncheckedecked"), "_unchecked");
}
