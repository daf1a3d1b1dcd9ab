use spiral_down::{split_event_arg, ArgError};

#[test]
fn splits_title_and_timestamp() {
    let (label, time) = split_event_arg("Launch @ 2024-06-01T12:00Z").unwrap();
    assert_eq!(label, "Launch");
    assert_eq!(time, "2024-06-01T12:00Z");
}

#[test]
fn splits_at_last_at_sign() {
    let (label, time) = split_event_arg("mail a@b.c @ tomorrow").unwrap();
    assert_eq!(label, "mail a@b.c");
    assert_eq!(time, "tomorrow");
}

#[test]
fn trims_unicode_white_space() {
    let (label, time) = split_event_arg("\t x y \u{3000}@\u{a0}noon\n").unwrap();
    assert_eq!(label, "x y");
    assert_eq!(time, "noon");
}

#[test]
fn empty_parts_are_allowed() {
    let (label, time) = split_event_arg("  @").unwrap();
    assert_eq!(label, "");
    assert_eq!(time, "");
}

#[test]
fn missing_at_sign_is_refused() {
    assert_eq!(split_event_arg("no timestamp here"), Err(ArgError::MissingAt));
    assert_eq!(split_event_arg(""), Err(ArgError::MissingAt));
}
