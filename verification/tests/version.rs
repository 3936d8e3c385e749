use okft::version::{resolve, OkfVersion, LATEST, SUPPORTED};

#[test]
fn revisions_are_ordered_oldest_first() {
    assert!(OkfVersion::V0_1 < OkfVersion::V0_2);
    assert_eq!(SUPPORTED, [OkfVersion::V0_1, OkfVersion::V0_2]);
    assert_eq!(LATEST, OkfVersion::V0_2);
    assert_eq!(OkfVersion::default(), LATEST);
}

#[test]
fn renders_as_a_bare_version_number() {
    assert_eq!(OkfVersion::V0_1.as_str(), "0.1");
    assert_eq!(OkfVersion::V0_2.to_string(), "0.2");
}

#[test]
fn parses_every_spelling_a_caller_might_use() {
    assert_eq!(OkfVersion::parse("0.1"), Some(OkfVersion::V0_1));
    assert_eq!(OkfVersion::parse("v0.2"), Some(OkfVersion::V0_2));
    assert_eq!(OkfVersion::parse("V0.2"), Some(OkfVersion::V0_2));
    assert_eq!(OkfVersion::parse("  0.2  "), Some(OkfVersion::V0_2));
}

#[test]
fn rejects_revisions_it_does_not_implement() {
    assert_eq!(OkfVersion::parse("0.3"), None);
    assert_eq!(OkfVersion::parse("1.0"), None);
    assert_eq!(OkfVersion::parse(""), None);
    assert_eq!(OkfVersion::parse("vv0.2"), None);
    assert_eq!(OkfVersion::parse("0.2.0"), None);
}

#[test]
fn from_str_names_the_supported_revisions() {
    assert_eq!("0.1".parse(), Ok(OkfVersion::V0_1));
    let error = "0.9".parse::<OkfVersion>().expect_err("unsupported");
    assert!(error.contains("`0.9`"));
    assert!(error.contains("0.1, 0.2"));
}

#[test]
fn an_explicit_request_beats_the_declaration() {
    assert_eq!(resolve(Some(OkfVersion::V0_1), Some("0.2")), OkfVersion::V0_1);
}

#[test]
fn the_declaration_is_used_when_nothing_was_requested() {
    assert_eq!(resolve(None, Some("0.1")), OkfVersion::V0_1);
    assert_eq!(resolve(None, Some("v0.2")), OkfVersion::V0_2);
}

#[test]
fn an_absent_or_unreadable_declaration_falls_back_to_the_latest() {
    assert_eq!(resolve(None, None), LATEST);
    assert_eq!(resolve(None, Some("0.9")), LATEST);
}

#[test]
fn every_revision_round_trips_through_its_text() {
    for version in SUPPORTED {
        assert_eq!(OkfVersion::parse(version.as_str()), Some(version));
    }
}

#[test]
fn from_text_reports_the_exact_message() {
    assert_eq!(
        OkfVersion::from_text("nope"),
        Err("unknown OKF version `nope`; supported versions are 0.1, 0.2".to_owned())
    );
}
