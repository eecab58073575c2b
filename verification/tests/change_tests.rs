use mono::change::{Change, Kind, ParseError};
use mono::version::Increment;

#[test]
fn handles_non_breaking() {
    let change = Change::from_str("fix: summary").unwrap();
    assert_eq!(change.kind, Kind::Fix);
    assert_eq!(change.is_breaking, false);
    assert_eq!(change.summary, "summary");
}

#[test]
fn handles_breaking() {
    let change = Change::from_str("fix!: summary").unwrap();
    assert_eq!(change.kind, Kind::Fix);
    assert_eq!(change.is_breaking, true);
    assert_eq!(change.summary, "summary");
}

#[test]
fn errors_on_invalid_format() {
    // a missing separator, or whitespace right before it
    for format in [
        "fix:summary",
        "fix :summary",
        "fix summary",
        "fix : summary",
    ] {
        let res = Change::from_str(format);
        assert!(matches!(res, Err(ParseError::Format)));
    }
}

#[test]
fn errors_on_invalid_kind() {
    for format in [
        " fix: summary",
        "fxi: summary",
    ] {
        let res = Change::from_str(format);
        assert!(matches!(res, Err(ParseError::Kind)));
    }
}

#[test]
fn handles_valid_variants() {
    for (value, kind) in [
        ("feature", Kind::Feature),
        ("fix", Kind::Fix),
        ("performance", Kind::Performance),
        ("refactor", Kind::Refactor),
        ("build", Kind::Build),
        ("docs", Kind::Docs),
        ("style", Kind::Style),
        ("test", Kind::Test),
        ("chore", Kind::Chore),
    ] {
        assert_eq!(Kind::from_str(value).unwrap(), kind);
    }
}

#[test]
fn errors_on_invalid_variant() {
    for value in ["feat", "fi x", "perf", "doc", "testing"] {
        let res = Kind::from_str(value);
        assert!(matches!(res, Err(ParseError::Kind)));
    }
}

#[test]
fn errors_on_invalid_casing() {
    for value in ["FEATURE", "Fix"] {
        let res = Kind::from_str(value);
        assert!(matches!(res, Err(ParseError::Kind)));
    }
}

#[test]
fn maps_kinds_to_increments() {
    let fix = Change::from_str("fix: summary").unwrap();
    assert_eq!(fix.as_increment(), Some(Increment::Patch));
    let feature = Change::from_str("feature: summary").unwrap();
    assert_eq!(feature.as_increment(), Some(Increment::Minor));
    let chore = Change::from_str("chore: summary").unwrap();
    assert_eq!(chore.as_increment(), None);
}

#[test]
fn breaking_forces_major() {
    let breaking_fix = Change::from_str("fix!: summary").unwrap();
    assert_eq!(breaking_fix.as_increment(), Some(Increment::Major));
    let breaking_feature = Change::from_str("feature!: summary").unwrap();
    assert_eq!(breaking_feature.as_increment(), Some(Increment::Major));
    let breaking_chore = Change::from_str("chore!: summary").unwrap();
    assert_eq!(breaking_chore.as_increment(), None);
}

#[test]
fn extracts_wrapped_references() {
    let change = Change::from_str("feature: support (#12) and (#4)").unwrap();
    assert_eq!(change.summary, "support and");
    assert_eq!(change.references, vec![4, 12]);
}

#[test]
fn rejects_bare_references() {
    let res = Change::from_str("fix: closes #5");
    assert!(matches!(res, Err(ParseError::Reference)));
}

#[test]
fn rejects_casing_and_punctuation() {
    assert!(matches!(Change::from_str("fix: Summary"), Err(ParseError::Casing)));
    assert!(matches!(Change::from_str("fix: Summary."), Err(ParseError::Casing)));
    assert!(matches!(Change::from_str("fix: summary."), Err(ParseError::Punctuation)));
    assert!(matches!(Change::from_str("fix: summary "), Err(ParseError::Whitespace)));
    assert!(matches!(Change::from_str("fix:  summary"), Err(ParseError::Whitespace)));
    let acronym = Change::from_str("docs: README updates").unwrap();
    assert_eq!(acronym.summary, "README updates");
}

#[test]
fn display_round_trips() {
    let change = Change::from_str("fix!: summary (#4)").unwrap();
    let text = change.display();
    assert_eq!(text, "fix!: summary (#4)");
    let again = Change::from_str(&text).unwrap();
    assert_eq!(again.kind, change.kind);
    assert_eq!(again.is_breaking, change.is_breaking);
    assert_eq!(again.summary, change.summary);
    assert_eq!(again.references, change.references);
}

#[test]
fn display_lists_references_ascending() {
    let change = Change::from_str("feature: support (#12) and (#4)").unwrap();
    assert_eq!(change.display(), "feature: support and (#4, #12)");
}
