use mono::scopes::{ScopeError, Scopes};

#[test]
fn deepest_scope_wins() {
    let mut builder = Scopes::builder();
    builder.add("crates", "root").unwrap();
    builder.add("crates/mono", "mono").unwrap();
    let scopes = builder.build();
    assert_eq!(scopes.get("crates/mono/src/lib.rs"), Some(1));
    assert_eq!(scopes.get("crates/other/x"), Some(0));
    assert_eq!(scopes.get("docs/readme.md"), None);
    assert_eq!(scopes.get("crates"), None);
}

#[test]
fn empty_scope_matches_everything() {
    let mut builder = Scopes::builder();
    builder.add("", "root").unwrap();
    builder.add("crates/mono", "mono").unwrap();
    let scopes = builder.build();
    assert_eq!(scopes.get("docs/readme.md"), Some(0));
    assert_eq!(scopes.get("crates/mono/src/lib.rs"), Some(1));
}

#[test]
fn rejects_absolute_and_duplicate_paths() {
    let mut builder = Scopes::builder();
    assert_eq!(builder.add("/abs", "x"), Err(ScopeError::PathAbsolute));
    builder.add("crates/mono", "mono").unwrap();
    assert_eq!(builder.add("crates/mono", "other"), Err(ScopeError::PathExists));
}
