use mono::changeset::{Changeset, Commit};
use mono::version::Version;
use mono::workspace::{Flavor, ManifestData, Project, Workspace};

fn commit(id: &str, summary: &str, paths: &[&str]) -> Commit {
    Commit {
        id: id.to_string(),
        summary: summary.to_string(),
        body: None,
        paths: paths.iter().map(|p| p.to_string()).collect(),
    }
}

#[test]
fn renders_grouped_markdown() {
    let ws = Workspace::new(
        "/repo".to_string(),
        Flavor::Cargo,
        vec![Project {
            path: "crates/mono/Cargo.toml".to_string(),
            dir: "crates/mono".to_string(),
            manifest: ManifestData {
                name: Some("mono".to_string()),
                version: Some(Version::release(0, 1, 0)),
                members: Vec::new(),
                dependencies: Vec::new(),
            },
        }],
    );
    let mut cs = Changeset::new(&ws).unwrap();
    cs.add(commit("abcdef1234", "feature!: X", &["crates/mono/src/lib.rs"]));
    cs.add(commit("1234567890", "fix: Y", &[]));
    let log = cs.to_changelog();
    assert!(!log.is_empty());
    assert_eq!(log.len(), 2);
    let expected = "## Changelog\n\n### Breaking changes\n\n- abcdef1 __mono__ \u{2013} X\n\n### Bug fixes\n\n- 1234567 \u{2013} Y";
    assert_eq!(log.to_markdown(), expected);
}

#[test]
fn irrelevant_kinds_are_omitted() {
    let ws = Workspace::new("/repo".to_string(), Flavor::Cargo, Vec::new());
    let mut cs = Changeset::new(&ws).unwrap();
    cs.add(commit("abc1234", "chore: tidy", &[]));
    let log = cs.to_changelog();
    assert!(log.is_empty());
    assert_eq!(log.to_markdown(), "");
}
