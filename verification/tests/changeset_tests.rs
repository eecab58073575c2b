use mono::changeset::{parse_issues, Changeset, ChangesetError, Commit};
use mono::version::{Increment, Version};
use mono::workspace::{Flavor, ManifestData, Project, Workspace};

fn project(dir: &str, name: &str, deps: &[&str]) -> Project {
    Project {
        path: format!("{dir}/Cargo.toml"),
        dir: dir.to_string(),
        manifest: ManifestData {
            name: Some(name.to_string()),
            version: Some(Version::release(0, 1, 0)),
            members: Vec::new(),
            dependencies: deps.iter().map(|d| d.to_string()).collect(),
        },
    }
}

fn commit(id: &str, summary: &str, body: Option<&str>, paths: &[&str]) -> Commit {
    Commit {
        id: id.to_string(),
        summary: summary.to_string(),
        body: body.map(|b| b.to_string()),
        paths: paths.iter().map(|p| p.to_string()).collect(),
    }
}

fn workspace() -> Workspace {
    Workspace::new(
        "/repo".to_string(),
        Flavor::Cargo,
        vec![project("crates/mono", "mono", &[]), project("crates/zeta", "zeta", &["mono"])],
    )
}

#[test]
fn accumulates_maximum_increments() {
    let ws = workspace();
    let mut cs = Changeset::new(&ws).unwrap();
    // scope 0 is "mono", scope 1 is "zeta" (name order)
    cs.add(commit("a1", "fix: first", None, &["crates/mono/src/lib.rs"]));
    assert_eq!(cs.increments(), &vec![Some(Increment::Patch), None]);
    cs.add(commit("a2", "feature: second", None, &["crates/mono/src/x.rs"]));
    assert_eq!(cs.increments(), &vec![Some(Increment::Minor), None]);
    cs.add(commit("a3", "fix: third", None, &["crates/mono/src/y.rs"]));
    assert_eq!(cs.increments(), &vec![Some(Increment::Minor), None]);
    cs.add(commit("a4", "fix!: fourth", None, &["crates/zeta/src/lib.rs"]));
    assert_eq!(cs.increments(), &vec![Some(Increment::Minor), Some(Increment::Major)]);
    assert_eq!(cs.len(), 4);
}

#[test]
fn ignores_unparseable_summaries() {
    let ws = workspace();
    let mut cs = Changeset::new(&ws).unwrap();
    cs.add(commit("m1", "Merge branch 'main'", None, &["crates/mono/src/lib.rs"]));
    assert!(cs.is_empty());
    assert_eq!(cs.increments(), &vec![None, None]);
}

#[test]
fn summary_trims_trailers() {
    let ws = workspace();
    let mut cs = Changeset::new(&ws).unwrap();
    let body = "The release text.\n\nSigned-off-by: Dev <dev@example.org>";
    cs.add(commit("a1", "fix: first", Some(body), &["crates/mono/src/lib.rs"]));
    assert_eq!(cs.summary().unwrap(), "The release text.");
}

#[test]
fn summary_requires_a_body() {
    let ws = workspace();
    let mut cs = Changeset::new(&ws).unwrap();
    assert_eq!(cs.summary(), Err(ChangesetError::Summary));
    cs.add(commit("a1", "fix: first", None, &["crates/mono/src/lib.rs"]));
    assert_eq!(cs.summary(), Err(ChangesetError::Summary));
}

#[test]
fn summary_of_pure_trailers_is_an_error() {
    let ws = workspace();
    let mut cs = Changeset::new(&ws).unwrap();
    let body = "Signed-off-by: Dev <dev@example.org>
Reviewed-by: Other <o@example.org>";
    cs.add(commit("a1", "fix: first", Some(body), &["crates/mono/src/lib.rs"]));
    assert_eq!(cs.summary(), Err(ChangesetError::Summary));
}

#[test]
fn extend_adds_every_commit() {
    let ws = workspace();
    let mut cs = Changeset::new(&ws).unwrap();
    cs.extend(vec![
        commit("a1", "fix: first", None, &["crates/mono/src/lib.rs"]),
        commit("a2", "not conventional", None, &["crates/mono/src/lib.rs"]),
        commit("a3", "feature: second", None, &["crates/zeta/src/lib.rs"]),
    ]);
    assert_eq!(cs.len(), 2);
    assert_eq!(cs.increments(), &vec![Some(Increment::Patch), Some(Increment::Minor)]);
}

#[test]
fn collects_issue_numbers() {
    assert_eq!(parse_issues("Fixes #12 and #7, also #12"), vec![7, 12]);
    assert_eq!(parse_issues("no issues here"), Vec::<u32>::new());
    assert_eq!(parse_issues("(#3) and ref #0042!"), vec![3, 42]);
}
