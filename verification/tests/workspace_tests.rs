use mono::version::{Increment, Version};
use mono::workspace::{versions_from, Flavor, ManifestData, Package, Project, Workspace};

fn project(dir: &str, name: Option<&str>, version: Option<Version>) -> Project {
    Project {
        path: format!("{dir}/Cargo.toml"),
        dir: dir.to_string(),
        manifest: ManifestData {
            name: name.map(|n| n.to_string()),
            version,
            members: Vec::new(),
            dependencies: Vec::new(),
        },
    }
}

#[test]
fn packages_are_name_sorted() {
    let ws = Workspace::new(
        "/repo".to_string(),
        Flavor::Cargo,
        vec![
            project("", None, None),
            project("crates/zeta", Some("zeta"), Some(Version::release(1, 0, 0))),
            project("crates/alpha", Some("alpha"), Some(Version::release(0, 2, 0))),
        ],
    );
    let packages = ws.packages();
    assert_eq!(packages.len(), 2);
    assert_eq!(packages[0].name, "alpha");
    assert_eq!(packages[1].name, "zeta");
    assert!(ws.get("alpha").is_some());
    assert!(ws.get("missing").is_none());
}

#[test]
fn computes_next_versions() {
    let packages = vec![
        Package {
            dir: "crates/alpha".to_string(),
            name: "alpha".to_string(),
            version: Some(Version::release(0, 2, 0)),
        },
        Package {
            dir: "crates/zeta".to_string(),
            name: "zeta".to_string(),
            version: Some(Version::release(1, 0, 0)),
        },
    ];
    let increments = vec![Some(Increment::Minor), None];
    let versions = versions_from(&packages, &increments);
    assert_eq!(versions.items.len(), 1);
    assert_eq!(versions.items[0].0, "alpha");
    assert_eq!(versions.items[0].1.to_text(), "0.3.0");
    assert!(versions.get("alpha").is_some());
    assert!(versions.get("zeta").is_none());
}
