use mono::version::{Increment, Version};
use mono::workspace::{versions_from, Package};

fn versions() -> mono::workspace::Versions {
    let packages = vec![
        Package {
            dir: "crates/mono".to_string(),
            name: "mono".to_string(),
            version: Some(Version::release(0, 1, 0)),
        },
        Package {
            dir: "crates/zeta".to_string(),
            name: "zeta".to_string(),
            version: Some(Version::release(1, 2, 3)),
        },
    ];
    let increments = vec![Some(Increment::Minor), Some(Increment::Major)];
    versions_from(&packages, &increments)
}

#[test]
fn rewrites_cargo_package_version() {
    let versions = versions();
    let input = "[package]\nname = \"mono\"\nversion = \"0.1.0\"  # keep\nedition = \"2021\"\n";
    let output = versions.update_cargo(input);
    assert_eq!(
        output,
        "[package]\nname = \"mono\"\nversion = \"0.2.0\"  # keep\nedition = \"2021\"\n"
    );
}

#[test]
fn rewrites_cargo_dependencies() {
    let versions = versions();
    let input = "[package]\nname = \"other\"\nversion = \"3.0.0\"\n\n[dependencies]\nzeta = \"1.2.3\"\nmono = { version = \"0.1.0\", features = [\"x\"] }\ninherited = { workspace = true }\nserde = \"1.0\"\n";
    let output = versions.update_cargo(input);
    let expected = "[package]\nname = \"other\"\nversion = \"3.0.0\"\n\n[dependencies]\nzeta = \"2.0.0\"\nmono = { version = \"0.2.0\", features = [\"x\"] }\ninherited = { workspace = true }\nserde = \"1.0\"\n";
    assert_eq!(output, expected);
}

#[test]
fn rewrites_cargo_workspace_dependencies_and_tables() {
    let versions = versions();
    let input = "[workspace.dependencies]\nmono = \"0.1.0\"\n\n[dependencies.zeta]\nversion = \"1.2.3\"\nfeatures = [\"y\"]\n";
    let output = versions.update_cargo(input);
    let expected = "[workspace.dependencies]\nmono = \"0.2.0\"\n\n[dependencies.zeta]\nversion = \"2.0.0\"\nfeatures = [\"y\"]\n";
    assert_eq!(output, expected);
}

#[test]
fn rewrites_node_manifests() {
    let versions = versions();
    let input = "{\n  \"name\": \"mono\",\n  \"version\": \"0.1.0\",\n  \"dependencies\": {\n    \"zeta\": \"^1.2.3\",\n    \"left-pad\": \"^1.0.0\"\n  },\n  \"devDependencies\": {\n    \"mono\": \"^0.1.0\"\n  }\n}\n";
    let output = versions.update_node(input);
    let expected = "{\n  \"name\": \"mono\",\n  \"version\": \"0.2.0\",\n  \"dependencies\": {\n    \"zeta\": \"^2.0.0\",\n    \"left-pad\": \"^1.0.0\"\n  },\n  \"devDependencies\": {\n    \"mono\": \"^0.2.0\"\n  }\n}\n";
    assert_eq!(output, expected);
}

#[test]
fn untouched_manifests_stay_identical() {
    let versions = versions();
    let input = "[package]\nname = \"unrelated\"\nversion = \"9.9.9\"\n";
    assert_eq!(versions.update_cargo(input), input);
}
