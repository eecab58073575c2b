use mono::tags::{TagError, VersionTags};
use mono::version::parse_version_str;

fn pairs(items: &[(&str, &str)]) -> Vec<(String, String)> {
    items.iter().map(|(a, b)| (a.to_string(), b.to_string())).collect()
}

#[test]
fn orders_tags_by_version() {
    let ts = VersionTags::from_pairs(&pairs(&[("v1.0.0", "c1"), ("v1.1.0", "c2"), ("v0.9.0", "c0")]))
        .unwrap();
    assert_eq!(ts.len(), 3);
    assert_eq!(ts.tag_at(0).commit, "c0");
    assert_eq!(ts.tag_at(2).commit, "c2");
    let v = parse_version_str("1.0.0").unwrap();
    assert!(ts.contains(&v));
    assert_eq!(ts.get(&v).unwrap(), "c1");
}

#[test]
fn rejects_unparseable_tags() {
    let res = VersionTags::from_pairs(&pairs(&[("v1.0.0", "c1"), ("nightly", "c2")]));
    assert!(matches!(res, Err(TagError::Version)));
}

#[test]
fn derives_commit_ranges() {
    let ts = VersionTags::from_pairs(&pairs(&[("v1.0.0", "c1"), ("v1.1.0", "c2"), ("v0.9.0", "c0")]))
        .unwrap();
    // unreleased commits: head down to the newest tag
    let r = ts.commits(None).unwrap();
    assert_eq!(r.start, None);
    assert_eq!(r.end, Some("c2".to_string()));
    // a released version: its commit down to the previous tag
    let v = parse_version_str("1.0.0").unwrap();
    let r = ts.commits(Some(&v)).unwrap();
    assert_eq!(r.start, Some("c1".to_string()));
    assert_eq!(r.end, Some("c0".to_string()));
    // the oldest version is unbounded at the far side
    let v = parse_version_str("0.9.0").unwrap();
    let r = ts.commits(Some(&v)).unwrap();
    assert_eq!(r.start, Some("c0".to_string()));
    assert_eq!(r.end, None);
    // an unknown version is an error
    let v = parse_version_str("2.0.0").unwrap();
    assert!(matches!(ts.commits(Some(&v)), Err(TagError::Version)));
}

#[test]
fn range_queries_follow_the_order() {
    let ts = VersionTags::from_pairs(&pairs(&[("v1.0.0", "c1"), ("v1.1.0", "c2"), ("v0.9.0", "c0")]))
        .unwrap();
    let lo = parse_version_str("1.0.0").unwrap();
    let hi = parse_version_str("1.1.0").unwrap();
    assert_eq!(ts.range(&lo, &hi), (1, 2));
    let lo = parse_version_str("0.1.0").unwrap();
    let hi = parse_version_str("9.0.0").unwrap();
    assert_eq!(ts.range(&lo, &hi), (0, 3));
}

#[test]
fn later_tags_replace_equal_versions() {
    let ts = VersionTags::from_pairs(&pairs(&[("v1.0.0", "c1"), ("vv1.0.0", "c9")])).unwrap();
    assert_eq!(ts.len(), 1);
    assert_eq!(ts.tag_at(0).commit, "c9");
}

#[test]
fn no_tags_means_every_commit() {
    let ts = VersionTags::from_pairs(&Vec::new()).unwrap();
    assert!(ts.is_empty());
    let r = ts.commits(None).unwrap();
    assert_eq!(r.start, None);
    assert_eq!(r.end, None);
}
