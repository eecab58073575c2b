use mono::version::{parse_version_str, version_cmp, Increment, Version};

#[test]
fn bumps_follow_the_table() {
    let v = parse_version_str("0.0.5").unwrap();
    let b = v.bump(Increment::Major);
    assert_eq!((b.major, b.minor, b.patch), (0, 0, 6));

    let v = parse_version_str("0.4.2").unwrap();
    let b = v.bump(Increment::Minor);
    assert_eq!((b.major, b.minor, b.patch), (0, 5, 0));

    let v = parse_version_str("1.2.3-rc1+abc").unwrap();
    let b = v.bump(Increment::Patch);
    assert_eq!((b.major, b.minor, b.patch), (1, 2, 4));
    assert_eq!(b.pre, "");
    assert_eq!(b.build, "");

    let v = parse_version_str("1.9.9").unwrap();
    let b = v.bump(Increment::Major);
    assert_eq!((b.major, b.minor, b.patch), (2, 0, 0));
}

#[test]
fn min_and_max_bounds() {
    let v = Version::release(0, 0, 3);
    assert_eq!(v.min_bump(), Some(Increment::Patch));
    assert_eq!(v.max_bump(), Increment::Patch);
    let v = Version::release(0, 4, 0);
    assert_eq!(v.min_bump(), None);
    assert_eq!(v.max_bump(), Increment::Minor);
    let v = Version::release(2, 1, 0);
    assert_eq!(v.min_bump(), None);
    assert_eq!(v.max_bump(), Increment::Major);
}

#[test]
fn parses_versions() {
    let v = parse_version_str("v1.2.3").unwrap();
    assert_eq!((v.major, v.minor, v.patch), (1, 2, 3));
    assert_eq!(v.pre, "");
    assert_eq!(v.build, "");

    let v = parse_version_str("1.2.3-rc.1+build.5").unwrap();
    assert_eq!(v.pre, "rc.1");
    assert_eq!(v.build, "build.5");

    assert!(parse_version_str("1.2").is_none());
    assert!(parse_version_str("1.2.3-01").is_none());
    assert!(parse_version_str("1.2.3-0").is_some());
    assert!(parse_version_str("1.2.3-0a").is_some());
    assert!(parse_version_str("1.2.3+01").is_some());
    assert!(parse_version_str("1.02.3").is_none());
    assert!(parse_version_str("1.2.3-").is_none());
    assert!(parse_version_str("1.2.3-a..b").is_none());
    assert!(parse_version_str("x1.2.3").is_none());
}

#[test]
fn renders_versions() {
    let v = parse_version_str("1.2.3-rc.1+build.5").unwrap();
    assert_eq!(v.to_text(), "1.2.3-rc.1+build.5");
    assert_eq!(Version::release(10, 0, 7).to_text(), "10.0.7");
}

#[test]
fn orders_versions() {
    let a = parse_version_str("1.2.3").unwrap();
    let b = parse_version_str("1.2.4").unwrap();
    assert_eq!(version_cmp(&a, &b), -1);
    let pre = parse_version_str("1.2.3-alpha").unwrap();
    assert_eq!(version_cmp(&pre, &a), -1);
    assert_eq!(version_cmp(&a, &a), 0);
}
