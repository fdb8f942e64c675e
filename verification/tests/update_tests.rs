use rustbrush::update::{is_newer, release_update};

#[test]
fn test_is_newer() {
    assert!(is_newer("0.3.0", "0.2.0"));
    assert!(is_newer("1.0.0", "0.9.9"));
    assert!(is_newer("0.2.1", "0.2.0"));
    assert!(!is_newer("0.2.0", "0.2.0"));
    assert!(!is_newer("0.1.0", "0.2.0"));
}

#[test]
fn versions_compare_by_parsed_numbers() {
    // a longer version with the same prefix is newer
    assert!(is_newer("1.2.0", "1.2"));
    // numbers compare as numbers, not text
    assert!(is_newer("0.10.0", "0.9.0"));
    // pieces that are not numbers are skipped
    assert!(!is_newer("1.x.2", "1.2"));
    assert!(!is_newer("+2", "1.9"));
    assert!(!is_newer("", "0"));
    assert!(is_newer("18446744073709551615", "18446744073709551614"));
    assert!(!is_newer("18446744073709551616", "1"));
}

#[test]
fn release_update_needs_a_newer_tag() {
    let u = release_update(Some("vv0.5.0"), None, "0.4.2").unwrap();
    assert_eq!(u.latest_version, "0.5.0");
    assert_eq!(u.current_version, "0.4.2");
    assert_eq!(u.release_url, "https://github.com/hopdad/RustBrush/releases");
    let v = release_update(Some("v1.0"), Some("https://example.org/r"), "0.9").unwrap();
    assert_eq!(v.release_url, "https://example.org/r");
    assert!(release_update(Some("v0.4.2"), None, "0.4.2").is_none());
    assert!(release_update(None, None, "0.1.0").is_none());
}

#[test]
fn semver_precedence_with_pre_releases_and_build_metadata() {
    assert!(is_newer("1.0.1-beta", "1.0.0"));
    assert!(!is_newer("1.0.0", "1.0.1-beta"));
    // a pre-release comes before its release
    assert!(is_newer("1.0.0", "1.0.0-rc.1"));
    assert!(!is_newer("1.0.0-rc.1", "1.0.0"));
    // the order of the semantic versioning specification's example
    let chain = [
        "1.0.0-alpha",
        "1.0.0-alpha.1",
        "1.0.0-alpha.beta",
        "1.0.0-beta",
        "1.0.0-beta.2",
        "1.0.0-beta.11",
        "1.0.0-rc.1",
        "1.0.0",
    ];
    for w in chain.windows(2) {
        assert!(is_newer(w[1], w[0]), "{} should be newer than {}", w[1], w[0]);
        assert!(!is_newer(w[0], w[1]));
    }
    // build metadata is ignored
    assert!(!is_newer("1.0.0+build.5", "1.0.0"));
    assert!(!is_newer("1.0.0", "1.0.0+build.5"));
    assert!(is_newer("1.0.1+x", "1.0.0+y"));
}
