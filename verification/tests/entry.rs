use yarn_berry_fetcher::entry::{npm_url_with, slug_with, Entry, EntryExt};

fn entry(resolved: &str) -> Entry {
    Entry {
        name: "unused".to_string(),
        resolved: resolved.to_string(),
        integrity: String::new(),
    }
}

#[test]
fn a_plain_entry_is_taken_apart() {
    let e = entry("left-pad@npm:1.3.0");
    assert!(e.is_well_formed());
    assert_eq!(e.name(), "left-pad");
    assert_eq!(e.name_rest(), "left-pad");
    assert_eq!(e.scope(), None);
    assert_eq!(e.scope_name(), None);
    assert_eq!(e.resolution(), "npm:1.3.0");
    assert_eq!(e.protocol(), "npm");
    assert_eq!(e.source_selector_and_bindings(), "1.3.0");
    assert_eq!(e.selector(), "1.3.0");
    assert_eq!(e.source(), None);
    assert_eq!(e.bindings(), None);
    assert_eq!(e.protocol_and_source(), None);
    assert!(e.is_npm());
    assert!(!e.is_tar());
    assert!(!e.is_git());
    assert!(e.is_real_source());
    assert!(!e.is_content_addressed());
    assert_eq!(
        e.npm_url(),
        "https://registry.npmjs.org/left-pad/-/left-pad-1.3.0.tgz"
    );
    assert_eq!(e.slug(), "left-pad-npm-1.3.0");
}

#[test]
fn a_scoped_entry_is_taken_apart() {
    let e = entry("@babel/core@npm:7.23.0");
    assert_eq!(e.name(), "@babel/core");
    assert_eq!(e.name_rest(), "core");
    assert_eq!(e.scope(), Some("@babel"));
    assert_eq!(e.scope_name(), Some("babel"));
    assert!(e.is_soundly_scoped());
    assert_eq!(
        e.npm_url(),
        "https://registry.npmjs.org/@babel/core/-/core-7.23.0.tgz"
    );
    assert_eq!(e.slug(), "@babel-core-npm-7.23.0");
}

#[test]
fn bindings_name_the_archive() {
    let e = entry("pkg@npm:1.0.0::__archiveUrl=https%3A%2F%2Fexample.com%2Fpkg+x.tgz&a=b");
    assert_eq!(e.source_and_selector(), "1.0.0");
    assert_eq!(
        e.bindings(),
        Some(vec![
            (
                "__archiveUrl".to_string(),
                "https://example.com/pkg x.tgz".to_string()
            ),
            ("a".to_string(), "b".to_string()),
        ])
    );
    assert_eq!(e.npm_url(), "https://example.com/pkg x.tgz");
    assert_eq!(e.slug(), "pkg-npm-1.0.0");
}

#[test]
fn bindings_without_an_archive_leave_the_registry() {
    let e = entry("pkg@npm:1.0.0::version=2");
    assert_eq!(
        e.npm_url(),
        "https://registry.npmjs.org/pkg/-/pkg-1.0.0.tgz"
    );
    assert_eq!(
        npm_url_with(
            &Some(vec![("__archiveUrl".to_string(), "u".to_string())]),
            "n",
            "r",
            "s"
        ),
        "u"
    );
}

#[test]
fn a_git_entry_is_taken_apart() {
    let e = entry("pkg@https://github.com/a/b.git#head=main&commit=0123abc");
    assert!(e.is_git());
    assert!(!e.is_tar());
    assert!(!e.is_npm());
    assert_eq!(e.protocol(), "https");
    assert_eq!(e.source(), Some("//github.com/a/b.git"));
    assert_eq!(e.selector(), "head=main&commit=0123abc");
    assert_eq!(e.git_commit(), Some("0123abc"));
    assert_eq!(
        e.protocol_and_source(),
        Some("https://github.com/a/b.git")
    );
    assert_eq!(e.slug(), "pkg-https");
    assert_eq!(entry("pkg@https://a/b.git#branch=x").git_commit(), None);
}

#[test]
fn a_tarball_entry_is_recognized() {
    assert!(entry("pkg@https://example.com/a.tgz").is_tar());
    assert!(entry("pkg@http://example.com/a.tar.gz").is_tar());
    assert!(!entry("pkg@https://example.com/a.zip").is_tar());
    assert!(!entry("pkg@ftp://example.com/a.tgz").is_tar());
}

#[test]
fn what_is_local_is_not_real() {
    assert!(!entry("pkg@workspace:.").is_real_source());
    assert!(!entry("pkg@patch:x").is_real_source());
    assert!(!entry("pkg@link:../x").is_real_source());
    assert!(entry("pkg@portal:../x").is_real_source());
}

#[test]
fn checksums_may_carry_a_key() {
    let sum = "0123456789abcdef".repeat(8);
    let mut e = entry("pkg@npm:1.0.0");
    e.integrity = format!("10c0/{sum}");
    assert!(e.is_soundly_checked());
    assert_eq!(e.integrity_sha512(), Some(sum.as_str()));
    assert!(e.is_content_addressed());
    e.integrity = sum.clone();
    assert_eq!(e.integrity_sha512(), Some(sum.as_str()));
    e.integrity = "10c0/".to_string();
    assert_eq!(e.integrity_sha512(), None);
    assert!(e.is_content_addressed());
    e.integrity = "10c0/abc".to_string();
    assert!(!e.is_soundly_checked());
}

#[test]
fn malformed_resolutions_are_noticed() {
    assert!(!entry("left-pad").is_well_formed());
    assert!(!entry("@babel/core").is_well_formed());
    assert!(!entry("left-pad@1.0.0").is_well_formed());
    assert!(!entry("a/b@npm:1").is_soundly_scoped());
}

#[test]
fn only_versions_are_part_of_a_slug() {
    assert_eq!(entry("a/b/c@npm:1.0").slug(), "a-b-c-npm");
    assert_eq!(
        entry("a@npm:1.0.0-rc.1+build").slug(),
        "a-npm-1.0.0-rc.1+build"
    );
    assert_eq!(slug_with("a/b", "npm", "x", true), "a-b-npm-x");
    assert_eq!(slug_with("a/b", "npm", "x", false), "a-b-npm");
}

#[test]
fn the_parts_make_the_resolution() {
    for resolved in [
        "left-pad@npm:1.3.0",
        "@babel/core@npm:7.23.0::a=b",
        "pkg@https://github.com/a/b.git#commit=1",
        "a@b@c:d",
    ] {
        let e = entry(resolved);
        assert_eq!(format!("{}@{}", e.name(), e.resolution()), resolved);
        assert_eq!(
            format!("{}:{}", e.protocol(), e.source_selector_and_bindings()),
            e.resolution()
        );
    }
}
