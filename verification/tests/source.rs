use yarn_berry_fetcher::entry::Entry;
use yarn_berry_fetcher::source::{
    entry_to_source, MissingHashes, SourceError, SourceWithIntegrity, SourceWithoutIntegrity,
    OUTDATED_MISSING_HASHES_ERR,
};

fn entry(resolved: &str, integrity: &str) -> Entry {
    Entry {
        name: "name".to_string(),
        resolved: resolved.to_string(),
        integrity: integrity.to_string(),
    }
}

fn sum(c: &str) -> String {
    c.repeat(128)
}

fn missing(pairs: &[(&str, &str)]) -> MissingHashes {
    let mut r = MissingHashes::new();
    for (k, v) in pairs {
        r.insert(k.to_string(), v.to_string());
    }
    r
}

#[test]
fn checksums_of_the_lockfile_are_used() {
    let mut lookup = missing(&[("a@npm:1.0.0", &sum("b"))]);
    let e = entry("a@npm:1.0.0", &format!("10c0/{}", sum("a")));
    match entry_to_source(&e, &mut lookup).unwrap() {
        SourceWithIntegrity::Tgz { url, integrity } => {
            assert_eq!(url, "https://registry.npmjs.org/a/-/a-1.0.0.tgz");
            assert_eq!(integrity, sum("a"));
        }
        SourceWithIntegrity::Git { .. } => panic!("no repository"),
    }
    assert!(!lookup.is_empty());
}

#[test]
fn missing_checksums_are_used_once() {
    let mut lookup = missing(&[("a@https://example.com/a.tgz", &sum("b"))]);
    let e = entry("a@https://example.com/a.tgz", "");
    match entry_to_source(&e, &mut lookup).unwrap() {
        SourceWithIntegrity::Tgz { url, integrity } => {
            assert_eq!(url, "https://example.com/a.tgz");
            assert_eq!(integrity, sum("b"));
        }
        SourceWithIntegrity::Git { .. } => panic!("no repository"),
    }
    assert!(lookup.is_empty());
    let error = entry_to_source(&e, &mut lookup).unwrap_err();
    assert!(matches!(error, SourceError::MissingHash { .. }));
    assert_eq!(
        error.message(),
        "unable to find missing hash for a@https://example.com/a.tgz"
    );
    assert_eq!(error.cause(), Some(OUTDATED_MISSING_HASHES_ERR));
}

#[test]
fn missing_checksums_have_a_length() {
    let mut lookup = missing(&[("a@npm:1.0.0", "abc"), ("b@npm:1.0.0", &"ß".repeat(64))]);
    let error = entry_to_source(&entry("a@npm:1.0.0", ""), &mut lookup).unwrap_err();
    assert!(matches!(error, SourceError::InvalidLength { .. }));
    assert_eq!(
        error.message(),
        "Invalid length for sha512 integrity in missing-hashes.json a@npm:1.0.0"
    );
    assert_eq!(error.cause(), None);
    assert!(entry_to_source(&entry("b@npm:1.0.0", ""), &mut lookup).is_ok());
}

#[test]
fn repositories_are_fetched_at_a_commit() {
    let e = entry("a@https://example.com/a.git#commit=123", "");
    match entry_to_source(&e, &mut missing(&[])).unwrap() {
        SourceWithIntegrity::Git { repo, commit } => {
            assert_eq!(repo, "https://example.com/a.git");
            assert_eq!(commit, "123");
        }
        SourceWithIntegrity::Tgz { .. } => panic!("no archive"),
    }
    assert!(e.can_be_fetched());

    let e = entry("a@https://example.com/a.git#head=main", "");
    let error = entry_to_source(&e, &mut missing(&[])).unwrap_err();
    assert!(matches!(error, SourceError::NoCommit { .. }));
    assert_eq!(
        error.message(),
        "Git dependency without commit hash: a@https://example.com/a.git#head=main"
    );
    assert!(!e.can_be_fetched());
}

#[test]
fn sources_have_one_kind() {
    let e = entry("a@https://example.com/a.git#commit=1.tgz", "");
    let error = entry_to_source(&e, &mut missing(&[])).unwrap_err();
    assert!(matches!(error, SourceError::Ambiguous { .. }));
    assert_eq!(
        error.message(),
        "Ambiguous source: a@https://example.com/a.git#commit=1.tgz"
    );
    assert!(!e.can_be_fetched());
    assert!(e.can_be_looked_up());

    let e = entry("a@portal:../a", "");
    let error = entry_to_source(&e, &mut missing(&[])).unwrap_err();
    assert!(matches!(error, SourceError::Unsupported { .. }));
    assert_eq!(
        error.message(),
        "Unsupported or unrecognized source: a@portal:../a"
    );
    assert!(!e.can_be_fetched());
}

#[test]
fn entries_become_sources() {
    let e = entry("a@npm:1.0.0", &sum("c"));
    match SourceWithIntegrity::try_from(&e) {
        Ok(SourceWithIntegrity::Tgz { url, integrity }) => {
            assert_eq!(url, "https://registry.npmjs.org/a/-/a-1.0.0.tgz");
            assert_eq!(integrity, sum("c"));
        }
        _ => panic!("an archive"),
    }
    match SourceWithIntegrity::try_from(&entry("a@https://x/a.tar.gz", "")) {
        Err(SourceWithoutIntegrity::Tgz { url }) => assert_eq!(url, "https://x/a.tar.gz"),
        _ => panic!("no checksum"),
    }
    match SourceWithIntegrity::try_from(&entry("a@https://x/a.git#commit=1", "")) {
        Ok(SourceWithIntegrity::Git { repo, commit }) => {
            assert_eq!(repo, "https://x/a.git");
            assert_eq!(commit, "1");
        }
        _ => panic!("a repository"),
    }
}

#[test]
fn short_checksums_cannot_be_looked_up() {
    assert!(!entry("a@npm:1.0.0", "abc").can_be_looked_up());
    assert!(!entry("a@npm:1.0.0", "abc").can_be_fetched());
    assert!(entry("a@workspace:.", "abc").can_be_looked_up());
    assert!(!entry("a", "").can_be_looked_up());
}

#[test]
fn hashes_are_taken_out() {
    let mut lookup = missing(&[("a", "1"), ("b", "2"), ("a", "3")]);
    assert_eq!(lookup.take("a"), Some("3".to_string()));
    assert_eq!(lookup.take("a"), None);
    assert_eq!(lookup.take("b"), Some("2".to_string()));
    assert!(lookup.is_empty());
}
