use yarn_berry_fetcher::lockfile::{
    check_lockfile, parse_lockfile, CacheKey, Lockfile, LockfileError,
};

const LOCKFILE: &str = r#"# This file is generated by running "yarn install" inside your project.
# Manual changes might be lost - proceed with caution!

__metadata:
  version: 8
  cacheKey: 10c0

"left-pad@npm:^1.3.0":
  version: 1.3.0
  resolution: "left-pad@npm:1.3.0"
  checksum: 10c0/3fb59c76e281a2f5c810ad71dbbb8eba8b10c6cf94733dc7f27b8c516a5376cfff84c2b8d0a0c7a9a0a7d3a1b7b1b4a0f7c6a1e8f2d5b4c3a2918070605040302
  languageName: node
  linkType: hard

"root@workspace:.":
  version: 0.0.0-use.local
  resolution: "root@workspace:."
  languageName: unknown
  linkType: soft
"#;

#[test]
fn keys_are_read() {
    assert_eq!(
        CacheKey::parse("10c0"),
        Some(CacheKey {
            version: 10,
            compression: Some(0)
        })
    );
    assert_eq!(
        CacheKey::parse("8"),
        Some(CacheKey {
            version: 8,
            compression: None
        })
    );
    assert_eq!(
        CacheKey::parse("10c9c1"),
        Some(CacheKey {
            version: 10,
            compression: Some(9)
        })
    );
    assert_eq!(CacheKey::parse(""), None);
    assert_eq!(CacheKey::parse("c0"), None);
    assert_eq!(CacheKey::parse("10c"), None);
    assert_eq!(CacheKey::parse("x"), None);
    assert_eq!(CacheKey::parse("10c4294967296"), None);
    assert_eq!(
        CacheKey::parse("+7c+1").map(|k| k.render()),
        Some("7c1".to_string())
    );
}

#[test]
fn keys_read_back() {
    for key in ["10c0", "8", "0c4294967295", "123456c10"] {
        assert_eq!(CacheKey::parse(key).unwrap().render(), key);
    }
}

#[test]
fn a_lockfile_is_parsed() {
    let (key, lockfile) = parse_lockfile(LOCKFILE, "10c0", 10).unwrap();
    assert_eq!(
        key,
        CacheKey {
            version: 10,
            compression: Some(0)
        }
    );
    assert_eq!(lockfile.cache_key.as_deref(), Some("10c0"));
    assert_eq!(lockfile.cache_key_parsed(), Some(key));
    assert_eq!(lockfile.entries.len(), 2);
    assert_eq!(lockfile.entries[0].name, "left-pad");
    assert_eq!(lockfile.entries[0].resolved, "left-pad@npm:1.3.0");
    assert!(lockfile.entries[0].integrity.starts_with("10c0/3fb59c76"));
    assert_eq!(lockfile.entries[1].resolved, "root@workspace:.");
    assert_eq!(lockfile.entries[1].integrity, "");
}

#[test]
fn other_versions_are_refused() {
    let error = parse_lockfile(LOCKFILE, "10c0", 8).unwrap_err();
    assert!(matches!(
        error,
        LockfileError::UnsupportedVersion {
            found: 10,
            supported: 8
        }
    ));
    assert_eq!(
        error.message(),
        "\nError fetching berry dependencies.\nFound cache version 10\nSupported by this version of yarn-berry-fetcher: 8\nHint: Are you using fetchYarnBerryDeps from the correct yarn-berry version?"
    );
}

#[test]
fn invalid_keys_are_refused() {
    let error = parse_lockfile(LOCKFILE, "tenc0", 10).unwrap_err();
    assert!(matches!(&error, LockfileError::InvalidCacheKey { cache_key } if cache_key == "tenc0"));
    assert_eq!(error.message(), "invalid cache key: tenc0");
}

#[test]
fn what_is_no_lockfile_is_refused() {
    let error = parse_lockfile("not a lockfile", "10c0", 10).unwrap_err();
    assert!(matches!(error, LockfileError::Syntax { .. }));
    assert_eq!(error.message(), "Error parsing yarn.lock file");
}

#[test]
fn the_key_is_checked_before_the_syntax() {
    let broken = || Err::<Lockfile, String>("broken".to_string());
    assert!(matches!(
        check_lockfile("x", 10, broken()),
        Err(LockfileError::InvalidCacheKey { .. })
    ));
    assert!(matches!(
        check_lockfile("9", 10, broken()),
        Err(LockfileError::UnsupportedVersion { .. })
    ));
    let error = check_lockfile("10", 10, broken()).unwrap_err();
    assert_eq!(error.message(), "broken");
}

#[test]
fn a_lockfile_without_a_key_has_none() {
    let lockfile = Lockfile {
        cache_key: None,
        entries: Vec::new(),
    };
    assert_eq!(lockfile.cache_key_parsed(), None);
}
