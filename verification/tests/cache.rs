use yarn_berry_fetcher::cache::fetch::{FetchError, Task, NIX_PREFETCH_GIT_ERR};
use yarn_berry_fetcher::cache::{check_zip, make_file_name, Cache, KeyedCache};
use yarn_berry_fetcher::digest::integrity_of;
use yarn_berry_fetcher::entry::Entry;
use yarn_berry_fetcher::lockfile::{CacheKey, Lockfile};
use yarn_berry_fetcher::missing_hashes::get_missing_hashes;
use yarn_berry_fetcher::source::{
    MissingHashes, SourceError, SourceWithIntegrity, OUTDATED_MISSING_HASHES_ERR,
};

fn entry(resolved: &str, integrity: &str) -> Entry {
    Entry {
        name: resolved.split('@').next().unwrap().to_string(),
        resolved: resolved.to_string(),
        integrity: integrity.to_string(),
    }
}

fn sum(c: &str) -> String {
    c.repeat(128)
}

fn cache(entries: Vec<Entry>) -> Cache {
    Cache::open(
        b"out".to_vec(),
        Lockfile {
            cache_key: Some("10c0".to_string()),
            entries,
        },
    )
}

#[test]
fn files_are_named_by_their_checksums() {
    let cache = cache(vec![]);
    let integrity = format!("0123456789{}", "f".repeat(118));
    let e = entry("@babel/core@npm:7.23.0", &format!("10c0/{integrity}"));
    assert!(cache.can_name(&e, &integrity));
    assert_eq!(
        cache.zip_name(&e, &integrity),
        "@babel-core-npm-7.23.0-98eaa0f180-0123456789.zip"
    );
}

#[test]
fn files_without_checksums_are_named_by_the_key() {
    let cache = cache(vec![]);
    let e = entry("left-pad@npm:1.3.0", "");
    assert_eq!(
        cache.zip_name(&e, &sum("a")),
        "left-pad-npm-1.3.0-0382e69409-10c0.zip"
    );
    assert_eq!(cache.zip_name(&e, &sum("a")), cache.zip_name(&e, &sum("b")));
}

#[test]
fn shared_caches_name_all_files_by_the_key() {
    let mut keyed = KeyedCache {
        out_dir: b"out".to_vec(),
        key: CacheKey {
            version: 10,
            compression: None,
        },
        is_global: true,
    };
    let e = entry("left-pad@npm:1.3.0", &sum("a"));
    assert_eq!(
        keyed.zip_name(&e, &sum("a")),
        "left-pad-npm-1.3.0-0382e69409-10.zip"
    );
    keyed.is_global = false;
    assert_eq!(
        keyed.zip_name(&e, &sum("a")),
        "left-pad-npm-1.3.0-0382e69409-aaaaaaaaaa.zip"
    );
}

#[test]
fn caches_agree() {
    let keyed = KeyedCache {
        out_dir: b"out".to_vec(),
        key: CacheKey {
            version: 10,
            compression: Some(0),
        },
        is_global: false,
    };
    let cache = cache(vec![]);
    for e in [
        entry("left-pad@npm:1.3.0", &sum("a")),
        entry("left-pad@npm:1.3.0", ""),
    ] {
        assert_eq!(keyed.zip_name(&e, &sum("a")), cache.zip_name(&e, &sum("a")));
        let a = keyed.zip_job(&e, "u".to_string(), sum("a"));
        let b = cache.zip_job(&e, "u".to_string(), sum("a"));
        assert_eq!(a.path, b.path);
        assert_eq!(a.compression, b.compression);
        assert_eq!(a.package, b.package);
    }
}

#[test]
fn jobs_say_what_is_written_where() {
    let cache = cache(vec![]);
    assert_eq!(cache.cache_key_compression(), Some(0));
    let e = entry("left-pad@npm:1.3.0", "");
    let job = cache.zip_job(&e, "https://x".to_string(), sum("a"));
    assert_eq!(
        job.path,
        b"out/cache/left-pad-npm-1.3.0-0382e69409-10c0.zip"
    );
    assert_eq!(job.url, "https://x");
    assert_eq!(job.package, "left-pad");
    assert_eq!(job.compression, Some(0));
    assert_eq!(job.integrity, sum("a"));
}

#[test]
fn some_entries_cannot_be_named() {
    let mut cache = cache(vec![]);
    assert!(!cache.can_name(&entry("left-pad", ""), &sum("a")));
    assert!(!cache.can_name(&entry("a/b@npm:1.0.0", ""), &sum("a")));
    assert!(!cache.can_name(&entry("a@npm:1.0.0", "x"), "short"));
    assert!(!cache.can_name(&entry("a@npm:1.0.0", "x"), "123456789ßabc"));
    cache.lockfile.cache_key = None;
    assert!(!cache.can_name(&entry("a@npm:1.0.0", ""), &sum("a")));
}

#[test]
fn file_names_are_made_of_parts() {
    assert_eq!(
        make_file_name("slug", "0123456789abcdef", "tail"),
        "slug-0123456789-tail.zip"
    );
}

#[test]
fn zip_files_are_checked() {
    let actual = integrity_of(b"zip");
    assert_eq!(check_zip(&actual, b"zip"), Ok(()));
    assert_eq!(check_zip(&sum("a"), b"zip"), Err(actual));
}

#[test]
fn real_entries_are_fetched_in_order() {
    let cache = cache(vec![
        entry("a@npm:1.0.0", &sum("a")),
        entry("w@workspace:.", ""),
        entry("b@npm:1.0.0", ""),
        entry("c@https://x/c.git#commit=1", ""),
    ]);
    let mut missing = MissingHashes::new();
    missing.insert("b@npm:1.0.0".to_string(), sum("b"));
    assert!(cache.can_fetch_all(&missing));
    let jobs = cache.fetch_all(missing).unwrap();
    assert_eq!(jobs.iter().map(|j| j.entry).collect::<Vec<_>>(), [0, 2, 3]);
    match &jobs[1].source {
        SourceWithIntegrity::Tgz { integrity, .. } => assert_eq!(*integrity, sum("b")),
        SourceWithIntegrity::Git { .. } => panic!("no repository"),
    }
    assert!(matches!(jobs[2].source, SourceWithIntegrity::Git { .. }));
}

#[test]
fn superfluous_checksums_are_refused() {
    let cache = cache(vec![entry("a@npm:1.0.0", &sum("a"))]);
    let mut missing = MissingHashes::new();
    missing.insert("b@npm:1.0.0".to_string(), sum("b"));
    let error = cache.fetch_all(missing).unwrap_err();
    assert!(matches!(error, FetchError::OutdatedMissingHashes));
    assert_eq!(error.message(), OUTDATED_MISSING_HASHES_ERR);
    assert_eq!(error.cause(), None);
}

#[test]
fn the_first_entry_without_a_source_is_reported() {
    let cache = cache(vec![
        entry("a@npm:1.0.0", ""),
        entry("b@npm:1.0.0", ""),
        entry("c", ""),
    ]);
    let mut missing = MissingHashes::new();
    missing.insert("a@npm:1.0.0".to_string(), sum("a"));
    // The last entry is malformed, and is not come to.
    assert!(cache.can_fetch_all(&missing));
    let error = cache.fetch_all(missing).unwrap_err();
    assert_eq!(
        error.message(),
        "unable to find missing hash for b@npm:1.0.0"
    );
    assert_eq!(error.cause(), Some(OUTDATED_MISSING_HASHES_ERR));
    assert!(matches!(
        error,
        FetchError::Source(SourceError::MissingHash { .. })
    ));
}

#[test]
fn a_malformed_entry_counts_if_it_is_come_to() {
    let cache = cache(vec![entry("a@npm:1.0.0", ""), entry("c", "")]);
    let mut missing = MissingHashes::new();
    assert!(cache.can_fetch_all(&missing));
    missing.insert("a@npm:1.0.0".to_string(), sum("a"));
    assert!(!cache.can_fetch_all(&missing));
    // The checksums are still there.
    assert_eq!(missing.get("a@npm:1.0.0"), Some(sum("a")));
    assert_eq!(missing.get("c"), None);
}

#[test]
fn a_missing_hash_is_taken_once() {
    let cache = cache(vec![
        entry("a@npm:1.0.0", ""),
        entry("a@npm:1.0.0", ""),
        entry("c", ""),
    ]);
    let mut missing = MissingHashes::new();
    missing.insert("a@npm:1.0.0".to_string(), sum("a"));
    // The second entry finds none, so that the third is not come to.
    assert!(cache.can_fetch_all(&missing));
    assert!(matches!(
        cache.fetch_all(missing),
        Err(FetchError::Source(SourceError::MissingHash { .. }))
    ));
}

#[test]
fn missing_hashes_make_a_lockfile_fetchable() {
    let cache = cache(vec![
        entry("a@npm:1.0.0", &sum("a")),
        entry("b@npm:1.0.0", ""),
        entry("w@link:../w", ""),
        entry("c@https://x/c.tgz", ""),
        entry("d@https://x/d.git#commit=1", ""),
    ]);
    assert!(cache.lockfile.is_known());
    let found = get_missing_hashes(&cache.lockfile);
    assert_eq!(found.compression, Some(0));
    assert_eq!(found.sources.len(), 2);
    assert_eq!(found.sources[0].resolved, "b@npm:1.0.0");
    assert_eq!(found.sources[0].name, "b");
    assert_eq!(
        found.sources[0].url,
        "https://registry.npmjs.org/b/-/b-1.0.0.tgz"
    );
    assert_eq!(found.sources[1].resolved, "c@https://x/c.tgz");
    assert_eq!(found.sources[1].url, "https://x/c.tgz");
    let mut missing = MissingHashes::new();
    for source in found.sources {
        let zip = source.url.as_bytes();
        missing.insert(source.resolved.clone(), integrity_of(zip));
    }
    assert_eq!(cache.fetch_all(missing).unwrap().len(), 4);
}

#[test]
fn unknown_sources_are_noticed() {
    assert!(!cache(vec![entry("a@portal:x", "")]).lockfile.is_known());
    assert!(!cache(vec![entry("a", "")]).lockfile.is_known());
    assert!(cache(vec![entry("a@workspace:x", "")]).lockfile.is_known());
}

#[test]
fn repositories_are_fetched_by_a_command() {
    let command = cache(vec![]).git_command("https://x/a.git", "123");
    assert_eq!(command.program, "nix-prefetch-git");
    let args: Vec<&[u8]> = command.args.iter().map(|a| a.as_slice()).collect();
    assert_eq!(
        args,
        [
            &b"--builder"[..],
            b"https://x/a.git",
            b"123",
            b"--out",
            b"out/checkouts/123"
        ]
    );
    assert!(NIX_PREFETCH_GIT_ERR.contains("Could not fetch git dependency"));
}

#[test]
fn sources_are_fetched_by_their_kind() {
    let mut cache = cache(vec![]);
    let e = entry("left-pad@npm:1.3.0", "");
    let tgz = || SourceWithIntegrity::Tgz {
        url: "https://x".to_string(),
        integrity: sum("a"),
    };
    let git = || SourceWithIntegrity::Git {
        repo: "https://x/a.git".to_string(),
        commit: "123".to_string(),
    };
    assert!(cache.can_fetch(&e, &tgz()));
    match cache.fetch_source(&e, tgz()) {
        Task::Archive(job) => {
            assert_eq!(job.url, "https://x");
            assert_eq!(
                job.path,
                b"out/cache/left-pad-npm-1.3.0-0382e69409-10c0.zip"
            );
        }
        other => panic!("{other:?}"),
    }
    match cache.fetch_source(&e, git()) {
        Task::Checkout {
            command,
            repo,
            commit,
        } => {
            assert_eq!(command.args[4], b"out/checkouts/123");
            assert_eq!(repo, "https://x/a.git");
            assert_eq!(commit, "123");
        }
        other => panic!("{other:?}"),
    }
    cache.lockfile.cache_key = Some("x".to_string());
    assert!(!cache.can_fetch(&e, &tgz()));
    assert!(cache.can_fetch(&e, &git()));
}
