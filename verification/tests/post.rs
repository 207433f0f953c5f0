use yarn_berry_fetcher::cache::Cache;
use yarn_berry_fetcher::command::Invocation;
use yarn_berry_fetcher::lockfile::Lockfile;
use yarn_berry_fetcher::post::{make_cache_writable, trim, GitDependency, Source};

fn line(command: &Invocation) -> String {
    let mut r = command.program.clone();
    for arg in &command.args {
        r.push(' ');
        r.push_str(std::str::from_utf8(arg).unwrap());
    }
    r
}

fn dependency() -> GitDependency {
    GitDependency {
        name: "a".to_string(),
        integrity: "sum".to_string(),
        commit: "123".to_string(),
        repo: "https://x/a.git".to_string(),
    }
}

#[test]
fn a_cache_is_copied_and_made_writable() {
    let commands: Vec<String> = make_cache_writable("/nix/store/cache").iter().map(line).collect();
    assert_eq!(
        commands,
        [
            "rm -rf .yarn/cache",
            "mkdir -p .yarn",
            "cp -R --reflink=auto /nix/store/cache .yarn/cache",
            "chmod -R u+w .yarn/cache"
        ]
    );
}

#[test]
fn only_repositories_are_packed() {
    let cache = Cache::open(
        Vec::new(),
        Lockfile {
            cache_key: None,
            entries: Vec::new(),
        },
    );
    let found = cache.repack_git_deps(vec![
        Source::Tgz {
            name: "b".to_string(),
            integrity: "x".to_string(),
            url: "u".to_string(),
        },
        Source::Git {
            name: "a".to_string(),
            integrity: "sum".to_string(),
            commit: "123".to_string(),
            repo: "https://x/a.git".to_string(),
        },
    ]);
    assert_eq!(found.len(), 1);
    assert_eq!(found[0].name, "a");
    assert_eq!(found[0].commit, "123");
    assert_eq!(found[0].package_lock(), ".yarn/cache/123/package-lock.json");
}

#[test]
fn npm_packs_what_has_its_lockfile() {
    let plan = dependency().pack(true);
    assert_eq!(plan.create, None);
    assert_eq!(line(&plan.command), "npm pack");
    assert_eq!(plan.dir, ".yarn/cache/123");
    let packed = dependency().packed(true, " a-1.0.0.tgz\r\n");
    assert_eq!(packed.tgz, ".yarn/cache/123/a-1.0.0.tgz");
    assert_eq!(packed.name, "a");
    assert_eq!(packed.protocol, "https");
    assert_eq!(packed.reference, "https://x/a.git#commit=123");
    assert_eq!(packed.integrity, "sum");
}

#[test]
fn yarn_packs_the_rest() {
    let plan = dependency().pack(false);
    assert_eq!(plan.create.as_deref(), Some(".yarn/cache/123/yarn.lock"));
    assert_eq!(line(&plan.command), "yarn pack --out package.tgz");
    let packed = dependency().packed(false, "ignored");
    assert_eq!(packed.tgz, ".yarn/cache/123/package.tgz");
}

#[test]
fn white_space_is_trimmed_as_usual() {
    for s in ["", " ", "\u{3000}a\u{2003}b\u{85}", "\u{200b}a\u{180e}", "a", "\ta\n"] {
        assert_eq!(trim(s), s.trim());
    }
    for c in '\0'..='\u{ffff}' {
        let s = c.to_string();
        assert_eq!(trim(&s), s.trim());
    }
}
