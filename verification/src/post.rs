//! What is done with a cache once it is there.

use crate::cache::Cache;
use crate::command;
use crate::command::Invocation;
use crate::path;
use crate::text;
use vstd::prelude::*;
use vstd::string::*;
use vstd::utf8::*;

verus! {

/// The commands that put a writable copy of a cache below the working directory.
pub fn make_cache_writable(cache_dir: &str) -> (r: Vec<Invocation>)
    ensures
        r@.len() == 4,
        r@[0].program@ == "rm"@,
        path::names(r@[0].args@) == command::words(seq!["-rf"@, ".yarn/cache"@]),
        r@[1].program@ == "mkdir"@,
        path::names(r@[1].args@) == command::words(seq!["-p"@, ".yarn"@]),
        r@[2].program@ == "cp"@,
        path::names(r@[2].args@) == command::words(
            seq!["-R"@, "--reflink=auto"@, cache_dir@, ".yarn/cache"@],
        ),
        r@[3].program@ == "chmod"@,
        path::names(r@[3].args@) == command::words(seq!["-R"@, "u+w"@, ".yarn/cache"@]),
{
    let remove = Invocation::new("rm").arg("-rf").arg(".yarn/cache");
    assert(path::names(remove.args@) =~= command::words(seq!["-rf"@, ".yarn/cache"@]));
    let make = Invocation::new("mkdir").arg("-p").arg(".yarn");
    assert(path::names(make.args@) =~= command::words(seq!["-p"@, ".yarn"@]));
    let copy = Invocation::new("cp").arg("-R").arg("--reflink=auto").arg(cache_dir).arg(
        ".yarn/cache",
    );
    assert(path::names(copy.args@) =~= command::words(
        seq!["-R"@, "--reflink=auto"@, cache_dir@, ".yarn/cache"@],
    ));
    let permit = Invocation::new("chmod").arg("-R").arg("u+w").arg(".yarn/cache");
    assert(path::names(permit.args@) =~= command::words(seq!["-R"@, "u+w"@, ".yarn/cache"@]));
    let mut r: Vec<Invocation> = Vec::new();
    r.push(remove);
    r.push(make);
    r.push(copy);
    r.push(permit);
    r
}

/// Where a package of the lockfile comes from.
#[derive(Debug)]
pub enum Source {
    /// A commit of a git repository.
    Git { name: String, integrity: String, commit: String, repo: String },
    /// An archive, which is in the cache already.
    Tgz { name: String, integrity: String, url: String },
}

/// A package that is packed out of its repository.
#[derive(Debug)]
pub struct GitDependency {
    pub name: String,
    pub integrity: String,
    pub commit: String,
    pub repo: String,
}

/// The texts of a package in a repository.
pub open spec fn dependency_text(d: GitDependency) -> (Seq<char>, Seq<char>, Seq<char>, Seq<char>) {
    (d.name@, d.integrity@, d.commit@, d.repo@)
}

/// The texts of packages in repositories.
pub open spec fn dependency_texts(v: Seq<GitDependency>) -> Seq<
    (Seq<char>, Seq<char>, Seq<char>, Seq<char>),
> {
    v.map_values(|d: GitDependency| dependency_text(d))
}

/// The sources that are repositories: name, checksum, commit and repository.
pub open spec fn git_sources(v: Seq<Source>) -> Seq<(Seq<char>, Seq<char>, Seq<char>, Seq<char>)>
    decreases v.len(),
{
    if v.len() == 0 {
        seq![]
    } else {
        match v.last() {
            Source::Git { name, integrity, commit, repo } => git_sources(v.drop_last()).push(
                (name@, integrity@, commit@, repo@),
            ),
            Source::Tgz { .. } => git_sources(v.drop_last()),
        }
    }
}

/// How a package is packed: the file that is created first, if any, and the command that is run in
/// the directory.
#[derive(Debug)]
pub struct PackPlan {
    pub create: Option<String>,
    pub command: Invocation,
    pub dir: String,
}

/// A package that was packed, and what its archive in the cache is made of.
#[derive(Debug)]
pub struct PackedDependency {
    pub name: String,
    pub protocol: String,
    pub reference: String,
    pub integrity: String,
    /// The packed archive.
    pub tgz: String,
}

/// Where a commit was checked out.
pub open spec fn checkout(commit: Seq<char>) -> Seq<char> {
    ".yarn/cache/"@ + commit
}

/// A character that is white space in Unicode.
pub open spec fn is_white_space(c: char) -> bool {
    ||| '\u{9}' <= c <= '\u{d}'
    ||| c == '\u{20}'
    ||| c == '\u{85}'
    ||| c == '\u{a0}'
    ||| c == '\u{1680}'
    ||| '\u{2000}' <= c <= '\u{200a}'
    ||| c == '\u{2028}'
    ||| c == '\u{2029}'
    ||| c == '\u{202f}'
    ||| c == '\u{205f}'
    ||| c == '\u{3000}'
}

/// The text without the white space at its start.
pub open spec fn trimmed_start(s: Seq<char>) -> Seq<char>
    decreases s.len(),
{
    if s.len() > 0 && is_white_space(s[0]) {
        trimmed_start(s.drop_first())
    } else {
        s
    }
}

/// The text without the white space at its end.
pub open spec fn trimmed_end(s: Seq<char>) -> Seq<char>
    decreases s.len(),
{
    if s.len() > 0 && is_white_space(s.last()) {
        trimmed_end(s.drop_last())
    } else {
        s
    }
}

/// Whether a character is white space.
fn is_white(c: char) -> (r: bool)
    ensures
        r == is_white_space(c),
{
    ('\u{9}' <= c && c <= '\u{d}') || c == '\u{20}' || c == '\u{85}' || c == '\u{a0}' || c
        == '\u{1680}' || ('\u{2000}' <= c && c <= '\u{200a}') || c == '\u{2028}' || c == '\u{2029}'
        || c == '\u{202f}' || c == '\u{205f}' || c == '\u{3000}'
}

/// Removes the white space around a text.
pub fn trim<'a>(s: &'a str) -> (r: &'a str)
    ensures
        r@ == trimmed_end(trimmed_start(s@)),
{
    let v = text::chars(s);
    let mut start: usize = 0;
    assert(s@.skip(0) =~= s@);
    while start < v.len() && is_white(v[start])
        invariant
            v@ == s@,
            start <= v.len(),
            trimmed_start(s@) == trimmed_start(s@.skip(start as int)),
        decreases v.len() - start,
    {
        assert(s@.skip(start as int).drop_first() =~= s@.skip(start + 1));
        start += 1;
    }
    let ghost inner = s@.skip(start as int);
    assert(trimmed_start(s@) == inner);
    let mut end: usize = v.len();
    assert(inner.take(end - start) =~= inner);
    while start < end && is_white(v[end - 1])
        invariant
            v@ == s@,
            start <= end <= v.len(),
            inner == s@.skip(start as int),
            trimmed_end(inner) == trimmed_end(inner.take(end - start)),
        decreases end,
    {
        assert(inner.take(end - start).drop_last() =~= inner.take(end - start - 1));
        end -= 1;
    }
    assert(inner.take(end - start) =~= s@.subrange(start as int, end as int));
    s.substring_char(start, end)
}

impl Cache {
    /// Picks the packages that have to be packed.
    pub fn repack_git_deps(&self, sources: Vec<Source>) -> (r: Vec<GitDependency>)
        ensures
            dependency_texts(r@) == git_sources(sources@),
    {
        let mut r: Vec<GitDependency> = Vec::new();
        proof {
            assert(dependency_texts(r@) =~= seq![]);
            assert(sources@.take(0) =~= seq![]);
        }
        for source in it: sources
            invariant
                it.seq() == sources@,
                dependency_texts(r@) == git_sources(sources@.take(it.index() as int)),
        {
            proof {
                let n = it.index() as int;
                assert(sources@.take(n + 1).drop_last() =~= sources@.take(n));
                assert(sources@.take(n + 1).last() == source);
            }
            if let Source::Git { name, integrity, commit, repo } = source {
                let ghost before = r@;
                let ghost parts = (name@, integrity@, commit@, repo@);
                r.push(GitDependency { name, integrity, commit, repo });
                assert(dependency_texts(r@) =~= dependency_texts(before).push(parts));
            }
        }
        assert(sources@.take(sources@.len() as int) =~= sources@);
        r
    }
}

impl GitDependency {
    /// The directory that the commit was checked out to.
    pub fn dir(&self) -> (r: String)
        ensures
            r@ == checkout(self.commit@),
    {
        ".yarn/cache/".to_owned().concat(self.commit.as_str())
    }

    /// The file that shows that the package is packed by npm.
    pub fn package_lock(&self) -> (r: String)
        ensures
            r@ == checkout(self.commit@) + "/package-lock.json"@,
    {
        self.dir().concat("/package-lock.json")
    }

    /// Decides how the package is packed: by npm if it has a lockfile of npm's, else by yarn, which
    /// wants a lockfile of its own to be there.
    pub fn pack(&self, has_package_lock: bool) -> (r: PackPlan)
        ensures
            r.dir@ == checkout(self.commit@),
            if has_package_lock {
                &&& r.create is None
                &&& r.command.program@ == "npm"@
                &&& path::names(r.command.args@) == command::words(seq!["pack"@])
            } else {
                &&& r.create matches Some(file) && file@ == checkout(self.commit@) + "/yarn.lock"@
                &&& r.command.program@ == "yarn"@
                &&& path::names(r.command.args@) == command::words(
                    seq!["pack"@, "--out"@, "package.tgz"@],
                )
            },
    {
        if has_package_lock {
            let command = Invocation::new("npm").arg("pack");
            assert(path::names(command.args@) =~= command::words(seq!["pack"@]));
            PackPlan { create: None, command, dir: self.dir() }
        } else {
            let command = Invocation::new("yarn").arg("pack").arg("--out").arg("package.tgz");
            assert(path::names(command.args@) =~= command::words(
                seq!["pack"@, "--out"@, "package.tgz"@],
            ));
            PackPlan { create: Some(self.dir().concat("/yarn.lock")), command, dir: self.dir() }
        }
    }

    /// What the packed package is, given what the command that packed it has printed.
    pub fn packed(&self, has_package_lock: bool, stdout: &str) -> (r: PackedDependency)
        ensures
            r.name@ == self.name@,
            r.protocol@ == "https"@,
            r.reference@ == self.repo@ + "#commit="@ + self.commit@,
            r.integrity@ == self.integrity@,
            r.tgz@ == checkout(self.commit@) + "/"@ + if has_package_lock {
                trimmed_end(trimmed_start(stdout@))
            } else {
                "package.tgz"@
            },
    {
        let tgz = if has_package_lock {
            self.dir().concat("/").concat(trim(stdout))
        } else {
            self.dir().concat("/").concat("package.tgz")
        };
        PackedDependency {
            name: self.name.clone(),
            protocol: "https".to_owned(),
            reference: self.repo.clone().concat("#commit=").concat(self.commit.as_str()),
            integrity: self.integrity.clone(),
            tgz,
        }
    }
}

/// Whether a source is a repository.
pub open spec fn is_git(v: Seq<Source>, k: int) -> bool {
    v[k] is Git
}

/// The packages that are packed are those that come from repositories, each once, in order, and as
/// they are; those that come as archives are left.
pub proof fn law_repositories_are_packed(v: Seq<Source>) -> (at: Seq<int>)
    ensures
        text::lists(at, v.len() as int, |k: int| is_git(v, k)),
        git_sources(v).len() == at.len(),
        forall|a: int|
            0 <= a < at.len() ==> (v[at[a]] matches Source::Git { name, integrity, commit, repo }
                && #[trigger] git_sources(v)[a] == (name@, integrity@, commit@, repo@)),
{
    let at = lemma_git_sources(v, v.len() as int);
    assert(v.take(v.len() as int) =~= v);
    at
}

proof fn lemma_git_sources(v: Seq<Source>, n: int) -> (at: Seq<int>)
    requires
        0 <= n <= v.len(),
    ensures
        text::lists(at, n, |k: int| is_git(v, k)),
        git_sources(v.take(n)).len() == at.len(),
        forall|a: int|
            0 <= a < at.len() ==> (v[at[a]] matches Source::Git { name, integrity, commit, repo }
                && #[trigger] git_sources(v.take(n))[a] == (name@, integrity@, commit@, repo@)),
    decreases n,
{
    let wanted = |k: int| is_git(v, k);
    if n == 0 {
        Seq::empty()
    } else {
        let before = lemma_git_sources(v, n - 1);
        text::lemma_lists_next(before, n - 1, wanted);
        assert(v.take(n).drop_last() =~= v.take(n - 1));
        assert(v.take(n).last() == v[n - 1]);
        if wanted(n - 1) {
            before.push(n - 1)
        } else {
            before
        }
    }
}

/// Commits are checked out below the cache, each to a directory of its own name.
pub proof fn law_commits_have_their_directories(commit: Seq<char>, other: Seq<char>)
    ensures
        text::has_prefix(checkout(commit), ".yarn/cache/"@),
        text::has_suffix(checkout(commit), commit),
        checkout(commit).len() == ".yarn/cache/"@.len() + commit.len(),
        checkout(commit) == checkout(other) ==> commit == other,
{
    let top = ".yarn/cache/"@;
    let n = top.len() as int;
    assert(checkout(commit).skip(n) =~= commit);
    assert(checkout(other).skip(n) =~= other);
    assert forall|k: int| 0 <= k < n implies checkout(commit)[0 + k] == #[trigger] top[k] by {}
    assert forall|k: int| 0 <= k < commit.len() implies checkout(commit)[n + k]
        == #[trigger] commit[k] by {}
}

/// Trimming takes away the white space around a text, all of it, and nothing that stands between
/// other characters.
pub proof fn law_white_space_around_is_dropped(before: Seq<char>, inner: Seq<char>, after: Seq<char>)
    requires
        forall|i: int| 0 <= i < before.len() ==> is_white_space(#[trigger] before[i]),
        forall|i: int| 0 <= i < after.len() ==> is_white_space(#[trigger] after[i]),
        inner.len() > 0 ==> !is_white_space(inner[0]) && !is_white_space(inner.last()),
    ensures
        trimmed_end(trimmed_start(before + inner + after)) == inner,
    decreases before.len() + after.len(),
{
    let s = before + inner + after;
    if before.len() > 0 {
        let fewer = before.drop_first();
        assert(s[0] == before[0]);
        assert(s.drop_first() =~= fewer + inner + after);
        law_white_space_around_is_dropped(fewer, inner, after);
    } else if inner.len() == 0 && after.len() > 0 {
        let fewer = after.drop_first();
        assert(s[0] == after[0]);
        assert(s.drop_first() =~= before + inner + fewer);
        law_white_space_around_is_dropped(before, inner, fewer);
    } else if inner.len() == 0 {
        assert(s =~= inner);
    } else {
        assert(s[0] == inner[0]);
        assert(s =~= inner + after);
        lemma_end_is_dropped(inner, after);
    }
}

proof fn lemma_end_is_dropped(inner: Seq<char>, after: Seq<char>)
    requires
        forall|i: int| 0 <= i < after.len() ==> is_white_space(#[trigger] after[i]),
        inner.len() > 0,
        !is_white_space(inner.last()),
    ensures
        trimmed_end(inner + after) == inner,
    decreases after.len(),
{
    let s = inner + after;
    if after.len() > 0 {
        let fewer = after.drop_last();
        assert(s.last() == after[after.len() - 1]);
        assert(s.drop_last() =~= inner + fewer);
        lemma_end_is_dropped(inner, fewer);
    } else {
        assert(s =~= inner);
    }
}

/// Of the ASCII characters those are white space that have the numbers from nine to thirteen, and the
/// space.
pub proof fn law_ascii_white_space(c: char)
    requires
        (c as int) < 128,
    ensures
        is_white_space(c) <==> 9 <= c as int <= 13 || c as int == 32,
{
}

} // verus!
