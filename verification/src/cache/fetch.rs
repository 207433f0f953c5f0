//! What is fetched for a lockfile.

use crate::cache::{lemma_is_relative, Cache, ZipJob};
use crate::command::Invocation;
use crate::entry;
use crate::entry::{Entry, EntryExt};
use crate::path;
use crate::source;
use crate::source::{entry_to_source, MissingHashes, SourceError, SourceWithIntegrity};
use crate::text;
use vstd::prelude::*;
use vstd::string::*;
use vstd::utf8::*;

verus! {

/// What is said when a git repository could not be fetched.
pub const NIX_PREFETCH_GIT_ERR: &'static str =
    "\nError fetching berry dependencies:\n\nCould not fetch git dependency:\n";

/// Something to fetch: the number of the entry in the lockfile, and its source.
#[derive(Debug)]
pub struct Job {
    pub entry: usize,
    pub source: SourceWithIntegrity,
}

/// How something is fetched.
#[derive(Debug)]
pub enum Task {
    /// An archive is made a zip file of the cache.
    Archive(ZipJob),
    /// A command checks a commit of a repository out.
    Checkout { command: Invocation, repo: String, commit: String },
}

/// Why a lockfile cannot be fetched.
#[derive(Debug)]
pub enum FetchError {
    /// An entry has no source.
    Source(SourceError),
    /// There are checksums that no entry misses.
    OutdatedMissingHashes,
}

/// The texts of something to fetch.
pub open spec fn job_text(j: Job) -> (int, source::SourceText) {
    (j.entry as int, j.source.text())
}

/// The texts of what is to be fetched.
pub open spec fn job_texts(v: Seq<Job>) -> Seq<(int, source::SourceText)> {
    v.map_values(|j: Job| job_text(j))
}

/// What is to be fetched for entries: each that is real, in their order, or the first that has no
/// source. Beside it stand the checksums that no entry took.
pub open spec fn planned(es: Seq<Entry>, missing: Map<Seq<char>, Seq<char>>) -> (
    Result<Seq<(int, source::SourceText)>, (int, source::SourceFault)>,
    Map<Seq<char>, Seq<char>>,
)
    decreases es.len(),
{
    if es.len() == 0 {
        (Ok(seq![]), missing)
    } else {
        let (before, left) = planned(es.drop_last(), missing);
        let e = es.last();
        match before {
            Ok(jobs) if entry::is_real(e.resolved@) => {
                let (found, rest) = source::source_for(e.resolved@, e.integrity@, left);
                match found {
                    Ok(s) => (Ok(jobs.push((es.len() - 1, s))), rest),
                    Err(fault) => (Err((es.len() - 1, fault)), rest),
                }
            },
            _ => (before, left),
        }
    }
}

/// Whether the sources of the entries can be looked for, up to the first that has none.
pub open spec fn can_be_planned(es: Seq<Entry>, missing: Map<Seq<char>, Seq<char>>) -> bool {
    forall|i: int|
        0 <= i < es.len() && planned(#[trigger] es.take(i), missing).0 is Ok ==> source::is_sound(
            es[i].resolved@,
            es[i].integrity@,
        )
}

/// The numbers of the entries that are real.
pub open spec fn real_entries(es: Seq<Entry>) -> Seq<int>
    decreases es.len(),
{
    if es.len() == 0 {
        seq![]
    } else if entry::is_real(es.last().resolved@) {
        real_entries(es.drop_last()).push(es.len() - 1)
    } else {
        real_entries(es.drop_last())
    }
}

/// Once an entry has no source, the entries behind it do not matter.
proof fn lemma_first_fault(es: Seq<Entry>, missing: Map<Seq<char>, Seq<char>>, i: int)
    requires
        0 <= i <= es.len(),
        planned(es.take(i), missing).0 is Err,
    ensures
        planned(es, missing) == planned(es.take(i), missing),
    decreases es.len() - i,
{
    if i == es.len() {
        assert(es.take(i) =~= es);
    } else {
        assert(es.take(i + 1).drop_last() =~= es.take(i));
        lemma_first_fault(es, missing, i + 1);
    }
}

/// Whether the checksums for the entries are the same.
spec fn agree_on(
    es: Seq<Entry>,
    one: Map<Seq<char>, Seq<char>>,
    other: Map<Seq<char>, Seq<char>>,
) -> bool {
    forall|i: int| #![trigger es[i]] 0 <= i < es.len() ==> same_at(one, other, es[i].resolved@)
}

/// Whether there is the same under a key, or nothing.
spec fn same_at(
    one: Map<Seq<char>, Seq<char>>,
    other: Map<Seq<char>, Seq<char>>,
    key: Seq<char>,
) -> bool {
    one.contains_key(key) == other.contains_key(key) && (one.contains_key(key) ==> one[key]
        == other[key])
}

/// Only the checksums for the entries count.
proof fn lemma_plans_agree(
    es: Seq<Entry>,
    one: Map<Seq<char>, Seq<char>>,
    other: Map<Seq<char>, Seq<char>>,
    n: int,
)
    requires
        0 <= n <= es.len(),
        agree_on(es, one, other),
    ensures
        planned(es.take(n), one).0 == planned(es.take(n), other).0,
        agree_on(es, planned(es.take(n), one).1, planned(es.take(n), other).1),
    decreases n,
{
    if n > 0 {
        lemma_plans_agree(es, one, other, n - 1);
        assert(es.take(n).drop_last() =~= es.take(n - 1));
        assert(es.take(n).last() == es[n - 1]);
    }
}

/// The checksums that there are for the entries.
fn wanted(missing_hashes: &MissingHashes, entries: &Vec<Entry>) -> (r: MissingHashes)
    ensures
        agree_on(entries@, missing_hashes@, r@),
{
    let mut r = MissingHashes::new();
    let mut i: usize = 0;
    while i < entries.len()
        invariant
            i <= entries@.len(),
            forall|k: int|
                #![trigger entries@[k]]
                0 <= k < i ==> same_at(missing_hashes@, r@, entries@[k].resolved@),
            forall|key: Seq<char>| #[trigger]
                r@.contains_key(key) ==> same_at(missing_hashes@, r@, key),
        decreases entries@.len() - i,
    {
        let resolved = entries[i].resolved.as_str();
        if let Some(integrity) = missing_hashes.get(resolved) {
            r.insert(resolved.to_owned(), integrity);
        }
        i = i + 1;
    }
    r
}

impl FetchError {
    /// What is said of the error.
    pub open spec fn text(self) -> Seq<char> {
        match self {
            FetchError::Source(error) => error.text(),
            FetchError::OutdatedMissingHashes => source::OUTDATED_MISSING_HASHES_ERR@,
        }
    }

    /// The message for the user.
    pub fn message(&self) -> (r: String)
        ensures
            r@ == self.text(),
    {
        match self {
            FetchError::Source(error) => error.message(),
            FetchError::OutdatedMissingHashes => source::OUTDATED_MISSING_HASHES_ERR.to_owned(),
        }
    }

    /// What the error comes from, if there is more to say.
    pub fn cause(&self) -> (r: Option<&'static str>)
        ensures
            text::opt_str(r) == match self {
                FetchError::Source(error) if error.fault() is MissingHash => Some(
                    source::OUTDATED_MISSING_HASHES_ERR@,
                ),
                _ => None,
            },
    {
        match self {
            FetchError::Source(error) => error.cause(),
            FetchError::OutdatedMissingHashes => None,
        }
    }
}

impl Cache {
    /// Decides what is fetched for the lockfile. The missing checksums stand in for those that the
    /// lockfile does not have, and all of them must be used.
    pub fn fetch_all(&self, missing_hashes: MissingHashes) -> (r: Result<Vec<Job>, FetchError>)
        requires
            can_be_planned(self.lockfile.entries@, missing_hashes@),
        ensures
            match planned(self.lockfile.entries@, missing_hashes@) {
                (Err((i, fault)), _) => r matches Err(FetchError::Source(error)) && error.fault()
                    == fault && error.about() == self.lockfile.entries@[i].resolved@,
                (Ok(jobs), left) => if left == Map::<Seq<char>, Seq<char>>::empty() {
                    r matches Ok(v) && job_texts(v@) == jobs
                } else {
                    r matches Err(FetchError::OutdatedMissingHashes)
                },
            },
    {
        let ghost es = self.lockfile.entries@;
        let ghost missing = missing_hashes@;
        let mut left = missing_hashes;
        let mut jobs: Vec<Job> = Vec::new();
        let mut i: usize = 0;
        proof {
            assert(es.take(0) =~= seq![]);
            assert(job_texts(jobs@) =~= seq![]);
        }
        while i < self.lockfile.entries.len()
            invariant
                i <= es.len(),
                es == self.lockfile.entries@,
                missing == missing_hashes@,
                can_be_planned(es, missing),
                planned(es.take(i as int), missing) == (
                    Ok::<Seq<(int, source::SourceText)>, (int, source::SourceFault)>(
                        job_texts(jobs@),
                    ),
                    left@,
                ),
            decreases es.len() - i,
        {
            let e = &self.lockfile.entries[i];
            proof {
                assert(es.take(i + 1).drop_last() =~= es.take(i as int));
                assert(es.take(i + 1).last() == *e);
            }
            if e.is_real_source() {
                match entry_to_source(e, &mut left) {
                    Ok(source) => {
                        let ghost before = jobs@;
                        jobs.push(Job { entry: i, source });
                        assert(job_texts(jobs@) =~= job_texts(before).push(
                            (i as int, source.text()),
                        ));
                    },
                    Err(error) => {
                        proof {
                            lemma_first_fault(es, missing, i + 1);
                        }
                        return Err(FetchError::Source(error));
                    },
                }
            }
            i = i + 1;
        }
        assert(es.take(i as int) =~= es);
        if left.is_empty() {
            Ok(jobs)
        } else {
            Err(FetchError::OutdatedMissingHashes)
        }
    }

    /// Whether the sources of the entries can be looked for, up to the first that has none.
    pub fn can_fetch_all(&self, missing_hashes: &MissingHashes) -> (r: bool)
        ensures
            r == can_be_planned(self.lockfile.entries@, missing_hashes@),
    {
        let ghost es = self.lockfile.entries@;
        let ghost missing = missing_hashes@;
        let mut left = wanted(missing_hashes, &self.lockfile.entries);
        let ghost some = left@;
        let mut i: usize = 0;
        assert(es.take(0) =~= seq![]);
        while i < self.lockfile.entries.len()
            invariant
                i <= es.len(),
                es == self.lockfile.entries@,
                missing == missing_hashes@,
                agree_on(es, missing, some),
                planned(es.take(i as int), some).0 is Ok,
                planned(es.take(i as int), some).1 == left@,
                forall|k: int|
                    0 <= k < i ==> source::is_sound(
                        (#[trigger] es[k]).resolved@,
                        es[k].integrity@,
                    ),
            decreases es.len() - i,
        {
            let e = &self.lockfile.entries[i];
            proof {
                assert(es.take(i + 1).drop_last() =~= es.take(i as int));
                assert(es.take(i + 1).last() == *e);
                lemma_plans_agree(es, missing, some, i as int);
                lemma_plans_agree(es, missing, some, i + 1);
            }
            if !e.can_be_looked_up() {
                return false;
            }
            if e.is_real_source() && entry_to_source(e, &mut left).is_err() {
                proof {
                    assert forall|k: int|
                        0 <= k < es.len() && planned(
                            #[trigger] es.take(k),
                            missing,
                        ).0 is Ok implies source::is_sound(es[k].resolved@, es[k].integrity@) by {
                        if k > i {
                            assert(es.take(k).take(i + 1) =~= es.take(i + 1));
                            lemma_first_fault(es.take(k), missing, i + 1);
                        }
                    }
                }
                return true;
            }
            i = i + 1;
        }
        true
    }

    /// Whether the source of an entry can be fetched: the file of an archive has a name.
    pub open spec fn takes(self, e: Entry, s: SourceWithIntegrity) -> bool {
        s matches SourceWithIntegrity::Tgz { integrity, .. } ==> self.has_key() && self.names(
            e,
            integrity@,
        )
    }

    /// Decides how the source of an entry is fetched.
    pub fn fetch_source(&self, e: &Entry, s: SourceWithIntegrity) -> (r: Task)
        requires
            self.takes(*e, s),
        ensures
            match s {
                SourceWithIntegrity::Tgz { url, integrity } => {
                    &&& r matches Task::Archive(job)
                    &&& self.is_job(job, *e, url, integrity)
                },
                SourceWithIntegrity::Git { repo, commit } => {
                    &&& r matches Task::Checkout { command, repo: from, commit: at }
                    &&& is_git_command(command, self.out_dir@, repo@, commit@)
                    &&& from == repo
                    &&& at == commit
                },
            },
    {
        match s {
            SourceWithIntegrity::Tgz { url, integrity } => Task::Archive(
                self.zip_job(e, url, integrity),
            ),
            SourceWithIntegrity::Git { repo, commit } => Task::Checkout {
                command: self.git_command(repo.as_str(), commit.as_str()),
                repo,
                commit,
            },
        }
    }

    /// Whether the source of an entry can be fetched.
    pub fn can_fetch(&self, e: &Entry, s: &SourceWithIntegrity) -> (r: bool)
        ensures
            r == self.takes(*e, *s),
    {
        match s {
            SourceWithIntegrity::Tgz { integrity, .. } => self.lockfile.cache_key_parsed().is_some()
                && self.can_name(e, integrity.as_str()),
            SourceWithIntegrity::Git { .. } => true,
        }
    }

    /// The command that fetches a git repository at a commit.
    pub fn git_command(&self, repo: &str, commit: &str) -> (r: Invocation)
        ensures
            is_git_command(r, self.out_dir@, repo@, commit@),
    {
        let checkouts = path::join(self.out_dir.as_slice(), "checkouts".as_bytes());
        let checkout = path::join(checkouts.as_slice(), commit.as_bytes());
        let r = Invocation::new("nix-prefetch-git").arg("--builder").arg(repo).arg(commit).arg(
            "--out",
        ).arg_bytes(checkout.as_slice());
        assert(path::names(r.args@) =~= seq![
            encode_utf8("--builder"@),
            encode_utf8(repo@),
            encode_utf8(commit@),
            encode_utf8("--out"@),
            checkout_path(self.out_dir@, commit@),
        ]);
        r
    }
}

/// Whether a command fetches a git repository at a commit.
pub open spec fn is_git_command(
    command: Invocation,
    out_dir: Seq<u8>,
    repo: Seq<char>,
    commit: Seq<char>,
) -> bool {
    &&& command.program@ == "nix-prefetch-git"@
    &&& path::names(command.args@) == seq![
        encode_utf8("--builder"@),
        encode_utf8(repo),
        encode_utf8(commit),
        encode_utf8("--out"@),
        checkout_path(out_dir, commit),
    ]
}

/// Where a commit is checked out.
pub open spec fn checkout_path(out_dir: Seq<u8>, commit: Seq<char>) -> Seq<u8> {
    path::joined(path::joined(out_dir, encode_utf8("checkouts"@)), encode_utf8(commit))
}

/// If every real entry has a source, each of them is fetched, in their order, and no other.
pub proof fn law_real_entries_are_fetched(es: Seq<Entry>, missing: Map<Seq<char>, Seq<char>>)
    requires
        planned(es, missing).0 is Ok,
    ensures
        planned(es, missing).0->Ok_0.map_values(|j: (int, source::SourceText)| j.0) == real_entries(
            es,
        ),
    decreases es.len(),
{
    let f = |j: (int, source::SourceText)| j.0;
    let jobs = planned(es, missing).0->Ok_0;
    if es.len() == 0 {
        assert(jobs.map_values(f) =~= seq![]);
    } else {
        law_real_entries_are_fetched(es.drop_last(), missing);
        let before = planned(es.drop_last(), missing).0->Ok_0;
        if entry::is_real(es.last().resolved@) {
            assert(jobs.drop_last() =~= before);
            assert(jobs.map_values(f) =~= before.map_values(f).push(es.len() - 1));
        }
    }
}

/// A checksum that belongs to no entry is left over, so that the missing checksums are refused.
pub proof fn law_superfluous_checksum_is_refused(
    es: Seq<Entry>,
    missing: Map<Seq<char>, Seq<char>>,
    key: Seq<char>,
)
    requires
        missing.contains_key(key),
        forall|i: int| 0 <= i < es.len() ==> (#[trigger] es[i]).resolved@ != key,
    ensures
        planned(es, missing).1.contains_key(key),
        planned(es, missing).1 != Map::<Seq<char>, Seq<char>>::empty(),
    decreases es.len(),
{
    if es.len() > 0 {
        let init = es.drop_last();
        assert forall|i: int| 0 <= i < init.len() implies (#[trigger] init[i]).resolved@ != key by {
            assert(init[i] == es[i]);
        }
        law_superfluous_checksum_is_refused(init, missing, key);
        assert(es.last() == es[es.len() - 1]);
    }
}

/// Each of the real entries is fetched from its own source, in their order, with the checksums that
/// the entries before it have left; if one has no source, the first of them is reported, for its own
/// reason.
pub proof fn law_entries_have_their_sources(
    es: Seq<Entry>,
    missing: Map<Seq<char>, Seq<char>>,
) -> (at: Seq<int>)
    ensures
        match planned(es, missing).0 {
            Ok(jobs) => {
                &&& text::lists(at, es.len() as int, |k: int| entry::is_real(es[k].resolved@))
                &&& jobs.len() == at.len()
                &&& forall|a: int|
                    0 <= a < at.len() ==> (#[trigger] jobs[a]).0 == at[a] && source::source_for(
                        es[at[a]].resolved@,
                        es[at[a]].integrity@,
                        planned(es.take(at[a]), missing).1,
                    ).0 == Ok::<source::SourceText, source::SourceFault>(jobs[a].1)
            },
            Err((i, fault)) => {
                &&& 0 <= i < es.len()
                &&& entry::is_real(es[i].resolved@)
                &&& planned(es.take(i), missing).0 is Ok
                &&& source::source_for(
                    es[i].resolved@,
                    es[i].integrity@,
                    planned(es.take(i), missing).1,
                ).0 == Err::<source::SourceText, source::SourceFault>(fault)
            },
        },
{
    let at = lemma_sources(es, missing, es.len() as int);
    assert(es.take(es.len() as int) =~= es);
    at
}

proof fn lemma_sources(es: Seq<Entry>, missing: Map<Seq<char>, Seq<char>>, n: int) -> (at: Seq<int>)
    requires
        0 <= n <= es.len(),
    ensures
        match planned(es.take(n), missing).0 {
            Ok(jobs) => {
                &&& text::lists(at, n, |k: int| entry::is_real(es[k].resolved@))
                &&& jobs.len() == at.len()
                &&& forall|a: int|
                    0 <= a < at.len() ==> (#[trigger] jobs[a]).0 == at[a] && source::source_for(
                        es[at[a]].resolved@,
                        es[at[a]].integrity@,
                        planned(es.take(at[a]), missing).1,
                    ).0 == Ok::<source::SourceText, source::SourceFault>(jobs[a].1)
            },
            Err((i, fault)) => {
                &&& 0 <= i < n
                &&& entry::is_real(es[i].resolved@)
                &&& planned(es.take(i), missing).0 is Ok
                &&& source::source_for(
                    es[i].resolved@,
                    es[i].integrity@,
                    planned(es.take(i), missing).1,
                ).0 == Err::<source::SourceText, source::SourceFault>(fault)
            },
        },
    decreases n,
{
    let wanted = |k: int| entry::is_real(es[k].resolved@);
    if n == 0 {
        Seq::empty()
    } else {
        let before = lemma_sources(es, missing, n - 1);
        assert(es.take(n).drop_last() =~= es.take(n - 1));
        assert(es.take(n).last() == es[n - 1]);
        if planned(es.take(n - 1), missing).0 is Ok {
            text::lemma_lists_next(before, n - 1, wanted);
        }
        if wanted(n - 1) {
            before.push(n - 1)
        } else {
            before
        }
    }
}

/// How a repository is fetched: the command gets the repository and the commit as they are, and checks
/// out to the directory that is named by the commit, in `checkouts` of where the cache is.
pub proof fn law_repositories_are_checked_out(
    command: Invocation,
    out_dir: Seq<u8>,
    repo: Seq<char>,
    commit: Seq<char>,
)
    requires
        is_git_command(command, out_dir, repo, commit),
        commit.len() > 0,
        commit[0] != '/',
        out_dir.len() > 0,
        out_dir.last() != 47,
    ensures
        command.program@ == "nix-prefetch-git"@,
        command.args@.len() == 5,
        command.args@[0]@ == encode_utf8("--builder"@),
        command.args@[1]@ == encode_utf8(repo),
        command.args@[2]@ == encode_utf8(commit),
        command.args@[3]@ == encode_utf8("--out"@),
        command.args@[4]@ == out_dir + encode_utf8("/checkouts/"@) + encode_utf8(commit),
{
    let args = path::names(command.args@);
    assert(args.len() == command.args@.len());
    assert(args[0] == command.args@[0]@ && args[1] == command.args@[1]@ && args[2]
        == command.args@[2]@ && args[3] == command.args@[3]@ && args[4] == command.args@[4]@);
    lemma_is_relative(commit);
    reveal_strlit("checkouts");
    reveal_strlit("/checkouts/");
    assert(is_ascii_chars("checkouts"@));
    assert(is_ascii_chars("/checkouts/"@));
    is_ascii_chars_encode_utf8("checkouts"@);
    is_ascii_chars_encode_utf8("/checkouts/"@);
    assert(encode_utf8("/checkouts/"@) =~= seq![47u8] + encode_utf8("checkouts"@) + seq![47u8]);
    assert(checkout_path(out_dir, commit) =~= out_dir + encode_utf8("/checkouts/"@) + encode_utf8(
        commit,
    ));
}

} // verus!
