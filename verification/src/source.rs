//! Where the entries of a lockfile are fetched from.

use crate::entry;
use crate::entry::{Entry, EntryExt};
use crate::text;
use vstd::hash_map::StringHashMap;
use vstd::prelude::*;
use vstd::string::*;
use vstd::utf8::*;

verus! {

/// What is said when the missing hashes do not fit the lockfile.
pub const OUTDATED_MISSING_HASHES_ERR: &'static str =
    "\nError fetching berry dependencies:\n\nThe missingHashes passed to fetchYarnBerryDeps was either missing or outdated\nand did not match the provided yarn.lock file.  Refer to the manual for more\ninformation:\n\nhttps://nixos.org/manual/nixpkgs/unstable/#javascript-yarnBerry-missing-hashes\n";

/// A source that can be checked.
#[derive(Debug)]
pub enum SourceWithIntegrity {
    Tgz { url: String, integrity: String },
    Git { repo: String, commit: String },
}

/// A source that cannot be checked yet.
#[derive(Debug)]
pub enum SourceWithoutIntegrity {
    Tgz { url: String },
}

/// Why an entry has no source.
#[derive(Debug)]
pub enum SourceError {
    Ambiguous { resolved: String },
    MissingHash { resolved: String },
    InvalidLength { resolved: String },
    NoCommit { resolved: String },
    Unsupported { resolved: String },
}

/// The texts of a source.
pub enum SourceText {
    Tgz { url: Seq<char>, integrity: Seq<char> },
    Git { repo: Seq<char>, commit: Seq<char> },
}

/// The kinds of errors.
pub enum SourceFault {
    Ambiguous,
    MissingHash,
    InvalidLength,
    NoCommit,
    Unsupported,
}

impl SourceWithIntegrity {
    /// The texts of the source.
    pub open spec fn text(self) -> SourceText {
        match self {
            SourceWithIntegrity::Tgz { url, integrity } => SourceText::Tgz {
                url: url@,
                integrity: integrity@,
            },
            SourceWithIntegrity::Git { repo, commit } => SourceText::Git {
                repo: repo@,
                commit: commit@,
            },
        }
    }
}

impl SourceError {
    /// What kind of error it is.
    pub open spec fn fault(self) -> SourceFault {
        match self {
            SourceError::Ambiguous { .. } => SourceFault::Ambiguous,
            SourceError::MissingHash { .. } => SourceFault::MissingHash,
            SourceError::InvalidLength { .. } => SourceFault::InvalidLength,
            SourceError::NoCommit { .. } => SourceFault::NoCommit,
            SourceError::Unsupported { .. } => SourceFault::Unsupported,
        }
    }

    /// The entry that the error is about.
    pub open spec fn about(self) -> Seq<char> {
        match self {
            SourceError::Ambiguous { resolved } => resolved@,
            SourceError::MissingHash { resolved } => resolved@,
            SourceError::InvalidLength { resolved } => resolved@,
            SourceError::NoCommit { resolved } => resolved@,
            SourceError::Unsupported { resolved } => resolved@,
        }
    }

    /// What is said of the error.
    pub open spec fn text(self) -> Seq<char> {
        let said = match self.fault() {
            SourceFault::Ambiguous => "Ambiguous source: "@,
            SourceFault::MissingHash => "unable to find missing hash for "@,
            SourceFault::InvalidLength =>
                "Invalid length for sha512 integrity in missing-hashes.json "@,
            SourceFault::NoCommit => "Git dependency without commit hash: "@,
            SourceFault::Unsupported => "Unsupported or unrecognized source: "@,
        };
        said + self.about()
    }

    /// The message for the user.
    pub fn message(&self) -> (r: String)
        ensures
            r@ == self.text(),
    {
        match self {
            SourceError::Ambiguous { resolved } => "Ambiguous source: ".to_owned().concat(
                resolved.as_str(),
            ),
            SourceError::MissingHash { resolved } =>
                "unable to find missing hash for ".to_owned().concat(resolved.as_str()),
            SourceError::InvalidLength { resolved } =>
                "Invalid length for sha512 integrity in missing-hashes.json ".to_owned().concat(
                resolved.as_str(),
            ),
            SourceError::NoCommit { resolved } =>
                "Git dependency without commit hash: ".to_owned().concat(resolved.as_str()),
            SourceError::Unsupported { resolved } =>
                "Unsupported or unrecognized source: ".to_owned().concat(resolved.as_str()),
        }
    }

    /// What the error comes from, if there is more to say.
    pub fn cause(&self) -> (r: Option<&'static str>)
        ensures
            text::opt_str(r) == if self.fault() is MissingHash {
                Some(OUTDATED_MISSING_HASHES_ERR@)
            } else {
                None
            },
    {
        match self {
            SourceError::MissingHash { .. } => Some(OUTDATED_MISSING_HASHES_ERR),
            _ => None,
        }
    }
}

/// Whether an entry could come from more than one kind of source.
pub open spec fn is_ambiguous(r: Seq<char>) -> bool {
    ||| entry::comes_from_npm(r) && entry::comes_from_tar(r)
    ||| entry::comes_from_npm(r) && entry::comes_from_git(r)
    ||| entry::comes_from_tar(r) && entry::comes_from_git(r)
}

/// Whether an entry comes as an archive.
pub open spec fn is_tgz(r: Seq<char>) -> bool {
    entry::comes_from_npm(r) || entry::comes_from_tar(r)
}

/// Where the archive of an entry is.
pub open spec fn url_of(r: Seq<char>) -> Seq<char> {
    if entry::comes_from_npm(r) {
        entry::npm_url_of(r)
    } else {
        entry::resolution_of(r)
    }
}

/// The commit that the entry names.
pub open spec fn commit_of(r: Seq<char>) -> Option<Seq<char>> {
    entry::commit_in(entry::selector_of(r))
}

/// The repository of an entry at a commit.
pub open spec fn git_source(r: Seq<char>, commit: Seq<char>) -> SourceText {
    SourceText::Git { repo: entry::protocol_and_source_of(r)->Some_0, commit }
}

/// Whether it is known how to fetch an entry, though perhaps not with what checksum.
pub open spec fn is_fetchable(r: Seq<char>, integrity: Seq<char>) -> bool {
    &&& entry::is_locator(r)
    &&& !is_ambiguous(r)
    &&& if is_tgz(r) {
        entry::has_sound_integrity(integrity)
    } else {
        entry::comes_from_git(r) && commit_of(r) is Some
    }
}

/// Whether an archive is still to be given its checksum.
pub open spec fn lacks_integrity(r: Seq<char>, integrity: Seq<char>) -> bool {
    is_tgz(r) && entry::sha512_of(integrity) is None
}

/// The source of an entry whose checksum is looked up among the missing ones if it has none, and
/// the missing checksums that are left.
pub open spec fn source_for(
    r: Seq<char>,
    integrity: Seq<char>,
    missing: Map<Seq<char>, Seq<char>>,
) -> (Result<SourceText, SourceFault>, Map<Seq<char>, Seq<char>>) {
    if is_ambiguous(r) {
        (Err(SourceFault::Ambiguous), missing)
    } else if is_tgz(r) {
        match entry::sha512_of(integrity) {
            Some(sum) => (Ok(SourceText::Tgz { url: url_of(r), integrity: sum }), missing),
            None => if !missing.contains_key(r) {
                (Err(SourceFault::MissingHash), missing)
            } else if text::byte_len(missing[r]) != 128 {
                (Err(SourceFault::InvalidLength), missing.remove(r))
            } else {
                (
                    Ok(SourceText::Tgz { url: url_of(r), integrity: missing[r] }),
                    missing.remove(r),
                )
            },
        }
    } else if entry::comes_from_git(r) {
        match commit_of(r) {
            Some(commit) => (Ok(git_source(r, commit)), missing),
            None => (Err(SourceFault::NoCommit), missing),
        }
    } else {
        (Err(SourceFault::Unsupported), missing)
    }
}

/// Checksums of entries that have none in the lockfile, by the resolution.
pub struct MissingHashes {
    map: StringHashMap<String>,
}

impl View for MissingHashes {
    type V = Map<Seq<char>, Seq<char>>;

    closed spec fn view(&self) -> Map<Seq<char>, Seq<char>> {
        self.map@.map_values(|v: String| v@)
    }
}

impl MissingHashes {
    /// No checksums.
    pub fn new() -> (r: MissingHashes)
        ensures
            r@ == Map::<Seq<char>, Seq<char>>::empty(),
    {
        let r = MissingHashes { map: StringHashMap::new() };
        assert(r@ =~= Map::<Seq<char>, Seq<char>>::empty());
        r
    }

    /// Adds a checksum, in place of one that is there.
    pub fn insert(&mut self, resolved: String, integrity: String)
        ensures
            final(self)@ == old(self)@.insert(resolved@, integrity@),
    {
        self.map.insert(resolved, integrity);
        assert(self@ =~= old(self)@.insert(resolved@, integrity@));
    }

    /// Whether there are no checksums.
    pub fn is_empty(&self) -> (r: bool)
        ensures
            r == (self@ == Map::<Seq<char>, Seq<char>>::empty()),
    {
        let r = self.map.is_empty();
        proof {
            if self.map@.is_empty() {
                assert(self@ =~= Map::<Seq<char>, Seq<char>>::empty());
            } else {
                assert(self.map@.dom() =~= self@.dom());
                if self@ == Map::<Seq<char>, Seq<char>>::empty() {
                    assert(self.map@.dom() =~= Set::<Seq<char>>::empty());
                    assert(self.map@ =~= Map::<Seq<char>, String>::empty());
                }
            }
        }
        r
    }

    /// A checksum.
    pub fn get(&self, resolved: &str) -> (r: Option<String>)
        ensures
            text::opt_text(r) == if self@.contains_key(resolved@) {
                Some(self@[resolved@])
            } else {
                None
            },
    {
        match self.map.get(resolved) {
            Some(integrity) => Some(integrity.clone()),
            None => None,
        }
    }

    /// Takes a checksum out.
    pub fn take(&mut self, resolved: &str) -> (r: Option<String>)
        ensures
            match r {
                Some(integrity) => old(self)@.contains_key(resolved@) && integrity@ == old(
                    self,
                )@[resolved@] && final(self)@ == old(self)@.remove(resolved@),
                None => !old(self)@.contains_key(resolved@) && final(self)@ == old(self)@,
            },
    {
        let found = self.get(resolved);
        if found.is_some() {
            self.map.remove(resolved);
            assert(self@ =~= old(self)@.remove(resolved@));
        }
        found
    }
}

/// Whether an entry could come from more than one kind of source.
fn has_two_kinds(e: &Entry) -> (r: bool)
    requires
        entry::is_locator(e.resolved@),
    ensures
        r == is_ambiguous(e.resolved@),
{
    let npm = e.is_npm();
    let tar = e.is_tar();
    let git = e.is_git();
    (npm && tar) || (npm && git) || (tar && git)
}

/// Where the archive of an entry is.
fn archive_url(e: &Entry) -> (r: String)
    requires
        entry::is_locator(e.resolved@),
    ensures
        r@ == url_of(e.resolved@),
{
    if e.is_npm() {
        e.npm_url()
    } else {
        e.resolution().to_owned()
    }
}

/// The repository that an entry comes from.
fn repository(e: &Entry) -> (r: String)
    requires
        entry::has_name(e.resolved@),
        entry::comes_from_git(e.resolved@),
    ensures
        r@ == entry::protocol_and_source_of(e.resolved@)->Some_0,
{
    proof {
        entry::law_git_names_its_repository(e.resolved@);
    }
    match e.protocol_and_source() {
        Some(repo) => repo.to_owned(),
        None => String::new(),
    }
}

impl Entry {
    /// Whether it is known how to fetch the entry, though perhaps not with what checksum.
    pub fn can_be_fetched(&self) -> (r: bool)
        ensures
            r == is_fetchable(self.resolved@, self.integrity@),
    {
        if !self.is_well_formed() || has_two_kinds(self) {
            false
        } else if self.is_npm() || self.is_tar() {
            self.is_soundly_checked()
        } else {
            self.is_git() && self.git_commit().is_some()
        }
    }

    /// Whether the source of the entry can be looked for.
    pub fn can_be_looked_up(&self) -> (r: bool)
        ensures
            r == is_sound(self.resolved@, self.integrity@),
    {
        self.is_well_formed() && (!self.is_real_source() || has_two_kinds(self) || !(self.is_npm()
            || self.is_tar()) || self.is_soundly_checked())
    }
}

/// Whether the source of an entry can be looked for: a checksum that is used has its length.
pub open spec fn is_sound(r: Seq<char>, integrity: Seq<char>) -> bool {
    &&& entry::is_locator(r)
    &&& entry::is_real(r) && !is_ambiguous(r) && is_tgz(r) ==> entry::has_sound_integrity(integrity)
}

impl SourceWithIntegrity {
    /// The source of an entry, or what there is of it if the checksum is missing.
    pub fn try_from(e: &Entry) -> (r: Result<SourceWithIntegrity, SourceWithoutIntegrity>)
        requires
            is_fetchable(e.resolved@, e.integrity@),
        ensures
            if lacks_integrity(e.resolved@, e.integrity@) {
                r matches Err(SourceWithoutIntegrity::Tgz { url }) && url@ == url_of(e.resolved@)
            } else {
                r matches Ok(source) && Ok::<SourceText, SourceFault>(source.text()) == source_for(
                    e.resolved@,
                    e.integrity@,
                    Map::<Seq<char>, Seq<char>>::empty(),
                ).0
            },
    {
        if e.is_npm() || e.is_tar() {
            match e.integrity_sha512() {
                None => Err(SourceWithoutIntegrity::Tgz { url: archive_url(e) }),
                Some(integrity) => Ok(
                    SourceWithIntegrity::Tgz {
                        url: archive_url(e),
                        integrity: integrity.to_owned(),
                    },
                ),
            }
        } else {
            let commit = match e.git_commit() {
                Some(commit) => commit.to_owned(),
                None => String::new(),
            };
            Ok(SourceWithIntegrity::Git { repo: repository(e), commit })
        }
    }
}

/// Finds the source of an entry. If the lockfile holds no checksum, one is taken from the missing
/// ones.
pub fn entry_to_source(e: &Entry, missing_lookup: &mut MissingHashes) -> (r: Result<
    SourceWithIntegrity,
    SourceError,
>)
    requires
        entry::is_locator(e.resolved@),
        !is_ambiguous(e.resolved@) && is_tgz(e.resolved@) ==> entry::has_sound_integrity(
            e.integrity@,
        ),
    ensures
        ({
            let (source, left) = source_for(e.resolved@, e.integrity@, old(missing_lookup)@);
            &&& final(missing_lookup)@ == left
            &&& match r {
                Ok(s) => source == Ok::<SourceText, SourceFault>(s.text()),
                Err(error) => source == Err::<SourceText, SourceFault>(error.fault())
                    && error.about() == e.resolved@,
            }
        }),
{
    if has_two_kinds(e) {
        return Err(SourceError::Ambiguous { resolved: e.resolved.clone() });
    }
    if e.is_npm() || e.is_tar() {
        let integrity = match e.integrity_sha512() {
            Some(integrity) => integrity.to_owned(),
            None => match missing_lookup.take(e.resolved.as_str()) {
                Some(integrity) => integrity,
                None => {
                    return Err(SourceError::MissingHash { resolved: e.resolved.clone() });
                },
            },
        };
        let url = archive_url(e);
        if integrity.as_str().as_bytes().len() != 128 {
            return Err(SourceError::InvalidLength { resolved: e.resolved.clone() });
        }
        Ok(SourceWithIntegrity::Tgz { url, integrity })
    } else if e.is_git() {
        match e.git_commit() {
            Some(commit) => Ok(
                SourceWithIntegrity::Git { repo: repository(e), commit: commit.to_owned() },
            ),
            None => Err(SourceError::NoCommit { resolved: e.resolved.clone() }),
        }
    } else {
        Err(SourceError::Unsupported { resolved: e.resolved.clone() })
    }
}

/// A checksum in the lockfile is used, whatever the missing ones are, and they stay.
pub proof fn law_lockfile_checksum_is_used(
    r: Seq<char>,
    integrity: Seq<char>,
    missing: Map<Seq<char>, Seq<char>>,
)
    requires
        !lacks_integrity(r, integrity),
    ensures
        source_for(r, integrity, missing) == (
            source_for(r, integrity, Map::<Seq<char>, Seq<char>>::empty()).0,
            missing,
        ),
{
}

/// A missing checksum is used once: an entry that had one takes it away, and no other.
pub proof fn law_missing_checksum_is_used_once(
    r: Seq<char>,
    integrity: Seq<char>,
    missing: Map<Seq<char>, Seq<char>>,
)
    requires
        lacks_integrity(r, integrity),
        !is_ambiguous(r),
    ensures
        source_for(r, integrity, missing).1 == missing.remove(r),
        missing.contains_key(r) ==> source_for(
            r,
            integrity,
            source_for(r, integrity, missing).1,
        ).0 == Err::<SourceText, SourceFault>(SourceFault::MissingHash),
{
    if !missing.contains_key(r) {
        assert(missing.remove(r) =~= missing);
    }
}

/// Every archive that is fetched has a checksum of the right length.
pub proof fn law_archives_are_checked(
    r: Seq<char>,
    integrity: Seq<char>,
    missing: Map<Seq<char>, Seq<char>>,
)
    requires
        !is_ambiguous(r) && is_tgz(r) ==> entry::has_sound_integrity(integrity),
    ensures
        source_for(r, integrity, missing).0 matches Ok(SourceText::Tgz { integrity: sum, .. })
            ==> text::byte_len(sum) == 128,
{
}

/// Whether a text can be the name of a package: an `@` stands in it at its start only.
pub open spec fn is_package_name(name: Seq<char>) -> bool {
    name.len() > 0 && forall|i: int| 0 < i < name.len() ==> #[trigger] name[i] != '@'
}

/// An archive lacks its checksum if nothing stands behind the last slash of what the lockfile has.
pub proof fn law_archives_without_checksums(r: Seq<char>, integrity: Seq<char>)
    ensures
        lacks_integrity(r, integrity) <==> (entry::comes_from_npm(r) || entry::comes_from_tar(r)) && (
        integrity.len() == 0 || integrity.last() == '/'),
{
    text::lemma_pieces_nonempty(integrity, '/');
}

/// A text without a `#` is no repository.
proof fn lemma_no_repository(name: Seq<char>, resolution: Seq<char>)
    requires
        is_package_name(name),
        !resolution.contains('#'),
    ensures
        !entry::comes_from_git(name + "@"@ + resolution),
{
    reveal_strlit(".git#");
    entry::law_repositories_are_told_by_their_urls(name, resolution);
    assert forall|before: Seq<char>, after: Seq<char>| resolution != #[trigger] (before + ".git#"@
        + after) by {
        let s = before + ".git#"@ + after;
        assert(s[before.len() + 4int] == '#');
        assert(s.contains(s[before.len() + 4int]));
    }
}

/// A package of a registry is fetched from where the registry has it, and has the checksum that
/// stands in the lockfile, whatever stands in front of that behind a slash.
pub proof fn law_packages_are_archives(
    name: Seq<char>,
    version: Seq<char>,
    before: Seq<char>,
    sum: Seq<char>,
    missing: Map<Seq<char>, Seq<char>>,
)
    requires
        is_package_name(name),
        !version.contains('#'),
        !sum.contains('/'),
        sum.len() > 0,
    ensures
        ({
            let r = name + "@"@ + ("npm"@ + ":"@ + version);
            let source = SourceText::Tgz { url: entry::npm_url_of(r), integrity: sum };
            &&& source_for(r, sum, missing) == (Ok::<SourceText, SourceFault>(source), missing)
            &&& source_for(r, before + "/"@ + sum, missing) == (
                Ok::<SourceText, SourceFault>(source),
                missing,
            )
        }),
{
    reveal_strlit("npm");
    reveal_strlit(":");
    let resolution = "npm"@ + ":"@ + version;
    assert(!"npm"@.contains(':'));
    assert(!resolution.contains('#')) by {
        if resolution.contains('#') {
            let i = choose|i: int| 0 <= i < resolution.len() && resolution[i] == '#';
            assert(version[i - 4] == '#');
        }
    }
    entry::law_protocol_reads_back(name, "npm"@, version);
    entry::law_npm_is_not_tar(name + "@"@ + resolution);
    lemma_no_repository(name, resolution);
    entry::law_checksums_read_back(before, sum);
}

/// A tarball behind a URL is fetched from that URL, all of it.
pub proof fn law_tarballs_are_archives(
    name: Seq<char>,
    protocol: Seq<char>,
    rest: Seq<char>,
    end: Seq<char>,
    before: Seq<char>,
    sum: Seq<char>,
    missing: Map<Seq<char>, Seq<char>>,
)
    requires
        is_package_name(name),
        protocol == "http"@ || protocol == "https"@,
        !rest.contains('#'),
        end == ".tgz"@ || end == ".tar.gz"@,
        !sum.contains('/'),
        sum.len() > 0,
    ensures
        ({
            let url = protocol + ":"@ + (rest + end);
            let source = SourceText::Tgz { url, integrity: sum };
            &&& source_for(name + "@"@ + url, sum, missing) == (
                Ok::<SourceText, SourceFault>(source),
                missing,
            )
            &&& source_for(name + "@"@ + url, before + "/"@ + sum, missing) == (
                Ok::<SourceText, SourceFault>(source),
                missing,
            )
        }),
{
    let url = protocol + ":"@ + (rest + end);
    assert(!protocol.contains(':') && !protocol.contains('#') && protocol.len() > 3) by {
        reveal_strlit("http");
        reveal_strlit("https");
    }
    assert("npm"@.len() == 3) by {
        reveal_strlit("npm");
    }
    assert(!end.contains('#')) by {
        reveal_strlit(".tgz");
        reveal_strlit(".tar.gz");
    }
    assert(!":"@.contains('#')) by {
        reveal_strlit(":");
    }
    text::lemma_in_neither(rest, end, '#');
    text::lemma_in_neither(protocol, ":"@, '#');
    text::lemma_in_neither(protocol + ":"@, rest + end, '#');
    lemma_no_repository(name, url);
    entry::law_protocol_reads_back(name, protocol, rest + end);
    entry::law_tarballs_are_told_by_their_urls(name, protocol, rest + end);
    let stem = protocol + ":"@ + rest;
    assert(url =~= stem + end);
    assert((stem + ".tgz"@).len() == stem.len() + ".tgz"@.len());
    entry::law_checksums_read_back(before, sum);
}

/// A commit of a repository is fetched from the repository, which is all that stands in front of
/// the `#`, and is the commit that stands behind it. It needs no checksum.
#[verifier::spinoff_prover]
#[verifier::rlimit(60)]
pub proof fn law_repositories_are_fetched_by_commit(
    name: Seq<char>,
    protocol: Seq<char>,
    rest: Seq<char>,
    commit: Seq<char>,
    integrity: Seq<char>,
    missing: Map<Seq<char>, Seq<char>>,
)
    requires
        is_package_name(name),
        protocol != "npm"@,
        !protocol.contains(':'),
        !protocol.contains('#'),
        !rest.contains('#'),
        !entry::has_colons(rest),
        !commit.contains('&'),
        !commit.contains('.'),
        !commit.contains(':'),
    ensures
        ({
            let repo = protocol + ":"@ + rest + ".git"@;
            let r = name + "@"@ + (repo + "#commit="@ + commit);
            source_for(r, integrity, missing) == (
                Ok::<SourceText, SourceFault>(SourceText::Git { repo, commit }),
                missing,
            )
        }),
{
    reveal_strlit(":");
    reveal_strlit("#");
    reveal_strlit(".git");
    reveal_strlit(".git#");
    reveal_strlit("#commit=");
    reveal_strlit("commit=");
    reveal_strlit(".tgz");
    reveal_strlit(".tar.gz");
    let repo = protocol + ":"@ + rest + ".git"@;
    let resolution = repo + "#commit="@ + commit;
    let r = name + "@"@ + resolution;
    let source = rest + ".git"@;
    let selector = "commit="@ + commit;
    let reference = source + "#"@ + selector;
    assert("#commit="@ =~= "#"@ + "commit="@);
    assert(resolution =~= protocol + ":"@ + reference);
    entry::law_protocol_reads_back(name, protocol, reference);
    assert(!entry::has_colons(reference)) by {
        if entry::has_colons(reference) {
            let i = choose|i: int|
                0 <= i && i + 1 < reference.len() && #[trigger] reference[i] == ':' && reference[i
                    + 1] == ':';
            let n = rest.len() as int;
            if i + 1 < n {
                assert(rest[i] == ':' && rest[i + 1] == ':');
            } else if i < n {
                assert(reference[n] == '.');
            } else if i >= n + 12 {
                assert(commit[i - n - 12] == ':');
                assert(commit.contains(commit[i - n - 12]));
            } else if i < n + 4 {
                assert(reference[i] == ".git"@[i - n]);
            } else if i > n + 4 {
                assert(reference[i] == "commit="@[i - n - 5]);
            }
        }
    }
    entry::law_bindings_read_back(name, protocol, reference, Seq::<char>::empty());
    assert(!source.contains('#')) by {
        if source.contains('#') {
            let i = choose|i: int| 0 <= i < source.len() && source[i] == '#';
            if i < rest.len() {
                assert(rest.contains(rest[i]));
            } else {
                assert(".git"@[i - rest.len()] == '#');
            }
        }
    }
    entry::law_selector_reads_back(r, source, selector);
    entry::law_commits_read_back(commit, Seq::<char>::empty(), Seq::<char>::empty());
    // The repository.
    assert(resolution =~= repo + "#"@ + selector);
    assert(!repo.contains('#')) by {
        if repo.contains('#') {
            let i = choose|i: int| 0 <= i < repo.len() && repo[i] == '#';
            let n = protocol.len() as int;
            if i < n {
                assert(protocol.contains(protocol[i]));
            } else if i > n {
                assert(source[i - n - 1] == '#');
            }
        }
    }
    entry::law_repositories_are_told_by_their_urls(name, resolution);
    assert(".git#"@ =~= ".git"@ + "#"@);
    let before = protocol + ":"@ + rest;
    assert(resolution =~= before + ".git#"@ + selector);
    // It is no tarball: no dot stands so near to the end.
    entry::law_tarballs_are_told_by_their_urls(name, protocol, reference);
    assert forall|stem: Seq<char>| resolution != #[trigger] (stem + ".tgz"@) && resolution != stem
        + ".tar.gz"@ by {
        let m = resolution.len() as int;
        let k = repo.len() as int;
        assert forall|i: int| k <= i < m implies #[trigger] resolution[i] != '.' by {
            if i >= k + 8 {
                assert(resolution[i] == commit[i - k - 8]);
                assert(commit.contains(commit[i - k - 8]));
            } else {
                assert(resolution[i] == "#commit="@[i - k]);
            }
        }
        if resolution == stem + ".tgz"@ {
            assert((stem + ".tgz"@)[m - 4] == '.');
        }
        if resolution == stem + ".tar.gz"@ {
            assert((stem + ".tar.gz"@)[m - 7] == '.');
        }
    }
}

/// What has no checksum in the lockfile takes the one that is given for it, if that has the length
/// of one, and leaves all others. Otherwise it is said which of the two is wrong.
pub proof fn law_missing_checksum_stands_in(
    r: Seq<char>,
    integrity: Seq<char>,
    missing: Map<Seq<char>, Seq<char>>,
)
    requires
        entry::comes_from_npm(r) || entry::comes_from_tar(r),
        !entry::comes_from_git(r),
        integrity.len() == 0 || integrity.last() == '/',
    ensures
        match source_for(r, integrity, missing).0 {
            Ok(source) => {
                &&& missing.contains_key(r)
                &&& encode_utf8(missing[r]).len() == 128
                &&& source == (SourceText::Tgz { url: url_of(r), integrity: missing[r] })
            },
            Err(SourceFault::MissingHash) => !missing.contains_key(r),
            Err(SourceFault::InvalidLength) => missing.contains_key(r) && encode_utf8(
                missing[r],
            ).len() != 128,
            _ => false,
        },
        source_for(r, integrity, missing).1 == missing.remove(r),
{
    entry::law_npm_is_not_tar(r);
    law_archives_without_checksums(r, integrity);
    if !missing.contains_key(r) {
        assert(missing.remove(r) =~= missing);
    }
}

/// Why there is no source: what looks like a repository and like an archive could be both; what is
/// neither is not known; and a repository needs a commit.
pub proof fn law_sources_that_are_none(
    r: Seq<char>,
    integrity: Seq<char>,
    missing: Map<Seq<char>, Seq<char>>,
)
    ensures
        ({
            let archive = entry::comes_from_npm(r) || entry::comes_from_tar(r);
            let repository = entry::comes_from_git(r);
            let fault = source_for(r, integrity, missing).0;
            &&& archive && repository <==> fault == Err::<SourceText, SourceFault>(
                SourceFault::Ambiguous,
            )
            &&& !archive && !repository <==> fault == Err::<SourceText, SourceFault>(
                SourceFault::Unsupported,
            )
            &&& !archive && repository && entry::commit_in(entry::selector_of(r)) is None
                <==> fault == Err::<SourceText, SourceFault>(SourceFault::NoCommit)
            &&& (archive <==> repository) || (!archive && repository) ==> source_for(
                r,
                integrity,
                missing,
            ).1 == missing
        }),
{
    entry::law_npm_is_not_tar(r);
}

/// It is known how to fetch an entry if some checksum, given for it, lets its source be found.
pub proof fn law_fetchable_entries_have_sources(r: Seq<char>, integrity: Seq<char>)
    requires
        entry::is_locator(r),
        is_tgz(r) ==> entry::has_sound_integrity(integrity),
    ensures
        is_fetchable(r, integrity) <==> exists|sum: Seq<char>|
            (#[trigger] source_for(
                r,
                integrity,
                Map::<Seq<char>, Seq<char>>::empty().insert(r, sum),
            )).0 is Ok,
{
    let none = Map::<Seq<char>, Seq<char>>::empty();
    let sum = Seq::new(128, |i: int| 'a');
    assert(is_ascii_chars(sum));
    is_ascii_chars_encode_utf8(sum);
    assert(encode_utf8(sum).len() == 128);
    if is_fetchable(r, integrity) {
        assert(source_for(r, integrity, none.insert(r, sum)).0 is Ok);
    }
}

} // verus!
