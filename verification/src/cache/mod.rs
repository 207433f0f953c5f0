//! The cache that is filled with the archives of a lockfile's packages.

pub mod fetch;

use crate::digest;
use crate::entry;
use crate::entry::{Entry, EntryExt};
use crate::lockfile;
use crate::lockfile::{CacheKey, Lockfile};
use crate::path;
use crate::text;
use vstd::prelude::*;
use vstd::string::*;
use vstd::utf8::*;

verus! {

/// The cache of a lockfile.
#[derive(Debug)]
pub struct Cache {
    /// Where the cache is.
    pub out_dir: Vec<u8>,
    pub lockfile: Lockfile,
}

/// A cache that is known by its key alone.
#[derive(Debug)]
pub struct KeyedCache {
    /// Where the cache is.
    pub out_dir: Vec<u8>,
    pub key: CacheKey,
    /// Whether the cache is shared by lockfiles.
    pub is_global: bool,
}

/// The hash of an entry's name.
pub open spec fn ident_hash(r: Seq<char>) -> Seq<char> {
    let scope = match entry::scope_name_of(r) {
        Some(scope) => scope,
        None => seq![],
    };
    digest::checksum(encode_utf8(scope + entry::name_rest_of(r)))
}

/// The hash of an entry's name and of what it resolves to.
pub open spec fn locator_hash(r: Seq<char>) -> Seq<char> {
    digest::checksum(encode_utf8(ident_hash(r) + entry::resolution_of(r)))
}

/// A file name: what can be read, the beginning of the hash, and what tells archives of one
/// package apart.
pub open spec fn file_name(slug: Seq<char>, hash: Seq<char>, tail: Seq<char>) -> Seq<char> {
    slug + "-"@ + text::byte_prefix(hash, 10) + "-"@ + tail + ".zip"@
}

/// The file name of an entry whose archive has the checksum, in a cache with the key. If the entry
/// has no checksum of its own the key stands for it.
pub open spec fn zip_name_of(
    r: Seq<char>,
    is_content_addressed: bool,
    key: Seq<char>,
    integrity: Seq<char>,
) -> Seq<char> {
    file_name(
        entry::slug_of(r),
        locator_hash(r),
        if is_content_addressed {
            text::byte_prefix(integrity, 10)
        } else {
            key
        },
    )
}

/// Where the file of a name is in a cache.
pub open spec fn cache_path(out_dir: Seq<u8>, name: Seq<char>) -> Seq<u8> {
    path::joined(path::joined(out_dir, encode_utf8("cache"@)), encode_utf8(name))
}

/// Makes a file name.
pub fn make_file_name(slug: &str, hash: &str, tail: &str) -> (r: String)
    requires
        text::cuts_at_byte(hash@, 10),
    ensures
        r@ == file_name(slug@, hash@, tail@),
{
    let mut r = slug.to_owned();
    r.append("-");
    r.append(text::first_bytes(hash, 10));
    r.append("-");
    r.append(tail);
    r.append(".zip");
    r
}

/// The hash of an entry's name and of what it resolves to.
fn hash_locator(e: &Entry) -> (r: String)
    requires
        entry::has_name(e.resolved@),
        entry::has_sound_scope(e.resolved@),
    ensures
        r@ == locator_hash(e.resolved@),
        text::cuts_at_byte(r@, 10),
{
    let mut ident = String::new();
    if let Some(scope) = e.scope_name() {
        ident.append(scope);
    }
    assert(ident@ =~= match entry::scope_name_of(e.resolved@) {
        Some(scope) => scope,
        None => seq![],
    });
    ident.append(e.name_rest());
    let mut locator = digest::integrity_of_text(ident.as_str());
    locator.append(e.resolution());
    let r = digest::integrity_of_text(locator.as_str());
    proof {
        digest::law_checksums_are_hexadecimal(encode_utf8(locator@));
        lemma_ascii_cuts(r@, 10);
    }
    r
}

/// A text of ASCII characters can be cut anywhere.
proof fn lemma_ascii_cuts(s: Seq<char>, n: int)
    requires
        is_ascii_chars(s),
        0 <= n <= s.len(),
    ensures
        text::cuts_at_byte(s, n),
        text::byte_prefix(s, n) == s.take(n),
{
    is_ascii_chars_encode_utf8(s);
    let head = s.take(n);
    let tail = s.skip(n);
    assert(is_ascii_chars(head));
    assert(is_ascii_chars(tail));
    assert(head + tail =~= s);
    is_ascii_chars_encode_utf8(head);
    assert(encode_utf8(head) =~= encode_utf8(s).take(n));
    encode_utf8_decode_utf8(head);
    encode_utf8_valid_utf8(s);
    if n < s.len() {
        is_char_boundary_iff_not_is_continuation_byte(encode_utf8(s), n);
        assert(s[n] as u8 == encode_utf8(s)[n]);
    } else {
        is_char_boundary_start_end_of_seq(encode_utf8(s));
    }
}

/// Compares the checksum of an archive with the one that it should have. If they differ, the
/// archive's is returned.
pub fn check_zip(integrity: &str, zip: &[u8]) -> (r: Result<(), String>)
    ensures
        match r {
            Ok(_) => digest::checksum(zip@) == integrity@,
            Err(actual) => digest::checksum(zip@) != integrity@ && actual@ == digest::checksum(
                zip@,
            ),
        },
{
    let actual = digest::integrity_of(zip);
    if text::same(integrity, actual.as_str()) {
        Ok(())
    } else {
        Err(actual)
    }
}

/// What there is to do for an archive: where it is fetched from, the package whose files it holds,
/// where the zip file is written and how, and the checksum that it is to have.
#[derive(Debug)]
pub struct ZipJob {
    pub url: String,
    pub package: String,
    pub path: Vec<u8>,
    pub compression: Option<u32>,
    pub integrity: String,
}

impl Cache {
    /// Whether the lockfile has a cache key.
    pub open spec fn has_key(self) -> bool {
        self.lockfile.cache_key matches Some(key) && lockfile::key_numbers(key@) is Some
    }

    /// Whether an entry whose archive has the checksum can be named.
    pub open spec fn names(self, e: Entry, integrity: Seq<char>) -> bool {
        &&& entry::is_locator(e.resolved@)
        &&& entry::has_sound_scope(e.resolved@)
        &&& if e.integrity@.len() > 0 {
            text::cuts_at_byte(integrity, 10)
        } else {
            self.lockfile.cache_key is Some
        }
    }

    /// The file name of an entry.
    pub open spec fn name_for(self, e: Entry, integrity: Seq<char>) -> Seq<char> {
        zip_name_of(
            e.resolved@,
            e.integrity@.len() > 0,
            self.lockfile.cache_key->Some_0@,
            integrity,
        )
    }

    /// Whether the job writes the archive behind a URL to the file of an entry, as the key says.
    pub open spec fn is_job(self, job: ZipJob, e: Entry, url: String, integrity: String) -> bool {
        &&& job.url == url
        &&& job.integrity == integrity
        &&& job.package@ == entry::name_of(e.resolved@)
        &&& job.path@ == cache_path(self.out_dir@, self.name_for(e, integrity@))
        &&& lockfile::key_numbers(self.lockfile.cache_key->Some_0@)->Some_0.1
            == match job.compression {
            Some(level) => Some(level as nat),
            None => None,
        }
    }

    /// The cache of a lockfile in a directory.
    pub fn open(out_dir: Vec<u8>, lockfile: Lockfile) -> (r: Cache)
        ensures
            r.out_dir == out_dir,
            r.lockfile == lockfile,
    {
        Cache { out_dir, lockfile }
    }

    /// The compression level of the archives.
    pub fn cache_key_compression(&self) -> (r: Option<u32>)
        requires
            self.has_key(),
        ensures
            match r {
                Some(level) => lockfile::key_numbers(self.lockfile.cache_key->Some_0@)->Some_0.1
                    == Some(level as nat),
                None => lockfile::key_numbers(self.lockfile.cache_key->Some_0@)->Some_0.1 is None,
            },
    {
        match self.lockfile.cache_key_parsed() {
            Some(key) => key.compression,
            None => None,
        }
    }

    /// The name of the file that an entry has in the cache.
    pub fn zip_name(&self, e: &Entry, integrity: &str) -> (r: String)
        requires
            self.names(*e, integrity@),
        ensures
            r@ == self.name_for(*e, integrity@),
    {
        let hash = hash_locator(e);
        let slug = e.slug();
        if e.is_content_addressed() {
            make_file_name(slug.as_str(), hash.as_str(), text::first_bytes(integrity, 10))
        } else {
            match &self.lockfile.cache_key {
                Some(key) => make_file_name(slug.as_str(), hash.as_str(), key.as_str()),
                None => String::new(),
            }
        }
    }

    /// What there is to do for an entry whose archive is behind a URL.
    pub fn zip_job(&self, e: &Entry, url: String, integrity: String) -> (r: ZipJob)
        requires
            self.has_key(),
            self.names(*e, integrity@),
        ensures
            self.is_job(r, *e, url, integrity),
    {
        let name = self.zip_name(e, integrity.as_str());
        let dir = path::join(self.out_dir.as_slice(), "cache".as_bytes());
        ZipJob {
            package: e.name().to_owned(),
            path: path::join(dir.as_slice(), name.as_str().as_bytes()),
            compression: self.cache_key_compression(),
            url,
            integrity,
        }
    }

    /// Whether an entry whose archive has the checksum can be named.
    pub fn can_name(&self, e: &Entry, integrity: &str) -> (r: bool)
        ensures
            r == self.names(*e, integrity@),
    {
        e.is_well_formed() && e.is_soundly_scoped() && if e.is_content_addressed() {
            cuts_at_ten(integrity)
        } else {
            self.lockfile.cache_key.is_some()
        }
    }
}

/// Whether a text can be cut behind its tenth byte.
fn cuts_at_ten(s: &str) -> (r: bool)
    ensures
        r == text::cuts_at_byte(s@, 10),
{
    let bytes = s.as_bytes();
    bytes.len() >= 10 && s.is_char_boundary(10)
}

impl KeyedCache {
    /// Whether an entry whose archive has the checksum can be named.
    pub open spec fn names(self, e: Entry, integrity: Seq<char>) -> bool {
        &&& entry::is_locator(e.resolved@)
        &&& entry::has_sound_scope(e.resolved@)
        &&& !self.is_global && e.integrity@.len() > 0 ==> text::cuts_at_byte(integrity, 10)
    }

    /// The name of the file that an entry has in the cache. In a shared cache the key takes the
    /// place of every checksum.
    pub fn zip_name(&self, e: &Entry, integrity: &str) -> (r: String)
        requires
            self.names(*e, integrity@),
        ensures
            r@ == zip_name_of(
                e.resolved@,
                !self.is_global && e.integrity@.len() > 0,
                self.key.text(),
                integrity@,
            ),
    {
        let hash = hash_locator(e);
        let slug = e.slug();
        if self.is_global || !e.is_content_addressed() {
            make_file_name(slug.as_str(), hash.as_str(), self.key.render().as_str())
        } else {
            make_file_name(slug.as_str(), hash.as_str(), text::first_bytes(integrity, 10))
        }
    }

    /// What there is to do for an entry whose archive has the checksum.
    pub fn zip_job(&self, e: &Entry, url: String, integrity: String) -> (r: ZipJob)
        requires
            self.names(*e, integrity@),
        ensures
            r.url == url,
            r.integrity == integrity,
            r.package@ == entry::name_of(e.resolved@),
            r.path@ == cache_path(
                self.out_dir@,
                zip_name_of(
                    e.resolved@,
                    !self.is_global && e.integrity@.len() > 0,
                    self.key.text(),
                    integrity@,
                ),
            ),
            r.compression == self.key.compression,
    {
        let name = self.zip_name(e, integrity.as_str());
        let dir = path::join(self.out_dir.as_slice(), "cache".as_bytes());
        ZipJob {
            package: e.name().to_owned(),
            path: path::join(dir.as_slice(), name.as_str().as_bytes()),
            compression: self.key.compression,
            url,
            integrity,
        }
    }
}

/// With a key that is written as keys are, both caches give an entry the same file name.
pub proof fn law_caches_agree(cache: Cache, keyed: KeyedCache, e: Entry, integrity: Seq<char>)
    requires
        !keyed.is_global,
        cache.lockfile.cache_key matches Some(key) && key@ == keyed.key.text(),
    ensures
        cache.name_for(e, integrity) == zip_name_of(
            e.resolved@,
            !keyed.is_global && e.integrity@.len() > 0,
            keyed.key.text(),
            integrity,
        ),
        cache.has_key(),
        lockfile::key_numbers(cache.lockfile.cache_key->Some_0@) == Some(keyed.key.numbers()),
{
    lockfile::law_written_key_reads_back(keyed.key);
}

/// The file name of an entry without a checksum does not depend on the checksum of its archive.
pub proof fn law_missing_checksum_does_not_name(
    cache: Cache,
    e: Entry,
    a: Seq<char>,
    b: Seq<char>,
)
    requires
        e.integrity@.len() == 0,
    ensures
        cache.name_for(e, a) == cache.name_for(e, b),
{
}

/// The checksum of an archive, which has as many bytes as SHA-512 sums have, is as long as the
/// checksums in a lockfile, and its first ten digits can tell archives apart.
pub proof fn law_checksums_have_their_length(zip: Seq<u8>)
    requires
        digest::sha512(zip).len() == 64,
    ensures
        text::byte_len(digest::checksum(zip)) == 128,
        text::cuts_at_byte(digest::checksum(zip), 10),
        text::byte_prefix(digest::checksum(zip), 10) == digest::checksum(zip).take(10),
{
    digest::law_checksums_are_hexadecimal(zip);
    lemma_ascii_cuts(digest::checksum(zip), 10);
}

/// The hash that is in the file name of a package: it is taken of the hash of the name, without the `@`
/// and the slash of a scope, and of all that the name resolves to.
pub proof fn law_names_and_resolutions_are_hashed(
    scope: Seq<char>,
    name: Seq<char>,
    resolution: Seq<char>,
)
    requires
        name.len() > 0,
        !name.contains('@'),
        !name.contains('/'),
        !scope.contains('@'),
        !scope.contains('/'),
    ensures
        locator_hash(name + "@"@ + resolution) == digest::hex_text(
            digest::sha512(
                encode_utf8(
                    digest::hex_text(digest::sha512(encode_utf8(name))) + resolution,
                ),
            ),
        ),
        locator_hash(("@"@ + scope + "/"@ + name) + "@"@ + resolution) == digest::hex_text(
            digest::sha512(
                encode_utf8(
                    digest::hex_text(digest::sha512(encode_utf8(scope + name))) + resolution,
                ),
            ),
        ),
{
    let full = "@"@ + scope + "/"@ + name;
    entry::lemma_scoped_name(scope, name);
    entry::law_name_reads_back(name, resolution);
    entry::law_name_reads_back(full, resolution);
    entry::law_scope_reads_back(name + "@"@ + resolution, scope, name);
    entry::law_scope_reads_back(full + "@"@ + resolution, "@"@ + scope, name);
    entry::law_scope_reads_back(full + "@"@ + resolution, scope, name);
    assert(Seq::<char>::empty() + name =~= name);
}

/// What a file is called: the readable part, ten digits of the hash, and ten digits of the checksum, or
/// the key of the cache if the lockfile has no checksum for the entry.
pub proof fn law_files_are_told_apart(r: Seq<char>, key: Seq<char>, integrity: Seq<char>)
    requires
        locator_hash(r).len() >= 10,
        integrity.len() >= 10,
        is_ascii_chars(integrity),
    ensures
        zip_name_of(r, true, key, integrity) == entry::slug_of(r) + "-"@ + locator_hash(r).take(10)
            + "-"@ + integrity.take(10) + ".zip"@,
        zip_name_of(r, false, key, integrity) == entry::slug_of(r) + "-"@ + locator_hash(r).take(10)
            + "-"@ + key + ".zip"@,
        forall|other: Seq<char>|
            #![trigger zip_name_of(r, true, key, other)]
            is_ascii_chars(other) && other.len() >= 10 && other.take(10) != integrity.take(10)
                ==> zip_name_of(r, true, key, other) != zip_name_of(r, true, key, integrity),
{
    digest::law_checksums_are_hexadecimal(
        encode_utf8(ident_hash(r) + entry::resolution_of(r)),
    );
    lemma_ascii_cuts(locator_hash(r), 10);
    lemma_ascii_cuts(integrity, 10);
    let head = entry::slug_of(r) + "-"@ + locator_hash(r).take(10) + "-"@;
    let n = head.len() as int;
    assert(zip_name_of(r, true, key, integrity).subrange(n, n + 10) =~= integrity.take(10));
    assert forall|other: Seq<char>|
        #![trigger zip_name_of(r, true, key, other)]
        is_ascii_chars(other) && other.len() >= 10 && other.take(10) != integrity.take(
            10,
        ) implies zip_name_of(r, true, key, other) != zip_name_of(r, true, key, integrity) by {
        lemma_ascii_cuts(other, 10);
        assert(zip_name_of(r, true, key, other).subrange(n, n + 10) =~= other.take(10));
    }
}

/// The files lie in the directory `cache` of where the cache is.
pub proof fn law_files_lie_in_the_cache(out_dir: Seq<u8>, name: Seq<char>)
    requires
        name.len() > 0,
        name[0] != '/',
    ensures
        out_dir.len() > 0 && out_dir.last() != 47 ==> cache_path(out_dir, name) == out_dir
            + encode_utf8("/cache/"@) + encode_utf8(name),
        out_dir.len() == 0 || out_dir.last() == 47 ==> cache_path(out_dir, name) == out_dir
            + encode_utf8("cache/"@) + encode_utf8(name),
{
    lemma_is_relative(name);
    reveal_strlit("cache");
    reveal_strlit("cache/");
    reveal_strlit("/cache/");
    assert(is_ascii_chars("cache"@));
    assert(is_ascii_chars("cache/"@));
    assert(is_ascii_chars("/cache/"@));
    is_ascii_chars_encode_utf8("cache"@);
    is_ascii_chars_encode_utf8("cache/"@);
    is_ascii_chars_encode_utf8("/cache/"@);
    assert(encode_utf8("cache/"@) =~= encode_utf8("cache"@) + seq![47u8]);
    assert(encode_utf8("/cache/"@) =~= seq![47u8] + encode_utf8("cache"@) + seq![47u8]);
    if out_dir.len() == 0 || out_dir.last() == 47 {
        assert(cache_path(out_dir, name) =~= out_dir + encode_utf8("cache/"@) + encode_utf8(name));
    } else {
        assert(cache_path(out_dir, name) =~= out_dir + encode_utf8("/cache/"@) + encode_utf8(name));
    }
}

/// A text that does not begin with a slash is a relative path.
pub proof fn lemma_is_relative(name: Seq<char>)
    requires
        name.len() > 0,
        name[0] != '/',
    ensures
        encode_utf8(name).len() > 0,
        !path::is_absolute(encode_utf8(name)),
{
    text::lemma_offset_step(name, 0);
    text::lemma_offset_order(name, 0, name.len() as int);
}

/// What is done for an entry: the archive is the one behind the URL, is made for the package that the
/// resolution names, scope and all, is checked with the checksum, and goes to the file of the entry.
pub proof fn law_jobs_are_for_their_entries(
    cache: Cache,
    job: ZipJob,
    e: Entry,
    url: String,
    integrity: String,
    name: Seq<char>,
    resolution: Seq<char>,
)
    requires
        cache.is_job(job, e, url, integrity),
        name.len() > 0,
        forall|i: int| 0 < i < name.len() ==> #[trigger] name[i] != '@',
        e.resolved@ == name + "@"@ + resolution,
    ensures
        job.package@ == name,
        job.url == url,
        job.integrity == integrity,
        job.path@ == cache_path(
            cache.out_dir@,
            zip_name_of(
                e.resolved@,
                e.integrity@.len() > 0,
                cache.lockfile.cache_key->Some_0@,
                integrity@,
            ),
        ),
        job.compression is None <==> lockfile::key_numbers(
            cache.lockfile.cache_key->Some_0@,
        )->Some_0.1 is None,
        job.compression matches Some(level) ==> lockfile::key_numbers(
            cache.lockfile.cache_key->Some_0@,
        )->Some_0.1 == Some(level as nat),
{
    entry::law_name_reads_back(name, resolution);
}

} // verus!
