//! The lockfile as a whole: its cache key and its entries.

use crate::decimal;
use crate::entry::Entry;
use crate::text;
use vstd::prelude::*;
use vstd::string::*;

verus! {

/// A cache key, as in `10c0`: the version of the cache's layout, and the compression level of
/// the archives in it.
#[derive(Debug, PartialEq, Eq, Clone, Copy, Structural)]
pub struct CacheKey {
    pub version: usize,
    pub compression: Option<u32>,
}

/// What the fetcher reads of a lockfile.
#[derive(Debug)]
pub struct Lockfile {
    /// The key as it is written.
    pub cache_key: Option<String>,
    pub entries: Vec<Entry>,
}

/// Why a lockfile cannot be used.
#[derive(Debug)]
pub enum LockfileError {
    /// The cache key is not one.
    InvalidCacheKey { cache_key: String },
    /// The lockfile is for a cache of another version.
    UnsupportedVersion { found: usize, supported: usize },
    /// The lockfile does not parse.
    Syntax { cause: String },
}

/// The texts of an entry: name, resolution and checksum.
pub open spec fn entry_text(e: Entry) -> (Seq<char>, Seq<char>, Seq<char>) {
    (e.name@, e.resolved@, e.integrity@)
}

/// The texts of entries.
pub open spec fn entry_texts(v: Seq<Entry>) -> Seq<(Seq<char>, Seq<char>, Seq<char>)> {
    v.map_values(|e: Entry| entry_text(e))
}

/// What `yarn_lock_parser::parse_str` finds in a text: the cache key, and name, resolution and
/// checksum of each entry. `None` if it rejects the text.
pub uninterp spec fn yarn_lock(contents: Seq<char>) -> Option<
    (Option<Seq<char>>, Seq<(Seq<char>, Seq<char>, Seq<char>)>),
>;

/// The version and the compression level that a key stands for, if it is one.
pub open spec fn key_numbers(key: Seq<char>) -> Option<(nat, Option<nat>)> {
    let parts = text::pieces(key, 'c');
    match decimal::number(parts[0], usize::MAX as nat) {
        Some(version) => if parts.len() > 1 {
            match decimal::number(parts[1], u32::MAX as nat) {
                Some(compression) => Some((version, Some(compression))),
                None => None,
            }
        } else {
            Some((version, None))
        },
        None => None,
    }
}

impl CacheKey {
    /// The key's numbers.
    pub open spec fn numbers(self) -> (nat, Option<nat>) {
        (
            self.version as nat,
            match self.compression {
                Some(c) => Some(c as nat),
                None => None,
            },
        )
    }

    /// How the key is written.
    pub open spec fn text(self) -> Seq<char> {
        decimal::written(self.version as nat) + match self.compression {
            Some(c) => "c"@ + decimal::written(c as nat),
            None => Seq::<char>::empty(),
        }
    }

    /// Reads a key: a version, and behind a `c` the compression level. What stands behind a
    /// second `c` is not looked at.
    pub fn parse(key: &str) -> (r: Option<CacheKey>)
        ensures
            match r {
                Some(k) => key_numbers(key@) == Some(k.numbers()),
                None => key_numbers(key@) is None,
            },
    {
        let parts = text::split(key, 'c');
        proof {
            text::lemma_pieces_nonempty(key@, 'c');
            assert(parts@.map_values(|p: &str| p@).len() == parts@.len());
            assert(text::pieces(key@, 'c')[0] == parts@[0]@);
        }
        let version = match decimal::parse(parts[0], usize::MAX as u64) {
            Some(n) => n as usize,
            None => {
                return None;
            },
        };
        if parts.len() > 1 {
            assert(text::pieces(key@, 'c')[1] == parts@[1]@);
            match decimal::parse(parts[1], u32::MAX as u64) {
                Some(c) => Some(CacheKey { version, compression: Some(c as u32) }),
                None => None,
            }
        } else {
            Some(CacheKey { version, compression: None })
        }
    }

    /// Writes the key.
    pub fn render(&self) -> (r: String)
        ensures
            r@ == self.text(),
    {
        let mut r = decimal::write(self.version as u64);
        match self.compression {
            Some(c) => {
                r.append("c");
                r.append(decimal::write(c as u64).as_str());
                assert(r@ =~= self.text());
            },
            None => {
                assert(r@ =~= self.text());
            },
        }
        r
    }
}

/// Parses a lockfile by `yarn_lock_parser::parse_str`, and copies the cache key and name,
/// resolution and checksum of each entry out of its result. What it finds is named `yarn_lock`
/// of the text, and its error has one message. Nothing is said of the format.
#[verifier::external_body]
fn parse_yarn_lock(contents: &str) -> (r: Result<Lockfile, String>)
    ensures
        match r {
            Ok(lockfile) => yarn_lock(contents@) == Some(
                (text::opt_text(lockfile.cache_key), entry_texts(lockfile.entries@)),
            ),
            Err(message) => yarn_lock(contents@) is None && message@
                == "Error parsing yarn.lock file"@,
        },
{
    let lockfile = yarn_lock_parser::parse_str(contents).map_err(|e| e.to_string())?;
    let to_entry = |e: yarn_lock_parser::Entry<'_>| Entry {
        name: e.name.to_owned(),
        resolved: e.resolved.to_owned(),
        integrity: e.integrity.to_owned(),
    };
    Ok(Lockfile {
        cache_key: lockfile.cache_key.map(|k| k.to_owned()),
        entries: lockfile.entries.into_iter().map(to_entry).collect(),
    })
}

impl Lockfile {
    /// The lockfile's texts.
    pub open spec fn texts(self) -> (Option<Seq<char>>, Seq<(Seq<char>, Seq<char>, Seq<char>)>) {
        (text::opt_text(self.cache_key), entry_texts(self.entries@))
    }

    /// The version and the compression level that the lockfile's cache key stands for.
    pub fn cache_key_parsed(&self) -> (r: Option<CacheKey>)
        ensures
            match r {
                Some(k) => self.cache_key matches Some(key) && key_numbers(key@) == Some(
                    k.numbers(),
                ),
                None => self.cache_key matches Some(key) ==> key_numbers(key@) is None,
            },
    {
        match &self.cache_key {
            Some(key) => CacheKey::parse(key.as_str()),
            None => None,
        }
    }
}

/// Decides on a lockfile, given its cache key and what parsing it came to.
pub fn check_lockfile(
    cache_key: &str,
    supported: usize,
    parsed: Result<Lockfile, String>,
) -> (r: Result<(CacheKey, Lockfile), LockfileError>)
    ensures
        match key_numbers(cache_key@) {
            None => r matches Err(LockfileError::InvalidCacheKey { cache_key: k }) && k@
                == cache_key@,
            Some((version, compression)) => if version != supported {
                r matches Err(LockfileError::UnsupportedVersion { found, supported: s }) && found
                    == version && s == supported
            } else {
                match parsed {
                    Err(cause) => r matches Err(LockfileError::Syntax { cause: c }) && c == cause,
                    Ok(lockfile) => r matches Ok((key, l)) && l == lockfile && key.numbers() == (
                        version,
                        compression,
                    ),
                }
            },
        },
{
    let key = match CacheKey::parse(cache_key) {
        Some(key) => key,
        None => {
            return Err(LockfileError::InvalidCacheKey { cache_key: cache_key.to_owned() });
        },
    };
    if key.version != supported {
        return Err(LockfileError::UnsupportedVersion { found: key.version, supported });
    }
    match parsed {
        Ok(lockfile) => Ok((key, lockfile)),
        Err(cause) => Err(LockfileError::Syntax { cause }),
    }
}

/// Parses a lockfile whose cache key has been read out of its metadata, for a fetcher that
/// supports one version of the cache.
pub fn parse_lockfile(lockfile_contents: &str, cache_key: &str, supported: usize) -> (r: Result<
    (CacheKey, Lockfile),
    LockfileError,
>)
    ensures
        match key_numbers(cache_key@) {
            None => r matches Err(LockfileError::InvalidCacheKey { cache_key: k }) && k@
                == cache_key@,
            Some((version, compression)) => if version != supported {
                r matches Err(LockfileError::UnsupportedVersion { found, supported: s }) && found
                    == version && s == supported
            } else {
                match yarn_lock(lockfile_contents@) {
                    None => r matches Err(LockfileError::Syntax { cause }) && cause@
                        == "Error parsing yarn.lock file"@,
                    Some(texts) => r matches Ok((key, l)) && l.texts() == texts && key.numbers()
                        == (version, compression),
                }
            },
        },
{
    check_lockfile(cache_key, supported, parse_yarn_lock(lockfile_contents))
}

impl LockfileError {
    /// What is said of the error.
    pub open spec fn text(self) -> Seq<char> {
        match self {
            LockfileError::InvalidCacheKey { cache_key } => "invalid cache key: "@ + cache_key@,
            LockfileError::UnsupportedVersion { found, supported } =>
                "\nError fetching berry dependencies.\nFound cache version "@ + decimal::written(
                found as nat,
            ) + "\nSupported by this version of yarn-berry-fetcher: "@ + decimal::written(
                supported as nat,
            )
                + "\nHint: Are you using fetchYarnBerryDeps from the correct yarn-berry version?"@,
            LockfileError::Syntax { cause } => cause@,
        }
    }

    /// The message for the user.
    pub fn message(&self) -> (r: String)
        ensures
            r@ == self.text(),
    {
        match self {
            LockfileError::InvalidCacheKey { cache_key } => "invalid cache key: ".to_owned().concat(
                cache_key.as_str(),
            ),
            LockfileError::UnsupportedVersion { found, supported } =>
                "\nError fetching berry dependencies.\nFound cache version ".to_owned().concat(
                decimal::write(*found as u64).as_str(),
            ).concat("\nSupported by this version of yarn-berry-fetcher: ").concat(
                decimal::write(*supported as u64).as_str(),
            ).concat(
                "\nHint: Are you using fetchYarnBerryDeps from the correct yarn-berry version?",
            ),
            LockfileError::Syntax { cause } => cause.clone(),
        }
    }
}

/// A key is read as what was written.
pub proof fn law_written_key_reads_back(key: CacheKey)
    ensures
        key_numbers(key.text()) == Some(key.numbers()),
{
    reveal_strlit("c");
    let head = decimal::written(key.version as nat);
    decimal::lemma_written(key.version as nat);
    decimal::law_written_number_reads_back(key.version as nat, usize::MAX as nat);
    match key.compression {
        Some(c) => {
            let tail = decimal::written(c as nat);
            decimal::lemma_written(c as nat);
            decimal::law_written_number_reads_back(c as nat, u32::MAX as nat);
            assert("c"@ =~= seq!['c']);
            assert(key.text() =~= head.push('c') + tail);
            lemma_two_pieces(head, tail);
        },
        None => {
            assert(key.text() =~= head);
            lemma_one_piece(head);
        },
    }
}

proof fn lemma_one_piece(a: Seq<char>)
    requires
        forall|i: int| 0 <= i < a.len() ==> decimal::is_digit(#[trigger] a[i]),
    ensures
        text::pieces(a, 'c') == seq![a],
    decreases a.len(),
{
    if a.len() > 0 {
        assert(decimal::is_digit(a[a.len() - 1]));
        lemma_one_piece(a.drop_last());
        assert(a.drop_last().push(a.last()) =~= a);
        assert(seq![a.drop_last()].drop_last() =~= Seq::<Seq<char>>::empty());
        assert(text::pieces(a, 'c') =~= seq![a]);
    }
}

proof fn lemma_two_pieces(a: Seq<char>, b: Seq<char>)
    requires
        forall|i: int| 0 <= i < a.len() ==> decimal::is_digit(#[trigger] a[i]),
        forall|i: int| 0 <= i < b.len() ==> decimal::is_digit(#[trigger] b[i]),
    ensures
        text::pieces(a.push('c') + b, 'c') == seq![a, b],
    decreases b.len(),
{
    let s = a.push('c') + b;
    if b.len() == 0 {
        lemma_one_piece(a);
        assert(s.drop_last() =~= a);
        assert(b =~= Seq::<char>::empty());
        assert(text::pieces(s, 'c') =~= seq![a, b]);
    } else {
        assert(decimal::is_digit(b[b.len() - 1]));
        lemma_two_pieces(a, b.drop_last());
        assert(s.drop_last() =~= a.push('c') + b.drop_last());
        assert(b.drop_last().push(b.last()) =~= b);
        let rest = seq![a, b.drop_last()];
        assert(rest.drop_last() =~= seq![a]);
        assert(text::pieces(s, 'c') =~= seq![a, b]);
    }
}

/// How a key is read: the version stands in front of the first `c`, the level between that one and the
/// next, and what comes then does not count. Without a `c` there is no level.
pub proof fn law_keys_are_read_in_parts(version: Seq<char>, level: Seq<char>, rest: Seq<char>)
    requires
        !version.contains('c'),
        !level.contains('c'),
    ensures
        key_numbers(version) == match decimal::number(version, usize::MAX as nat) {
            Some(n) => Some((n, None::<nat>)),
            None => None,
        },
        ({
            let both = match (
                decimal::number(version, usize::MAX as nat),
                decimal::number(level, u32::MAX as nat),
            ) {
                (Some(n), Some(c)) => Some((n, Some(c))),
                _ => None,
            };
            &&& key_numbers(version + "c"@ + level) == both
            &&& key_numbers(version + "c"@ + level + "c"@ + rest) == both
        }),
{
    reveal_strlit("c");
    assert("c"@ =~= seq!['c']);
    text::lemma_one_piece(version, 'c');
    text::lemma_one_piece(level, 'c');
    text::lemma_pieces_around(version, level, 'c');
    text::lemma_pieces_around(version + "c"@ + level, rest, 'c');
    let two = seq![version] + seq![level];
    assert(two[0] == version && two[1] == level);
    let more = two + text::pieces(rest, 'c');
    assert(more[0] == version && more[1] == level);
}

/// How a key is written: the version, and behind a `c` the level if there is one.
pub proof fn law_keys_are_written_in_parts(version: usize, level: u32)
    ensures
        (CacheKey { version, compression: None::<u32> }).text() == decimal::written(version as nat),
        (CacheKey { version, compression: Some(level) }).text() == decimal::written(version as nat)
            + "c"@ + decimal::written(level as nat),
{
    let n = decimal::written(version as nat);
    assert(n + Seq::<char>::empty() =~= n);
    assert(n + ("c"@ + decimal::written(level as nat)) =~= n + "c"@ + decimal::written(
        level as nat,
    ));
}

} // verus!
