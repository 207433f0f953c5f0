//! Checksums that a lockfile does not have.

use crate::cache::fetch;
use crate::cache::{Cache, ZipJob};
use crate::entry;
use crate::entry::{Entry, EntryExt};
use crate::lockfile;
use crate::lockfile::Lockfile;
use crate::source;
use crate::source::{SourceWithIntegrity, SourceWithoutIntegrity};
use crate::text;
use vstd::prelude::*;
use vstd::string::*;

verus! {

/// An archive whose checksum is missing.
#[derive(Debug)]
pub struct MissingSource {
    /// What the entry is looked up by.
    pub resolved: String,
    /// The name of the entry in the lockfile.
    pub name: String,
    pub url: String,
}

/// The archives whose checksums are missing, and the compression level that the checksums are for.
#[derive(Debug)]
pub struct MissingSources {
    pub compression: Option<u32>,
    pub sources: Vec<MissingSource>,
}

/// The texts of an archive without a checksum.
pub open spec fn missing_text(m: MissingSource) -> (Seq<char>, Seq<char>, Seq<char>) {
    (m.resolved@, m.name@, m.url@)
}

/// The texts of archives without checksums.
pub open spec fn missing_texts(v: Seq<MissingSource>) -> Seq<(Seq<char>, Seq<char>, Seq<char>)> {
    v.map_values(|m: MissingSource| missing_text(m))
}

/// The real entries without checksums, in their order: resolution, name and URL.
pub open spec fn missing_of(es: Seq<Entry>) -> Seq<(Seq<char>, Seq<char>, Seq<char>)>
    decreases es.len(),
{
    if es.len() == 0 {
        seq![]
    } else {
        let e = es.last();
        let before = missing_of(es.drop_last());
        if entry::is_real(e.resolved@) && source::lacks_integrity(e.resolved@, e.integrity@) {
            before.push((e.resolved@, e.name@, source::url_of(e.resolved@)))
        } else {
            before
        }
    }
}

/// Whether it is known how to fetch the entry, if it is real.
pub open spec fn is_known(e: Entry) -> bool {
    &&& entry::is_locator(e.resolved@)
    &&& entry::is_real(e.resolved@) ==> source::is_fetchable(e.resolved@, e.integrity@)
}

/// Finds the archives whose checksums are missing.
pub fn get_missing_hashes(lockfile: &Lockfile) -> (r: MissingSources)
    requires
        lockfile.cache_key matches Some(key) && lockfile::key_numbers(key@) is Some,
        forall|i: int| 0 <= i < lockfile.entries@.len() ==> is_known(#[trigger] lockfile.entries@[i]),
    ensures
        missing_texts(r.sources@) == missing_of(lockfile.entries@),
        lockfile::key_numbers(lockfile.cache_key->Some_0@)->Some_0.1 == match r.compression {
            Some(level) => Some(level as nat),
            None => None,
        },
{
    let compression = match lockfile.cache_key_parsed() {
        Some(key) => key.compression,
        None => None,
    };
    let ghost es = lockfile.entries@;
    let mut sources: Vec<MissingSource> = Vec::new();
    let mut i: usize = 0;
    proof {
        assert(es.take(0) =~= seq![]);
        assert(missing_texts(sources@) =~= seq![]);
    }
    while i < lockfile.entries.len()
        invariant
            i <= es.len(),
            es == lockfile.entries@,
            forall|k: int| 0 <= k < es.len() ==> is_known(#[trigger] es[k]),
            missing_texts(sources@) == missing_of(es.take(i as int)),
        decreases es.len() - i,
    {
        let e = &lockfile.entries[i];
        proof {
            assert(is_known(es[i as int]));
            assert(es.take(i + 1).drop_last() =~= es.take(i as int));
            assert(es.take(i + 1).last() == *e);
        }
        if e.is_real_source() {
            if let Err(SourceWithoutIntegrity::Tgz { url }) = SourceWithIntegrity::try_from(e) {
                let ghost before = sources@;
                sources.push(
                    MissingSource { resolved: e.resolved.clone(), name: e.name.clone(), url },
                );
                assert(missing_texts(sources@) =~= missing_texts(before).push(
                    (e.resolved@, e.name@, url@),
                ));
            }
        }
        i = i + 1;
    }
    assert(es.take(i as int) =~= es);
    MissingSources { compression, sources }
}

impl Lockfile {
    /// Whether it is known how to fetch each entry.
    pub fn is_known(&self) -> (r: bool)
        ensures
            r == forall|i: int| 0 <= i < self.entries@.len() ==> is_known(#[trigger] self.entries@[i]),
    {
        let mut i: usize = 0;
        while i < self.entries.len()
            invariant
                i <= self.entries@.len(),
                forall|k: int| 0 <= k < i ==> is_known(#[trigger] self.entries@[k]),
            decreases self.entries@.len() - i,
        {
            let e = &self.entries[i];
            if !e.is_well_formed() || (e.is_real_source() && !e.can_be_fetched()) {
                assert(!is_known(self.entries@[i as int]));
                return false;
            }
            i = i + 1;
        }
        true
    }
}

/// Whether checksums are there for all entries that miss one.
pub open spec fn covers(missing: Map<Seq<char>, Seq<char>>, es: Seq<Entry>) -> bool {
    forall|i: int|
        0 <= i < missing_of(es).len() ==> missing.contains_key((#[trigger] missing_of(es)[i]).0)
}

/// Whether a resolution is that of an entry that misses a checksum.
pub open spec fn misses(es: Seq<Entry>, key: Seq<char>) -> bool {
    exists|i: int| 0 <= i < missing_of(es).len() && (#[trigger] missing_of(es)[i]).0 == key
}

/// Whether no two entries that miss a checksum have the same resolution.
pub open spec fn is_distinct(es: Seq<Entry>) -> bool {
    forall|i: int, j: int|
        0 <= i < j < missing_of(es).len() ==> (#[trigger] missing_of(es)[i]).0 != (
        #[trigger] missing_of(es)[j]).0
}

proof fn lemma_misses_push(es: Seq<Entry>)
    requires
        es.len() > 0,
    ensures
        ({
            let e = es.last();
            let lacks = entry::is_real(e.resolved@) && source::lacks_integrity(
                e.resolved@,
                e.integrity@,
            );
            forall|key: Seq<char>| #[trigger]
                misses(es, key) == (misses(es.drop_last(), key) || (lacks && key == e.resolved@))
        }),
{
    let e = es.last();
    let lacks = entry::is_real(e.resolved@) && source::lacks_integrity(e.resolved@, e.integrity@);
    let before = missing_of(es.drop_last());
    let all = missing_of(es);
    assert forall|key: Seq<char>| #[trigger] misses(es, key) == (misses(es.drop_last(), key) || (
    lacks && key == e.resolved@)) by {
        if misses(es.drop_last(), key) {
            let i = choose|i: int| 0 <= i < before.len() && (#[trigger] before[i]).0 == key;
            assert(all[i].0 == key);
        }
        if lacks && key == e.resolved@ {
            assert(all[before.len() as int].0 == key);
        }
        if misses(es, key) {
            let i = choose|i: int| 0 <= i < all.len() && (#[trigger] all[i]).0 == key;
            if i < before.len() {
                assert(before[i].0 == key);
            }
        }
    }
}

/// If all sources are found, the entries that miss a checksum took theirs, and no others did.
proof fn lemma_taken(es: Seq<Entry>, missing: Map<Seq<char>, Seq<char>>)
    requires
        fetch::planned(es, missing).0 is Ok,
    ensures
        forall|key: Seq<char>| #[trigger] misses(es, key) ==> missing.contains_key(key),
        forall|key: Seq<char>| #[trigger]
            fetch::planned(es, missing).1.contains_key(key) <==> missing.contains_key(key)
                && !misses(es, key),
    decreases es.len(),
{
    if es.len() > 0 {
        lemma_taken(es.drop_last(), missing);
        lemma_misses_push(es);
    }
}

/// With a checksum for every entry that misses one, all sources are found.
proof fn lemma_covered(es: Seq<Entry>, missing: Map<Seq<char>, Seq<char>>)
    requires
        forall|i: int| 0 <= i < es.len() ==> is_known(#[trigger] es[i]),
        is_distinct(es),
        covers(missing, es),
        forall|key: Seq<char>| #[trigger]
            missing.contains_key(key) ==> text::byte_len(missing[key]) == 128,
    ensures
        fetch::planned(es, missing).0 is Ok,
        forall|key: Seq<char>| #[trigger]
            fetch::planned(es, missing).1.contains_key(key) ==> missing.contains_key(key)
                && fetch::planned(es, missing).1[key] == missing[key],
    decreases es.len(),
{
    if es.len() > 0 {
        let init = es.drop_last();
        let e = es.last();
        let all = missing_of(es);
        let before = missing_of(init);
        assert(is_known(es[es.len() - 1]));
        assert forall|i: int| 0 <= i < init.len() implies is_known(#[trigger] init[i]) by {
            assert(init[i] == es[i]);
        }
        assert forall|i: int| 0 <= i < before.len() implies #[trigger] before[i] == all[i] by {}
        assert(is_distinct(init)) by {
            assert forall|i: int, j: int| 0 <= i < j < before.len() implies (
            #[trigger] before[i]).0 != (#[trigger] before[j]).0 by {
                assert(all[i].0 != all[j].0);
            }
        }
        assert(covers(missing, init)) by {
            assert forall|i: int| 0 <= i < before.len() implies missing.contains_key(
                (#[trigger] before[i]).0,
            ) by {
                assert(missing.contains_key(all[i].0));
            }
        }
        lemma_covered(init, missing);
        lemma_taken(init, missing);
        if entry::is_real(e.resolved@) && source::lacks_integrity(e.resolved@, e.integrity@) {
            let last = all.len() - 1;
            assert(all[last].0 == e.resolved@);
            assert(missing.contains_key(all[last].0));
            if misses(init, e.resolved@) {
                let i = choose|i: int|
                    0 <= i < before.len() && (#[trigger] before[i]).0 == e.resolved@;
                assert(all[i].0 != all[last].0);
            }
            assert(fetch::planned(init, missing).1.contains_key(e.resolved@));
        }
    }
}

/// The checksums of the archives that miss one, and no others, make a lockfile fetchable. They
/// are as long as checksums are, and no two of the archives are looked up by the same text.
pub proof fn law_missing_hashes_make_fetchable(
    es: Seq<Entry>,
    missing: Map<Seq<char>, Seq<char>>,
)
    requires
        forall|i: int| 0 <= i < es.len() ==> is_known(#[trigger] es[i]),
        is_distinct(es),
        forall|key: Seq<char>| #[trigger] missing.contains_key(key) <==> misses(es, key),
        forall|key: Seq<char>| #[trigger]
            missing.contains_key(key) ==> text::byte_len(missing[key]) == 128,
    ensures
        fetch::can_be_planned(es, missing),
        fetch::planned(es, missing).0 is Ok,
        fetch::planned(es, missing).1 == Map::<Seq<char>, Seq<char>>::empty(),
{
    assert(covers(missing, es)) by {
        assert forall|i: int| 0 <= i < missing_of(es).len() implies missing.contains_key(
            (#[trigger] missing_of(es)[i]).0,
        ) by {
            assert(misses(es, missing_of(es)[i].0));
        }
    }
    lemma_covered(es, missing);
    lemma_taken(es, missing);
    assert(fetch::planned(es, missing).1 =~= Map::<Seq<char>, Seq<char>>::empty());
    assert forall|i: int|
        0 <= i < es.len() && fetch::planned(
            #[trigger] es.take(i),
            missing,
        ).0 is Ok implies source::is_sound(es[i].resolved@, es[i].integrity@) by {
        assert(is_known(es[i]));
    }
}

/// Missing checksums are taken only if they are those of the entries that miss one, all of them and
/// no others.
pub proof fn law_only_matching_hashes_are_taken(
    es: Seq<Entry>,
    missing: Map<Seq<char>, Seq<char>>,
    key: Seq<char>,
)
    requires
        fetch::planned(es, missing).0 is Ok,
        fetch::planned(es, missing).1 == Map::<Seq<char>, Seq<char>>::empty(),
    ensures
        missing.contains_key(key) <==> misses(es, key),
{
    lemma_taken(es, missing);
    assert(!fetch::planned(es, missing).1.contains_key(key));
}

/// Whether an entry is an archive without a checksum.
pub open spec fn wants_checksum(e: Entry) -> bool {
    &&& entry::is_real(e.resolved@)
    &&& entry::comes_from_npm(e.resolved@) || entry::comes_from_tar(e.resolved@)
    &&& e.integrity@.len() == 0 || e.integrity@.last() == '/'
}

/// The archives that are found are the entries without checksums, each once and in order. Each is
/// looked up by the resolution of its entry, has the name of its entry, and is fetched from where the
/// entry is.
pub proof fn law_missing_sources_are_entries(es: Seq<Entry>) -> (at: Seq<int>)
    ensures
        text::lists(at, es.len() as int, |k: int| wants_checksum(es[k])),
        missing_of(es).len() == at.len(),
        forall|a: int|
            0 <= a < at.len() ==> {
                let e = es[at[a]];
                &&& (#[trigger] missing_of(es)[a]).0 == e.resolved@
                &&& missing_of(es)[a].1 == e.name@
                &&& missing_of(es)[a].2 == if entry::comes_from_npm(e.resolved@) {
                    entry::npm_url_of(e.resolved@)
                } else {
                    entry::resolution_of(e.resolved@)
                }
            },
{
    let at = lemma_missing_sources(es, es.len() as int);
    assert(es.take(es.len() as int) =~= es);
    at
}

proof fn lemma_missing_sources(es: Seq<Entry>, n: int) -> (at: Seq<int>)
    requires
        0 <= n <= es.len(),
    ensures
        text::lists(at, n, |k: int| wants_checksum(es[k])),
        missing_of(es.take(n)).len() == at.len(),
        forall|a: int|
            0 <= a < at.len() ==> {
                let e = es[at[a]];
                &&& (#[trigger] missing_of(es.take(n))[a]).0 == e.resolved@
                &&& missing_of(es.take(n))[a].1 == e.name@
                &&& missing_of(es.take(n))[a].2 == if entry::comes_from_npm(e.resolved@) {
                    entry::npm_url_of(e.resolved@)
                } else {
                    entry::resolution_of(e.resolved@)
                }
            },
    decreases n,
{
    let wanted = |k: int| wants_checksum(es[k]);
    if n == 0 {
        Seq::empty()
    } else {
        let before = lemma_missing_sources(es, n - 1);
        text::lemma_lists_next(before, n - 1, wanted);
        assert(es.take(n).drop_last() =~= es.take(n - 1));
        assert(es.take(n).last() == es[n - 1]);
        source::law_archives_without_checksums(es[n - 1].resolved@, es[n - 1].integrity@);
        if wanted(n - 1) {
            before.push(n - 1)
        } else {
            before
        }
    }
}

/// The checksum that is calculated for an archive is the one that it is checked with: the zip file is
/// made for the package, the URL and the level that fetching the entry has. The name of the entry is
/// that of its resolution.
pub proof fn law_checksums_are_those_of_the_cache(
    cache: Cache,
    r: MissingSources,
    job: ZipJob,
    a: int,
    k: int,
    url: String,
    integrity: String,
)
    requires
        missing_texts(r.sources@) == missing_of(cache.lockfile.entries@),
        cache.lockfile.cache_key matches Some(key) && lockfile::key_numbers(key@)
            is Some && lockfile::key_numbers(key@)->Some_0.1 == match r.compression {
            Some(level) => Some(level as nat),
            None => None,
        },
        0 <= a < r.sources@.len(),
        0 <= k < cache.lockfile.entries@.len(),
        r.sources@[a].resolved@ == cache.lockfile.entries@[k].resolved@,
        forall|i: int|
            0 <= i < cache.lockfile.entries@.len() ==> (#[trigger] cache.lockfile.entries@[i]).name@
                == entry::name_of(cache.lockfile.entries@[i].resolved@),
        cache.is_job(job, cache.lockfile.entries@[k], url, integrity),
        url@ == source::url_of(cache.lockfile.entries@[k].resolved@),
    ensures
        r.sources@[a].name@ == job.package@,
        r.sources@[a].url@ == job.url@,
        r.compression == job.compression,
{
    let es = cache.lockfile.entries@;
    let at = law_missing_sources_are_entries(es);
    assert(missing_texts(r.sources@).len() == r.sources@.len());
    assert(missing_texts(r.sources@)[a] == missing_text(r.sources@[a]));
    assert(0 <= at[a] < es.len());
    assert(es[at[a]].name@ == entry::name_of(es[at[a]].resolved@));
}

} // verus!
