//! The metadata cache: canonical path to typed fields, validated by the
//! file's modification time (seconds and nanoseconds) and byte size. An
//! entry answers a lookup only on an exact match of all three; any
//! mismatch is a miss and forces a re-parse. The cache is a pure
//! speed-up: a missing or stale store never changes results.

use crate::frontmatter::SproutFrontmatter;
use vstd::prelude::*;

verus! {

/// The version tag of the persisted store; any other tag reads as an
/// empty cache.
pub const CACHE_VERSION: u32 = 1;

/// One persisted entry.
pub struct CacheRecord {
    pub path: Vec<u8>,
    pub mtime_secs: i64,
    pub mtime_nanos: u32,
    pub size: u64,
    pub frontmatter: SproutFrontmatter,
}

/// What the cache knows of one path.
pub struct CachedMeta {
    pub mtime_secs: i64,
    pub mtime_nanos: u32,
    pub size: u64,
    pub frontmatter: SproutFrontmatter,
}

/// The map a record list denotes: later records win the key.
pub open spec fn records_map(es: Seq<CacheRecord>) -> Map<Seq<u8>, CachedMeta>
    decreases es.len(),
{
    if es.len() == 0 {
        Map::empty()
    } else {
        records_map(es.drop_last()).insert(
            es.last().path@,
            CachedMeta {
                mtime_secs: es.last().mtime_secs,
                mtime_nanos: es.last().mtime_nanos,
                size: es.last().size,
                frontmatter: es.last().frontmatter,
            },
        )
    }
}

/// The in-memory cache, with a dirty flag that gates saving.
pub struct FrontmatterCache {
    entries: Vec<CacheRecord>,
    dirty: bool,
}

/// No two entries share a path.
pub open spec fn unique_paths(es: Seq<CacheRecord>) -> bool {
    forall|a: int, b: int|
        0 <= a < b < es.len() ==> (#[trigger] es[a]).path@ != (#[trigger] es[b]).path@
}

proof fn lemma_records_map_unique(es: Seq<CacheRecord>, i: int)
    requires
        unique_paths(es),
        0 <= i < es.len(),
    ensures
        records_map(es).contains_key(es[i].path@),
        records_map(es)[es[i].path@] == (CachedMeta {
            mtime_secs: es[i].mtime_secs,
            mtime_nanos: es[i].mtime_nanos,
            size: es[i].size,
            frontmatter: es[i].frontmatter,
        }),
    decreases es.len(),
{
    if i == es.len() - 1 {
    } else {
        assert(es.drop_last()[i] == es[i]);
        assert(unique_paths(es.drop_last())) by {
            assert(forall|a: int, b: int|
                0 <= a < b < es.drop_last().len() ==> (#[trigger] es.drop_last()[a]).path@ != (
                #[trigger] es.drop_last()[b]).path@) by {
                assert(forall|a: int|
                    0 <= a < es.drop_last().len() ==> #[trigger] es.drop_last()[a] == es[a]);
            }
        }
        lemma_records_map_unique(es.drop_last(), i);
        assert(es[i].path@ != es.last().path@);
    }
}

proof fn lemma_records_map_absent(es: Seq<CacheRecord>, p: Seq<u8>)
    requires
        forall|j: int| 0 <= j < es.len() ==> (#[trigger] es[j]).path@ != p,
    ensures
        !records_map(es).contains_key(p),
    decreases es.len(),
{
    if es.len() > 0 {
        assert(forall|j: int| 0 <= j < es.drop_last().len() ==> #[trigger] es.drop_last()[j] == es[j]);
        lemma_records_map_absent(es.drop_last(), p);
    }
}

impl View for FrontmatterCache {
    type V = Map<Seq<u8>, CachedMeta>;

    closed spec fn view(&self) -> Map<Seq<u8>, CachedMeta> {
        records_map(self.entries@)
    }
}

impl FrontmatterCache {
    /// The structural invariant: one entry per path.
    pub closed spec fn wf(self) -> bool {
        unique_paths(self.entries@)
    }

    /// Has the cache been changed since it was loaded?
    pub closed spec fn spec_dirty(self) -> bool {
        self.dirty
    }

    /// An empty, clean cache.
    pub fn new() -> (r: FrontmatterCache)
        ensures
            r.wf(),
            r@ == Map::<Seq<u8>, CachedMeta>::empty(),
            !r.spec_dirty(),
    {
        FrontmatterCache { entries: Vec::new(), dirty: false }
    }

    /// Rebuild a cache from a persisted store. A version tag other than
    /// `CACHE_VERSION` reads as an empty cache — never an error.
    pub fn from_records(version: u32, records: Vec<CacheRecord>) -> (r: FrontmatterCache)
        ensures
            r.wf(),
            !r.spec_dirty(),
            version == CACHE_VERSION ==> r@ == records_map(records@),
            version != CACHE_VERSION ==> r@ == Map::<Seq<u8>, CachedMeta>::empty(),
    {
        let mut cache = FrontmatterCache::new();
        if version != CACHE_VERSION {
            return cache;
        }
        let n = records.len();
        let mut rest = records;
        let ghost all = rest@;
        let mut i: usize = 0;
        proof {
            assert(all.take(0) =~= Seq::<CacheRecord>::empty());
        }
        while i < n
            invariant
                0 <= i <= n,
                rest@.len() == n,
                rest@ == all,
                cache.wf(),
                cache@ == records_map(all.take(i as int)),
            decreases n - i,
        {
            let rec = CacheRecord {
                path: crate::text::sub_bytes(rest[i].path.as_slice(), 0, rest[i].path.len()),
                mtime_secs: rest[i].mtime_secs,
                mtime_nanos: rest[i].mtime_nanos,
                size: rest[i].size,
                frontmatter: rest[i].frontmatter.clone(),
            };
            proof {
                assert(rec.path@ == all[i as int].path@);
                assert(all.take(i + 1).drop_last() =~= all.take(i as int));
                assert(all.take(i + 1).last() == all[i as int]);
            }
            cache.insert_record(rec);
            proof {
                assert(cache@ =~= records_map(all.take(i + 1)));
            }
            i = i + 1;
        }
        proof {
            assert(all.take(n as int) =~= all);
        }
        cache.dirty = false;
        cache
    }

    /// The records, for persisting.
    pub fn records(&self) -> (r: &Vec<CacheRecord>)
        ensures
            records_map(r@) == self@,
    {
        &self.entries
    }

    /// Has the cache been changed since it was loaded?
    pub fn is_dirty(&self) -> (r: bool)
        ensures
            r == self.spec_dirty(),
    {
        self.dirty
    }

    /// Look up a path: the cached fields come back only when the stored
    /// modification time (to the nanosecond) and size both match exactly;
    /// any difference, in either, of any amount, is a miss.
    pub fn get(&self, path: &[u8], mtime_secs: i64, mtime_nanos: u32, size: u64) -> (r: Option<
        &SproutFrontmatter,
    >)
        requires
            self.wf(),
        ensures
            match r {
                Some(f) => self@.contains_key(path@) && self@[path@] == (CachedMeta {
                    mtime_secs,
                    mtime_nanos,
                    size,
                    frontmatter: *f,
                }),
                None => !self@.contains_key(path@) || self@[path@].mtime_secs != mtime_secs
                    || self@[path@].mtime_nanos != mtime_nanos || self@[path@].size != size,
            },
    {
        let n = self.entries.len();
        let mut i: usize = 0;
        while i < n
            invariant
                0 <= i <= n,
                n == self.entries@.len(),
                self.wf(),
                forall|j: int| 0 <= j < i ==> (#[trigger] self.entries@[j]).path@ != path@,
            decreases n - i,
        {
            if crate::text::bytes_eq(self.entries[i].path.as_slice(), path) {
                proof {
                    lemma_records_map_unique(self.entries@, i as int);
                }
                let e = &self.entries[i];
                if e.mtime_secs == mtime_secs && e.mtime_nanos == mtime_nanos && e.size == size {
                    return Some(&e.frontmatter);
                } else {
                    return None;
                }
            }
            i = i + 1;
        }
        proof {
            lemma_records_map_absent(self.entries@, path@);
        }
        None
    }

    fn insert_record(&mut self, rec: CacheRecord)
        requires
            old(self).wf(),
        ensures
            final(self).wf(),
            final(self)@ == old(self)@.insert(
                rec.path@,
                CachedMeta {
                    mtime_secs: rec.mtime_secs,
                    mtime_nanos: rec.mtime_nanos,
                    size: rec.size,
                    frontmatter: rec.frontmatter,
                },
            ),
            final(self).spec_dirty(),
    {
        let n = self.entries.len();
        let mut i: usize = 0;
        while i < n
            invariant
                0 <= i <= n,
                n == self.entries@.len(),
                *self == *old(self),
                self.wf(),
                forall|j: int| 0 <= j < i ==> (#[trigger] self.entries@[j]).path@ != rec.path@,
            decreases n - i,
        {
            if crate::text::bytes_eq(self.entries[i].path.as_slice(), rec.path.as_slice()) {
                let ghost old_es = self.entries@;
                self.entries.set(i, rec);
                self.dirty = true;
                proof {
                    lemma_update_at(old_es, i as int, self.entries@[i as int]);
                }
                return ;
            }
            i = i + 1;
        }
        let ghost old_es = self.entries@;
        self.entries.push(rec);
        self.dirty = true;
        proof {
            assert(self.entries@.drop_last() =~= old_es);
            assert forall|a: int, b: int|
                0 <= a < b < self.entries@.len() implies (#[trigger] self.entries@[a]).path@ != (
            #[trigger] self.entries@[b]).path@ by {
                if b < self.entries@.len() - 1 {
                    assert(self.entries@[a] == old_es[a] && self.entries@[b] == old_es[b]);
                } else {
                    assert(self.entries@[a] == old_es[a]);
                }
            }
        }
    }

    /// Store the fields for a path, replacing any entry it already has,
    /// and mark the cache dirty.
    pub fn insert(
        &mut self,
        path: Vec<u8>,
        mtime_secs: i64,
        mtime_nanos: u32,
        size: u64,
        frontmatter: SproutFrontmatter,
    )
        requires
            old(self).wf(),
        ensures
            final(self).wf(),
            final(self)@ == old(self)@.insert(
                path@,
                CachedMeta { mtime_secs, mtime_nanos, size, frontmatter },
            ),
            final(self).spec_dirty(),
    {
        self.insert_record(CacheRecord { path, mtime_secs, mtime_nanos, size, frontmatter });
    }
}

proof fn lemma_update_at(es: Seq<CacheRecord>, i: int, rec: CacheRecord)
    requires
        unique_paths(es),
        0 <= i < es.len(),
        es[i].path@ == rec.path@,
    ensures
        unique_paths(es.update(i, rec)),
        records_map(es.update(i, rec)) == records_map(es).insert(
            rec.path@,
            CachedMeta {
                mtime_secs: rec.mtime_secs,
                mtime_nanos: rec.mtime_nanos,
                size: rec.size,
                frontmatter: rec.frontmatter,
            },
        ),
    decreases es.len(),
{
    let es2 = es.update(i, rec);
    assert forall|a: int, b: int|
        0 <= a < b < es2.len() implies (#[trigger] es2[a]).path@ != (#[trigger] es2[b]).path@ by {
        assert(es[a].path@ != es[b].path@);
    }
    if i == es.len() - 1 {
        assert(es2.drop_last() =~= es.drop_last());
        assert(records_map(es2) =~= records_map(es).insert(
            rec.path@,
            CachedMeta {
                mtime_secs: rec.mtime_secs,
                mtime_nanos: rec.mtime_nanos,
                size: rec.size,
                frontmatter: rec.frontmatter,
            },
        ));
    } else {
        assert(unique_paths(es.drop_last())) by {
            assert(forall|a: int|
                0 <= a < es.drop_last().len() ==> #[trigger] es.drop_last()[a] == es[a]);
        }
        assert(es.drop_last()[i] == es[i]);
        lemma_update_at(es.drop_last(), i, rec);
        assert(es2.drop_last() =~= es.drop_last().update(i, rec));
        assert(es2.last() == es.last());
        let m = CachedMeta {
            mtime_secs: rec.mtime_secs,
            mtime_nanos: rec.mtime_nanos,
            size: rec.size,
            frontmatter: rec.frontmatter,
        };
        let lastm = CachedMeta {
            mtime_secs: es.last().mtime_secs,
            mtime_nanos: es.last().mtime_nanos,
            size: es.last().size,
            frontmatter: es.last().frontmatter,
        };
        assert(records_map(es2) == records_map(es.drop_last()).insert(rec.path@, m).insert(
            es.last().path@,
            lastm,
        ));
        assert(es.last().path@ != rec.path@);
        assert(records_map(es.drop_last()).insert(rec.path@, m).insert(es.last().path@, lastm)
            =~= records_map(es.drop_last()).insert(es.last().path@, lastm).insert(rec.path@, m));
    }
}

} // verus!
