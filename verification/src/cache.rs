//! The on-disk LRU cache of remote file contents.
//!
//! The index is an ordered mapping from remote `Location` to `CacheEntry`
//! (the node-local URI of the backing file), most recently used first,
//! kept in an `lru::LruCache` behind trusted wrappers.  Around it this
//! module builds the verified insert-and-evict step, the byte-accounting,
//! and the persistence format that survives a daemon restart.

use vstd::prelude::*;
use std::collections::hash_map::RandomState;

use crate::messages::{Location, CacheEntry, LocV};
use crate::store::{FileStore, FileV};
use crate::codec::{
    enc_str, dec_str, enc_uint, dec_uint, lemma_str_round_trip, lemma_uint_round_trip,
    lemma_dec_str_bounds, lemma_dec_uint_bounds, encode_str, decode_str, encode_uint,
    decode_uint, take_range, string_eq,
};

verus! {

/// The `lru` crate's cache type, declared so that values of it can stand
/// in fields and signatures; its contents are known to Verus only through
/// `lru_pairs` below.
#[verifier::external_type_specification]
#[verifier::external_body]
#[verifier::reject_recursive_types(K)]
#[verifier::reject_recursive_types(V)]
#[verifier::reject_recursive_types(S)]
pub struct ExLruCache<K, V, S>(lru::LruCache<K, V, S>);

/// The key under which a location is cached: the owning node's name and
/// the remote URI.
pub open spec fn loc_key(l: LocV) -> (Seq<char>, Seq<char>) {
    (l.node, l.uri)
}

/// What the LRU cache holds: its (location key, backing URI) pairs in
/// most-recently-used-first order.
pub uninterp spec fn lru_pairs(
    c: lru::LruCache<Location, CacheEntry, RandomState>,
) -> Seq<((Seq<char>, Seq<char>), Seq<char>)>;

/// The capacity the cache was made with: entries beyond it would push
/// the least recently used one out on insertion.
pub uninterp spec fn lru_cap(c: lru::LruCache<Location, CacheEntry, RandomState>) -> nat;

/// Relies on `lru::LruCache::unbounded_with_hasher`: a newly made cache
/// is empty and its capacity is the largest representable one.
#[verifier::external_body]
pub fn lru_new() -> (c: lru::LruCache<Location, CacheEntry, RandomState>)
    ensures
        lru_pairs(c) == Seq::<((Seq<char>, Seq<char>), Seq<char>)>::empty(),
        lru_cap(c) == usize::MAX as nat,
{
    lru::LruCache::unbounded_with_hasher(RandomState::default())
}

/// Relies on `lru::LruCache::len`: the number of entries (which hence
/// fits a `usize`).
#[verifier::external_body]
pub fn lru_len(c: &lru::LruCache<Location, CacheEntry, RandomState>) -> (r: usize)
    ensures
        r == lru_pairs(*c).len(),
{
    c.len()
}

/// Relies on `lru::LruCache::get`: returns the entry under the key and
/// moves it to the most-recently-used position; a miss changes nothing.
#[verifier::external_body]
pub fn lru_get(
    c: &mut lru::LruCache<Location, CacheEntry, RandomState>,
    k: &Location,
) -> (r: Option<CacheEntry>)
    ensures
        match r {
            Some(v) => exists|i: int|
                0 <= i < lru_pairs(*old(c)).len() && lru_pairs(*old(c))[i] == (loc_key(k@), v@)
                    && lru_pairs(*final(c)) == seq![lru_pairs(*old(c))[i]] + lru_pairs(
                    *old(c),
                ).remove(i),
            None => lru_pairs(*final(c)) == lru_pairs(*old(c)) && forall|i: int|
                0 <= i < lru_pairs(*old(c)).len() ==> lru_pairs(*old(c))[i].0 != loc_key(k@),
        },
        lru_cap(*final(c)) == lru_cap(*old(c)),
{
    match c.get(k) {
        Some(v) => Some(v.clone()),
        None => None,
    }
}

/// Relies on `lru::LruCache::put` on a cache below its capacity: inserts
/// the pair at the most-recently-used position; an existing entry under
/// the same key is replaced and returned.  At capacity `put` would also
/// pop the least recently used pair, so callers stay below it.
#[verifier::external_body]
pub fn lru_put(
    c: &mut lru::LruCache<Location, CacheEntry, RandomState>,
    k: Location,
    v: CacheEntry,
) -> (r: Option<CacheEntry>)
    requires
        lru_pairs(*old(c)).len() < lru_cap(*old(c)),
    ensures
        match r {
            Some(w) => exists|i: int|
                0 <= i < lru_pairs(*old(c)).len() && lru_pairs(*old(c))[i] == (loc_key(k@), w@)
                    && lru_pairs(*final(c)) == seq![(loc_key(k@), v@)] + lru_pairs(
                    *old(c),
                ).remove(i),
            None => (forall|i: int|
                0 <= i < lru_pairs(*old(c)).len() ==> lru_pairs(*old(c))[i].0 != loc_key(k@))
                && lru_pairs(*final(c)) == seq![(loc_key(k@), v@)] + lru_pairs(*old(c)),
        },
        lru_cap(*final(c)) == lru_cap(*old(c)),
{
    c.put(k, v)
}

/// Relies on `lru::LruCache::pop_lru`: removes and returns the least
/// recently used pair; an empty cache yields nothing.
#[verifier::external_body]
pub fn lru_pop_lru(
    c: &mut lru::LruCache<Location, CacheEntry, RandomState>,
) -> (r: Option<(Location, CacheEntry)>)
    ensures
        match r {
            Some(p) => lru_pairs(*old(c)).len() > 0 && lru_pairs(*old(c)).last() == (
                loc_key(p.0@),
                p.1@,
            ) && lru_pairs(*final(c)) == lru_pairs(*old(c)).drop_last(),
            None => lru_pairs(*old(c)).len() == 0 && lru_pairs(*final(c)) == lru_pairs(*old(c)),
        },
        lru_cap(*final(c)) == lru_cap(*old(c)),
{
    c.pop_lru()
}

/// Relies on `lru::LruCache::demote`: moves the entry under the key to
/// the least-recently-used position; a miss changes nothing.
#[verifier::external_body]
pub fn lru_demote(
    c: &mut lru::LruCache<Location, CacheEntry, RandomState>,
    k: &Location,
) -> (r: bool)
    ensures
        r ==> exists|i: int|
            0 <= i < lru_pairs(*old(c)).len() && lru_pairs(*old(c))[i].0 == loc_key(k@)
                && lru_pairs(*final(c)) == lru_pairs(*old(c)).remove(i).push(
                lru_pairs(*old(c))[i],
            ),
        !r ==> lru_pairs(*final(c)) == lru_pairs(*old(c)) && forall|i: int|
            0 <= i < lru_pairs(*old(c)).len() ==> lru_pairs(*old(c))[i].0 != loc_key(k@),
        lru_cap(*final(c)) == lru_cap(*old(c)),
{
    c.demote(k)
}

/// Relies on `lru::LruCache::iter`: walks the pairs from most to least
/// recently used; each is cloned out.
#[verifier::external_body]
pub fn lru_pairs_vec(
    c: &lru::LruCache<Location, CacheEntry, RandomState>,
) -> (r: Vec<(Location, CacheEntry)>)
    ensures
        r@.len() == lru_pairs(*c).len(),
        forall|i: int| 0 <= i < r@.len() ==> (loc_key(r@[i].0@), r@[i].1@) == lru_pairs(*c)[i],
{
    c.iter().map(|p| (p.0.clone(), p.1.clone())).collect()
}

// ---------------------------------------------------------------------------
// The cache index and its accounting
// ---------------------------------------------------------------------------

/// The LRU index with its byte accounting: capacity in bytes, the running
/// counter of used bytes, and a flag recording that the counter once
/// saturated (never in practice; accounting claims are withheld then).
pub struct CacheIndex {
    pub lru: lru::LruCache<Location, CacheEntry, RandomState>,
    pub used: u64,
    pub max: u64,
    pub overflowed: bool,
}

impl CacheIndex {
    /// The (location key, backing URI) pairs, most recently used first.
    pub open spec fn pairs(&self) -> Seq<((Seq<char>, Seq<char>), Seq<char>)> {
        lru_pairs(self.lru)
    }

    /// Location keys are pairwise distinct, so are backing URIs, and the
    /// cache is the unbounded kind this crate makes.
    pub open spec fn wf(&self) -> bool {
        &&& forall|i: int, j: int|
            0 <= i < j < self.pairs().len() ==> self.pairs()[i].0 != self.pairs()[j].0
        &&& forall|i: int, j: int|
            0 <= i < j < self.pairs().len() ==> self.pairs()[i].1 != self.pairs()[j].1
        &&& lru_cap(self.lru) == usize::MAX as nat
    }

    /// Every entry's backing file exists in the store.
    pub open spec fn backed(&self, files: Map<Seq<char>, FileV>) -> bool {
        forall|i: int| 0 <= i < self.pairs().len() ==> files.contains_key(#[trigger] self.pairs()[i].1)
    }

    /// A URI is the backing file of some entry of the given pairs.
    pub open spec fn is_backing_of(ps: Seq<((Seq<char>, Seq<char>), Seq<char>)>, u: Seq<char>) -> bool {
        exists|i: int| 0 <= i < ps.len() && #[trigger] ps[i].1 == u
    }

    /// A URI is the backing file of some entry.
    pub open spec fn is_backing(&self, u: Seq<char>) -> bool {
        CacheIndex::is_backing_of(self.pairs(), u)
    }

    /// The counter is exactly the sum of backing-file sizes, unless it
    /// once saturated.
    pub open spec fn accounted(&self, files: Map<Seq<char>, FileV>) -> bool {
        !self.overflowed ==> sum_sizes(self.pairs(), files) == self.used
    }

    /// The (location, entry) pairs, most recently used first.
    pub fn entries(&self) -> (r: Vec<(Location, CacheEntry)>)
        ensures
            r@.len() == self.pairs().len(),
            forall|i: int|
                0 <= i < r@.len() ==> (loc_key(#[trigger] r@[i].0@), r@[i].1@) == self.pairs()[i],
    {
        lru_pairs_vec(&self.lru)
    }

    /// An empty index with the given capacity.
    pub fn empty(max: u64) -> (r: CacheIndex)
        ensures
            r.pairs() == Seq::<((Seq<char>, Seq<char>), Seq<char>)>::empty(),
            r.wf(),
            r.used == 0,
            r.max == max,
            !r.overflowed,
    {
        CacheIndex { lru: lru_new(), used: 0, max, overflowed: false }
    }
}

/// The sum of the sizes of the backing files of the given pairs.
pub open spec fn sum_sizes(
    ps: Seq<((Seq<char>, Seq<char>), Seq<char>)>,
    files: Map<Seq<char>, FileV>,
) -> nat
    decreases ps.len(),
{
    if ps.len() == 0 {
        0
    } else {
        (if files.contains_key(ps[0].1) {
            files[ps[0].1].bytes.len()
        } else {
            0
        }) + sum_sizes(ps.drop_first(), files)
    }
}

/// The sum depends only on what the files map holds at the backing URIs.
pub proof fn lemma_sum_frame(
    ps: Seq<((Seq<char>, Seq<char>), Seq<char>)>,
    f1: Map<Seq<char>, FileV>,
    f2: Map<Seq<char>, FileV>,
)
    requires
        forall|i: int| 0 <= i < ps.len() ==> f1.contains_key(#[trigger] ps[i].1) == f2.contains_key(
            ps[i].1,
        ) && (f1.contains_key(ps[i].1) ==> f1[ps[i].1] == f2[ps[i].1]),
    ensures
        sum_sizes(ps, f1) == sum_sizes(ps, f2),
    decreases ps.len(),
{
    if ps.len() > 0 {
        assert(forall|i: int| 0 <= i < ps.drop_first().len() ==> ps.drop_first()[i] == ps[i + 1]);
        lemma_sum_frame(ps.drop_first(), f1, f2);
    }
}

/// Dropping the last pair subtracts its backing file's size.
pub proof fn lemma_sum_drop_last(
    ps: Seq<((Seq<char>, Seq<char>), Seq<char>)>,
    files: Map<Seq<char>, FileV>,
)
    requires
        ps.len() > 0,
    ensures
        sum_sizes(ps, files) == sum_sizes(ps.drop_last(), files) + (if files.contains_key(
            ps.last().1,
        ) {
            files[ps.last().1].bytes.len()
        } else {
            0
        }),
    decreases ps.len(),
{
    if ps.len() == 1 {
        assert(ps.drop_last() =~= Seq::empty());
    } else {
        assert(ps.drop_first().len() > 0);
        lemma_sum_drop_last(ps.drop_first(), files);
        assert(ps.drop_first().drop_last() =~= ps.drop_last().drop_first());
        assert(ps.drop_first().last() == ps.last());
        assert(ps.drop_last().len() > 0);
        assert(ps.drop_last()[0] == ps[0]);
        assert(sum_sizes(ps.drop_last(), files) == (if files.contains_key(ps[0].1) {
            files[ps[0].1].bytes.len()
        } else {
            0
        }) + sum_sizes(ps.drop_last().drop_first(), files));
        assert(sum_sizes(ps, files) == (if files.contains_key(ps[0].1) {
            files[ps[0].1].bytes.len()
        } else {
            0
        }) + sum_sizes(ps.drop_first(), files));
        assert(sum_sizes(ps.drop_first(), files) == sum_sizes(ps.drop_first().drop_last(), files)
            + (if files.contains_key(ps.last().1) {
            files[ps.last().1].bytes.len()
        } else {
            0
        }));
        assert(sum_sizes(ps.drop_last().drop_first(), files) == sum_sizes(
            ps.drop_first().drop_last(),
            files,
        ));
    }
}

/// Removing one pair subtracts its backing file's size.
pub proof fn lemma_sum_remove(
    ps: Seq<((Seq<char>, Seq<char>), Seq<char>)>,
    files: Map<Seq<char>, FileV>,
    i: int,
)
    requires
        0 <= i < ps.len(),
    ensures
        sum_sizes(ps, files) == sum_sizes(ps.remove(i), files) + (if files.contains_key(ps[i].1) {
            files[ps[i].1].bytes.len()
        } else {
            0
        }),
    decreases ps.len(),
{
    if i == 0 {
        assert(ps.remove(0) =~= ps.drop_first());
    } else {
        assert(ps.remove(i)[0] == ps[0]);
        assert(ps.remove(i).len() > 0);
        assert(ps.remove(i).drop_first() =~= ps.drop_first().remove(i - 1));
        lemma_sum_remove(ps.drop_first(), files, i - 1);
    }
}

/// Insert or refresh the cached copy of `loc` with `data`, then evict
/// least-recently-used entries (deleting their backing files) while the
/// counter exceeds the capacity, as one step.  The counter moves by the
/// delta rule: it grows by the data length and, on a refresh, shrinks by
/// what the backing file previously held, so it stays exactly the sum of
/// the backing sizes.  Fails (changing nothing) only when a fresh backing
/// name could not be made.  The daemon's insert step wraps this and also
/// rewrites the index file, as one mutation.
#[verifier::rlimit(100)]
pub(crate) fn add_cache_entry(
    idx: &mut CacheIndex,
    store: &mut FileStore,
    loc: &Location,
    data: &Vec<u8>,
    rand: u64,
    now: u64,
) -> (ok: bool)
    requires
        old(store).wf(),
        old(idx).wf(),
        old(idx).backed(old(store)@),
        old(idx).accounted(old(store)@),
    ensures
        final(store).wf(),
        final(idx).wf(),
        final(idx).backed(final(store)@),
        final(idx).accounted(final(store)@),
        final(idx).max == old(idx).max,
        // after eviction the counter, hence the true sum, is within the
        // capacity, or the cache is empty
        ok ==> final(idx).used <= final(idx).max || final(idx).pairs().len() == 0,
        // the cached copy is at the most-recently-used position and its
        // backing file holds the data, unless eviction removed it again
        ok && final(idx).pairs().len() > 0 && final(idx).used <= final(idx).max ==> {
            &&& final(idx).pairs()[0].0 == loc_key(loc@)
            &&& final(store)@.contains_key(final(idx).pairs()[0].1)
            &&& final(store)@[final(idx).pairs()[0].1].bytes == data@
            &&& final(store)@[final(idx).pairs()[0].1].mtime == now
        },
        // files outside the old and new backing sets are untouched
        forall|k: Seq<char>|
            !old(idx).is_backing(k) && !final(idx).is_backing(k) && !(ok
                && final(idx).pairs().len() > 0 && final(idx).pairs()[0].1 == k) ==> (
            old(store)@.contains_key(k) == final(store)@.contains_key(k) && (old(
                store,
            )@.contains_key(k) ==> old(store)@[k] == final(store)@[k])),
        // a fresh backing file never shadows an existing store file
        forall|k: Seq<char>|
            old(store)@.contains_key(k) && !old(idx).is_backing(k) ==> !final(idx).is_backing(k),
        !ok ==> final(store)@ == old(store)@ && final(idx).pairs() == old(idx).pairs()
            && final(idx).used == old(idx).used && final(idx).overflowed == old(idx).overflowed,
        // failure happens only for a fresh key, and only in a degenerate
        // state: an index at the length limit, or a present name too long
        // to exceed
        !ok ==> (forall|m: int|
            0 <= m < old(idx).pairs().len() ==> (#[trigger] old(idx).pairs()[m]).0 != loc_key(
                loc@,
            )) && (old(idx).pairs().len() >= usize::MAX || exists|k: Seq<char>|
            old(store)@.contains_key(k) && k.len() >= usize::MAX),
        // a backing URI is either inherited or freshly allocated hex
        forall|u: Seq<char>|
            final(idx).is_backing(u) ==> old(idx).is_backing(u) || crate::store::uri_hexy(u),
        // without arithmetic overflow the saturation flag is untouched
        ok && old(idx).used + data@.len() <= u64::MAX ==> final(idx).overflowed == old(
            idx,
        ).overflowed,
        // a refresh of a cached key always goes through
        (exists|m: int|
            0 <= m < old(idx).pairs().len() && (#[trigger] old(idx).pairs()[m]).0 == loc_key(
                loc@,
            )) ==> ok,
        // a refresh keeps the key's backing URI: if the key was cached,
        // the surviving front pair is exactly the old pair
        ok && final(idx).pairs().len() > 0 && (exists|m: int|
            0 <= m < old(idx).pairs().len() && (#[trigger] old(idx).pairs()[m]).0 == loc_key(
                loc@,
            )) ==> exists|m: int|
            0 <= m < old(idx).pairs().len() && (#[trigger] old(idx).pairs()[m]).0 == loc_key(
                loc@,
            ) && final(idx).pairs()[0] == old(idx).pairs()[m],
        // every surviving pair behind the front is an old pair
        ok ==> forall|m: int|
            1 <= m < final(idx).pairs().len() ==> exists|k: int|
                0 <= k < old(idx).pairs().len() && #[trigger] final(idx).pairs()[m] == old(
                    idx,
                ).pairs()[k],
        // every surviving file other than the freshly written copy is as
        // it was
        forall|k: Seq<char>|
            final(store)@.contains_key(k) && !(ok && final(idx).pairs().len() > 0
                && k == final(idx).pairs()[0].1) ==> old(store)@.contains_key(k)
                && final(store)@[k] == old(store)@[k],
{
    let ghost ps0 = idx.pairs();
    let ghost files0 = store@;
    // on a refresh, what the backing file held before; zero on an insert
    let mut sub: u64 = 0;
    let got = lru_get(&mut idx.lru, loc);
    match got {
        Some(entry) => {
            let ghost i = choose|i: int|
                0 <= i < ps0.len() && ps0[i] == (loc_key(loc@), entry@) && idx.pairs() == seq![
                    ps0[i],
                ] + ps0.remove(i);
            assert(files0.contains_key(entry.uri@));
            let old_sz = match store.size_of(entry.uri.as_str()) {
                Some(s) => s,
                None => {
                    assert(false);
                    0
                },
            };
            sub = old_sz as u64;
            let copy = take_range(data, 0, data.len());
            let wrote = store.write(entry.uri.as_str(), copy, now);
            proof {
                assert(files0[entry.uri@].bytes.len() == old_sz);
                assert(wrote);
                // the refreshed sum: the backing file now holds `data`
                lemma_sum_remove(ps0, files0, i);
                let rm = ps0.remove(i);
                assert(forall|j: int| 0 <= j < rm.len() ==> rm[j].1 != entry.uri@) by {
                    assert(forall|j: int|
                        0 <= j < ps0.len() && j != i ==> ps0[j].1 != ps0[i].1);
                    assert(forall|j: int|
                        0 <= j < rm.len() ==> rm[j] == ps0[j] || rm[j] == ps0[j + 1]);
                }
                lemma_sum_frame(rm, files0, store@);
                assert(idx.pairs().drop_first() =~= rm);
                assert(sum_sizes(idx.pairs(), store@) == data@.len() + sum_sizes(rm, files0));
                assert forall|k: Seq<char>| #[trigger]
                    CacheIndex::is_backing_of(idx.pairs(), k) implies CacheIndex::is_backing_of(
                    ps0,
                    k,
                ) by {
                    let m = choose|m: int|
                        0 <= m < idx.pairs().len() && #[trigger] idx.pairs()[m].1 == k;
                    if m == 0 {
                        assert(ps0[i].1 == k);
                    } else {
                        assert(idx.pairs()[m] == rm[m - 1]);
                        if m - 1 < i {
                            assert(rm[m - 1] == ps0[m - 1]);
                        } else {
                            assert(rm[m - 1] == ps0[m]);
                        }
                    }
                }
                assert forall|m: int|
                    1 <= m < idx.pairs().len() implies exists|k: int|
                    0 <= k < ps0.len() && #[trigger] idx.pairs()[m] == ps0[k] by {
                    assert(idx.pairs()[m] == rm[m - 1]);
                    if m - 1 < i {
                        assert(rm[m - 1] == ps0[m - 1]);
                    } else {
                        assert(rm[m - 1] == ps0[m]);
                    }
                }
                // the delta equation the accounting below settles
                if !old(idx).overflowed {
                    assert(sum_sizes(ps0, files0) == old(idx).used);
                    assert(sum_sizes(ps0, files0) == sum_sizes(rm, files0) + old_sz);
                    assert(sub <= old(idx).used);
                    assert(sum_sizes(idx.pairs(), store@) + sub == old(idx).used + data@.len());
                }
            }
        },
        None => {
            let n0 = lru_len(&idx.lru);
            if n0 == usize::MAX {
                return false;
            }
            match store.alloc_uri(rand, now) {
                None => {
                    return false;
                },
                Some(uri) => {
                    let ghost fresh = uri@;
                    let copy = take_range(data, 0, data.len());
                    let wrote = store.write(uri.as_str(), copy, now);
                    assert(wrote);
                    let old_val = lru_put(&mut idx.lru, loc.clone(), CacheEntry { uri });
                    proof {
                        assert(old_val is None);
                        assert(idx.pairs() =~= seq![(loc_key(loc@), fresh)] + ps0);
                        assert(forall|j: int| 0 <= j < ps0.len() ==> ps0[j].1 != fresh);
                        lemma_sum_frame(ps0, files0, store@);
                        assert(idx.pairs().drop_first() =~= ps0);
                        assert(sum_sizes(idx.pairs(), store@) == data@.len() + sum_sizes(
                            ps0,
                            files0,
                        ));
                        assert forall|k: Seq<char>| #[trigger]
                            CacheIndex::is_backing_of(idx.pairs(), k) implies k == fresh
                            || CacheIndex::is_backing_of(ps0, k) by {
                            let m = choose|m: int|
                                0 <= m < idx.pairs().len() && #[trigger] idx.pairs()[m].1 == k;
                            if m > 0 {
                                assert(idx.pairs()[m] == ps0[m - 1]);
                            }
                        }
                        assert(!files0.contains_key(fresh));
                        assert(crate::store::uri_hexy(fresh));
                        assert(forall|m: int|
                            1 <= m < idx.pairs().len() ==> #[trigger] idx.pairs()[m] == ps0[m
                                - 1]);
                        if !old(idx).overflowed {
                            assert(sub == 0);
                            assert(sum_sizes(idx.pairs(), store@) + sub == old(idx).used
                                + data@.len());
                        }
                    }
                },
            }
        },
    }
    // the delta rule: grow by the new length, shrink by what a refreshed
    // backing file previously held
    let len64 = data.len() as u64;
    let base = idx.used.saturating_sub(sub);
    match base.checked_add(len64) {
        Some(u) => {
            idx.used = u;
        },
        None => {
            idx.used = u64::MAX;
            idx.overflowed = true;
        },
    }
    let ghost ps1 = idx.pairs();
    let ghost files1 = store@;
    assert(idx.backed(store@));
    assert(idx.accounted(store@));
    assert(ps1.len() > 0 && ps1[0].0 == loc_key(loc@));
    let ghost u0 = ps1[0].1;
    // every backing uri of the new state is the front one or an old one,
    // and the front one never names a pre-existing non-backing store file
    assert(forall|k: Seq<char>| #[trigger] CacheIndex::is_backing_of(ps1, k) ==> k == u0
        || CacheIndex::is_backing_of(ps0, k));
    assert(files0.contains_key(u0) ==> CacheIndex::is_backing_of(ps0, u0));
    assert(CacheIndex::is_backing_of(ps0, u0) || crate::store::uri_hexy(u0));
    assert(forall|m: int|
        1 <= m < ps1.len() ==> exists|k: int| 0 <= k < ps0.len() && #[trigger] ps1[m] == ps0[k]);
    let ghost flag1 = idx.overflowed;
    // pre-loop store: only the front backing file changed
    assert(forall|k: Seq<char>| k != u0 ==> files0.contains_key(k) == files1.contains_key(k)
        && (files0.contains_key(k) ==> files0[k] == files1[k]));
    assert(store@.contains_key(ps1[0].1) && store@[ps1[0].1].bytes == data@ && store@[ps1[0].1].mtime
        == now);
    // evict least-recently-used entries while over capacity
    let mut n = lru_len(&idx.lru);
    while idx.used > idx.max && n > 0
        invariant
            store.wf(),
            idx.wf(),
            n == idx.pairs().len(),
            idx.backed(store@),
            idx.accounted(store@),
            idx.max == old(idx).max,
            idx.overflowed == flag1,
            // the entry at the front survives eviction until it is alone,
            // and its backing file keeps holding the data
            idx.pairs().len() > 0 ==> idx.pairs()[0] == ps1[0] && store@.contains_key(ps1[0].1)
                && store@[ps1[0].1].bytes == data@ && store@[ps1[0].1].mtime == now,
            // an evicted backing file is gone from the store
            forall|k: Seq<char>|
                CacheIndex::is_backing_of(ps1, k) && !CacheIndex::is_backing_of(idx.pairs(), k)
                    ==> !store@.contains_key(k),
            // the loop only removes files
            forall|k: Seq<char>|
                #[trigger] store@.contains_key(k) ==> files1.contains_key(k) && store@[k]
                    == files1[k],
            // evicted files were backing files; others are untouched
            forall|k: Seq<char>|
                !CacheIndex::is_backing_of(ps1, k) ==> (files1.contains_key(k)
                    == store@.contains_key(k) && (files1.contains_key(k) ==> files1[k]
                    == store@[k])),
            forall|k: Seq<char>|
                CacheIndex::is_backing_of(idx.pairs(), k) ==> CacheIndex::is_backing_of(ps1, k),
            idx.pairs().len() <= ps1.len(),
            forall|i: int|
                0 <= i < idx.pairs().len() ==> idx.pairs()[i] == ps1[i],
        decreases n,
    {
        let ghost psb = idx.pairs();
        let ghost filesb = store@;
        let popped = lru_pop_lru(&mut idx.lru);
        match popped {
            None => {
                assert(false);
            },
            Some((k, entry)) => {
                proof {
                    lemma_sum_drop_last(psb, filesb);
                }
                let sz = match store.size_of(entry.uri.as_str()) {
                    Some(sz) => sz,
                    None => {
                        assert(false);
                        0
                    },
                };
                store.remove(entry.uri.as_str());
                idx.used = idx.used.saturating_sub(sz as u64);
                n = n - 1;
                proof {
                    let rest = idx.pairs();
                    assert(rest =~= psb.drop_last());
                    assert(forall|j: int| 0 <= j < rest.len() ==> rest[j].1 != entry.uri@) by {
                        assert(forall|j: int|
                            0 <= j < psb.len() - 1 ==> #[trigger] psb[j].1 != psb[psb.len()
                                - 1].1);
                    }
                    lemma_sum_frame(rest, filesb, store@);
                    assert forall|k: Seq<char>|
                        #[trigger] store@.contains_key(k) implies files1.contains_key(k)
                            && store@[k] == files1[k] by {
                        assert(filesb.contains_key(k) && store@[k] == filesb[k]);
                    }
                    assert forall|k: Seq<char>|
                        CacheIndex::is_backing_of(ps1, k) && !CacheIndex::is_backing_of(rest, k)
                            implies !store@.contains_key(k) by {
                        if CacheIndex::is_backing_of(psb, k) {
                            let i = choose|i: int|
                                0 <= i < psb.len() && #[trigger] psb[i].1 == k;
                            if i < psb.len() - 1 {
                                assert(rest[i].1 == k);
                                assert(false);
                            } else {
                                assert(k == entry.uri@);
                            }
                        } else {
                            assert(!filesb.contains_key(k));
                        }
                    }
                }
            },
        }
    }
    proof {
        let psf = idx.pairs();
        assert forall|m: int|
            1 <= m < psf.len() implies exists|k: int|
            0 <= k < ps0.len() && #[trigger] psf[m] == ps0[k] by {
            assert(psf[m] == ps1[m]);
            let k = choose|k: int| 0 <= k < ps0.len() && #[trigger] ps1[m] == ps0[k];
            assert(psf[m] == ps0[k]);
        }
        assert forall|u: Seq<char>|
            CacheIndex::is_backing_of(psf, u) implies CacheIndex::is_backing_of(ps0, u)
                || crate::store::uri_hexy(u) by {
            if CacheIndex::is_backing_of(psf, u) {
                assert(CacheIndex::is_backing_of(ps1, u));
            }
        }
        assert forall|k: Seq<char>|
            !old(idx).is_backing(k) && !idx.is_backing(k) && !(psf.len() > 0 && psf[0].1 == k)
                implies (old(store)@.contains_key(k) == store@.contains_key(k) && (old(
                store,
            )@.contains_key(k) ==> old(store)@[k] == store@[k])) by {
            if CacheIndex::is_backing_of(ps1, k) {
                // it can only be the fresh front uri, later evicted: it was
                // never in the old store and is gone from the new one
                assert(k == u0);
                assert(!files0.contains_key(k));
                if psf.len() > 0 && psf[0] == ps1[0] {
                    assert(CacheIndex::is_backing_of(psf, ps1[0].1));
                }
                assert(!store@.contains_key(k));
            } else {
                assert(files0.contains_key(k) == files1.contains_key(k) && (files0.contains_key(
                    k,
                ) ==> files0[k] == files1[k]));
            }
        }
        assert forall|k: Seq<char>|
            store@.contains_key(k) && !(psf.len() > 0 && k == psf[0].1) implies files0.contains_key(
            k,
        ) && store@[k] == files0[k] by {
            assert(files1.contains_key(k) && store@[k] == files1[k]);
            if k != u0 {
                assert(files0.contains_key(k) == files1.contains_key(k) && (files0.contains_key(
                    k,
                ) ==> files0[k] == files1[k]));
            } else {
                // the front uri: still present means the front survived
                assert(psf.len() > 0 ==> psf[0] == ps1[0]);
                if psf.len() == 0 {
                    assert(CacheIndex::is_backing_of(ps1, u0));
                    assert(!CacheIndex::is_backing_of(psf, u0));
                    assert(!store@.contains_key(u0));
                } else {
                    assert(k == psf[0].1);
                }
            }
        }
        assert forall|k: Seq<char>|
            old(store)@.contains_key(k) && !old(idx).is_backing(k) implies !idx.is_backing(
            k,
        ) by {
            if CacheIndex::is_backing_of(psf, k) {
                assert(CacheIndex::is_backing_of(ps1, k));
                assert(k == u0 || CacheIndex::is_backing_of(ps0, k));
            }
        }
    }
    true
}

// ---------------------------------------------------------------------------
// Persistence
// ---------------------------------------------------------------------------

/// The encoding of one index record: the location's node name and URI,
/// then the backing URI.
pub open spec fn enc_cache_pair(p: ((Seq<char>, Seq<char>), Seq<char>)) -> Seq<u8> {
    enc_str(p.0.0) + enc_str(p.0.1) + enc_str(p.1)
}

/// The encoding of the index records, most recently used first.
pub open spec fn enc_cache_pairs(ps: Seq<((Seq<char>, Seq<char>), Seq<char>)>) -> Seq<u8>
    decreases ps.len(),
{
    if ps.len() == 0 {
        Seq::empty()
    } else {
        enc_cache_pair(ps[0]) + enc_cache_pairs(ps.drop_first())
    }
}

/// The encoding of the whole index file: the root node (tagged as an
/// option), the used-bytes counter, then the records from most to least
/// recently used.
pub open spec fn enc_cache_index(
    root: Option<Seq<char>>,
    used: u64,
    ps: Seq<((Seq<char>, Seq<char>), Seq<char>)>,
) -> Seq<u8> {
    (match root {
        None => seq![0u8],
        Some(n) => seq![1u8] + enc_str(n),
    }) + enc_uint(used as nat) + enc_cache_pairs(ps)
}

/// Decode index records until the input is exhausted; any malformed
/// suffix fails the whole read.
pub open spec fn dec_cache_pairs(b: Seq<u8>) -> Option<
    Seq<((Seq<char>, Seq<char>), Seq<char>)>,
>
    decreases b.len(),
{
    if b.len() == 0 {
        Some(Seq::empty())
    } else {
        match dec_str(b) {
            None => None,
            Some((node, k1)) => match dec_str(b.skip(k1)) {
                None => None,
                Some((uri, k2)) => match dec_str(b.skip(k1 + k2)) {
                    None => None,
                    Some((cu, k3)) => if 1 <= k1 + k2 + k3 <= b.len() {
                        match dec_cache_pairs(b.skip(k1 + k2 + k3)) {
                            None => None,
                            Some(ps) => Some(seq![((node, uri), cu)] + ps),
                        }
                    } else {
                        None
                    },
                },
            },
        }
    }
}

/// Decoding the records inverts encoding them.
#[verifier::rlimit(100)]
pub proof fn lemma_cache_pairs_round_trip(ps: Seq<((Seq<char>, Seq<char>), Seq<char>)>)
    ensures
        dec_cache_pairs(enc_cache_pairs(ps)) == Some(ps),
    decreases ps.len(),
{
    if ps.len() == 0 {
        assert(enc_cache_pairs(ps).len() == 0);
        assert(ps =~= Seq::<((Seq<char>, Seq<char>), Seq<char>)>::empty());
    } else {
        let p = ps[0];
        let a = enc_str(p.0.0);
        let b = enc_str(p.0.1);
        let c = enc_str(p.1);
        let rest = enc_cache_pairs(ps.drop_first());
        let total = enc_cache_pairs(ps);
        assert(total =~= a + (b + (c + rest)));
        lemma_str_round_trip(p.0.0, b + (c + rest));
        assert(total.skip(a.len() as int) =~= b + (c + rest));
        lemma_str_round_trip(p.0.1, c + rest);
        assert(total.skip(a.len() + b.len() as int) =~= c + rest);
        lemma_str_round_trip(p.1, rest);
        assert(total.skip(a.len() + b.len() + c.len() as int) =~= rest);
        lemma_cache_pairs_round_trip(ps.drop_first());
        assert(total.len() > 0);
        assert(seq![((p.0.0, p.0.1), p.1)] + ps.drop_first() =~= ps);
    }
}

/// Decode the whole index file: root node, counter, records.
pub open spec fn dec_cache_index(b: Seq<u8>) -> Option<
    (Option<Seq<char>>, nat, Seq<((Seq<char>, Seq<char>), Seq<char>)>),
> {
    if b.len() == 0 {
        None
    } else if b[0] == 0 {
        match dec_uint(b.skip(1)) {
            None => None,
            Some((used, k)) => if 1 <= k <= b.len() - 1 {
                match dec_cache_pairs(b.skip(1 + k)) {
                    None => None,
                    Some(ps) => Some((None, used, ps)),
                }
            } else {
                None
            },
        }
    } else if b[0] == 1 {
        match dec_str(b.skip(1)) {
            None => None,
            Some((n, k1)) => match dec_uint(b.skip(1 + k1)) {
                None => None,
                Some((used, k2)) => if 1 <= k2 <= b.len() - 1 - k1 {
                    match dec_cache_pairs(b.skip(1 + k1 + k2)) {
                        None => None,
                        Some(ps) => Some((Some(n), used, ps)),
                    }
                } else {
                    None
                },
            },
        }
    } else {
        None
    }
}

/// Decoding the index file inverts encoding it: the persistence round
/// trip loses nothing, neither the pairs nor their order.
#[verifier::rlimit(100)]
pub proof fn lemma_cache_index_round_trip(
    root: Option<Seq<char>>,
    used: u64,
    ps: Seq<((Seq<char>, Seq<char>), Seq<char>)>,
)
    ensures
        dec_cache_index(enc_cache_index(root, used, ps)) == Some((root, used as nat, ps)),
{
    let e = enc_uint(used as nat);
    let rest = enc_cache_pairs(ps);
    let total = enc_cache_index(root, used, ps);
    lemma_cache_pairs_round_trip(ps);
    match root {
        None => {
            assert(total[0] == 0u8);
            assert(total.skip(1) =~= e + rest);
            lemma_uint_round_trip(used as nat, rest);
            lemma_dec_uint_bounds(e + rest);
            assert(total.skip(1 + e.len() as int) =~= rest);
        },
        Some(n) => {
            let a = enc_str(n);
            assert(total[0] == 1u8);
            assert(total.skip(1) =~= a + (e + rest));
            lemma_str_round_trip(n, e + rest);
            assert(total.skip(1 + a.len() as int) =~= e + rest);
            lemma_uint_round_trip(used as nat, rest);
            lemma_dec_uint_bounds(e + rest);
            assert(total.skip(1 + a.len() + e.len() as int) =~= rest);
        },
    }
}

/// Appending one record to an encoded run appends its encoding.
pub proof fn lemma_enc_pairs_snoc(
    ps: Seq<((Seq<char>, Seq<char>), Seq<char>)>,
    p: ((Seq<char>, Seq<char>), Seq<char>),
)
    ensures
        enc_cache_pairs(ps.push(p)) == enc_cache_pairs(ps) + enc_cache_pair(p),
    decreases ps.len(),
{
    if ps.len() == 0 {
        assert(ps.push(p)[0] == p);
        assert(ps.push(p).drop_first() =~= Seq::<((Seq<char>, Seq<char>), Seq<char>)>::empty());
        assert(enc_cache_pairs(Seq::<((Seq<char>, Seq<char>), Seq<char>)>::empty())
            == Seq::<u8>::empty());
        assert(enc_cache_pairs(ps.push(p)) == enc_cache_pair(p) + Seq::<u8>::empty());
        assert(enc_cache_pairs(ps.push(p)) =~= enc_cache_pairs(ps) + enc_cache_pair(p));
    } else {
        assert(ps.push(p)[0] == ps[0]);
        assert(ps.push(p).drop_first() =~= ps.drop_first().push(p));
        lemma_enc_pairs_snoc(ps.drop_first(), p);
        assert(enc_cache_pairs(ps.push(p)) == enc_cache_pair(ps[0]) + enc_cache_pairs(
            ps.drop_first().push(p),
        ));
        assert(enc_cache_pairs(ps) == enc_cache_pair(ps[0]) + enc_cache_pairs(ps.drop_first()));
        assert(enc_cache_pairs(ps.push(p)) =~= enc_cache_pairs(ps) + enc_cache_pair(p));
    }
}

/// The spec-level view of an optional root node.
pub open spec fn opt_node_view(root: &Option<crate::messages::Node>) -> Option<Seq<char>> {
    match root {
        None => None,
        Some(n) => Some(n@),
    }
}

/// Serialize the index in its current order, root and counter first, for
/// the on-disk `cache` file, rewritten in full on every cache mutation.
pub fn persist_index(idx: &CacheIndex, root: &Option<crate::messages::Node>) -> (out: Vec<u8>)
    ensures
        out@ == enc_cache_index(opt_node_view(root), idx.used, idx.pairs()),
{
    let mut out: Vec<u8> = Vec::new();
    match root {
        None => {
            out.push(0u8);
            assert(out@ =~= seq![0u8]);
        },
        Some(n) => {
            out.push(1u8);
            assert(out@ =~= seq![1u8]);
            encode_str(n.name.as_str(), &mut out);
        },
    }
    let ghost header = out@;
    encode_uint(idx.used, &mut out);
    let pairs = lru_pairs_vec(&idx.lru);
    let n = pairs.len();
    let mut i: usize = 0;
    while i < n
        invariant
            n == pairs@.len(),
            n == idx.pairs().len(),
            forall|j: int|
                0 <= j < n ==> (loc_key(pairs@[j].0@), pairs@[j].1@) == idx.pairs()[j],
            i <= n,
            out@ == header + enc_uint(idx.used as nat) + enc_cache_pairs(
                idx.pairs().take(i as int),
            ),
        decreases n - i,
    {
        let ghost before = out@;
        encode_str(pairs[i].0.node.name.as_str(), &mut out);
        encode_str(pairs[i].0.uri.as_str(), &mut out);
        encode_str(pairs[i].1.uri.as_str(), &mut out);
        proof {
            lemma_enc_pairs_snoc(idx.pairs().take(i as int), idx.pairs()[i as int]);
            assert(idx.pairs().take(i + 1) =~= idx.pairs().take(i as int).push(
                idx.pairs()[i as int],
            ));
            assert(out@ =~= before + enc_cache_pair(idx.pairs()[i as int]));
            assert(out@ =~= header + enc_uint(idx.used as nat) + enc_cache_pairs(
                idx.pairs().take(i + 1),
            ));
        }
        i = i + 1;
    }
    proof {
        assert(idx.pairs().take(n as int) =~= idx.pairs());
        assert(out@ =~= enc_cache_index(opt_node_view(root), idx.used, idx.pairs()));
    }
    out
}

/// Decode index records starting at `pos` until the end of the input.
fn decode_cache_pairs(b: &Vec<u8>, pos: usize) -> (r: Option<Vec<(Location, CacheEntry)>>)
    requires
        pos <= b.len(),
    ensures
        match dec_cache_pairs(b@.skip(pos as int)) {
            Some(ps) => r matches Some(v) && v@.len() == ps.len() && forall|j: int|
                0 <= j < ps.len() ==> (loc_key(#[trigger] v@[j].0@), v@[j].1@) == ps[j],
            None => r is None,
        },
    decreases b.len() - pos,
{
    let ghost input = b@.skip(pos as int);
    if pos == b.len() {
        return Some(Vec::new());
    }
    proof {
        lemma_dec_str_bounds(input);
    }
    let (node, k1) = match decode_str(b, pos) {
        None => {
            return None;
        },
        Some(p) => p,
    };
    assert(b@.skip(pos + k1 as int) =~= input.skip(k1 as int));
    proof {
        lemma_dec_str_bounds(input.skip(k1 as int));
    }
    let (uri, k2) = match decode_str(b, pos + k1) {
        None => {
            return None;
        },
        Some(p) => p,
    };
    assert(b@.skip(pos + k1 + k2 as int) =~= input.skip(k1 + k2 as int));
    proof {
        lemma_dec_str_bounds(input.skip(k1 + k2 as int));
    }
    let (cu, k3) = match decode_str(b, pos + k1 + k2) {
        None => {
            return None;
        },
        Some(p) => p,
    };
    assert(b@.skip(pos + k1 + k2 + k3 as int) =~= input.skip(k1 + k2 + k3 as int));
    match decode_cache_pairs(b, pos + k1 + k2 + k3) {
        None => None,
        Some(mut v) => {
            let loc = Location { node: crate::messages::Node { name: node }, uri };
            let entry = CacheEntry { uri: cu };
            v.insert(0, (loc, entry));
            Some(v)
        },
    }
}

/// Decode a whole index file: the root node, the used-bytes counter and
/// the records, or `None` when the bytes are not a well-formed index.
#[verifier::rlimit(100)]
pub fn decode_cache_index(b: &Vec<u8>) -> (r: Option<
    (Option<crate::messages::Node>, u64, Vec<(Location, CacheEntry)>),
>)
    ensures
        match dec_cache_index(b@) {
            Some((root, used, ps)) => if used <= u64::MAX {
                r matches Some(t) && opt_node_view(&t.0) == root && t.1 == used && t.2@.len()
                    == ps.len() && forall|j: int|
                    0 <= j < ps.len() ==> (loc_key(#[trigger] t.2@[j].0@), t.2@[j].1@) == ps[j]
            } else {
                r is None
            },
            None => r is None,
        },
{
    if b.len() == 0 {
        return None;
    }
    let tag = b[0];
    if tag == 0 {
        assert(b@.skip(1) =~= b@.skip(0).skip(1));
        assert(b@.skip(0) =~= b@);
        proof {
            lemma_dec_uint_bounds(b@.skip(1));
        }
        let (used, k) = match decode_uint(b, 1) {
            None => {
                proof {
                    match dec_uint(b@.skip(1)) {
                        Some((v, k)) => {
                            assert(v > u64::MAX);
                            assert(dec_cache_index(b@) is None || dec_cache_index(
                                b@,
                            )->Some_0.1 > u64::MAX);
                        },
                        None => {},
                    }
                }
                return None;
            },
            Some(p) => p,
        };
        assert(b@.skip(1 + k as int) =~= b@.skip(1).skip(k as int));
        match decode_cache_pairs(b, 1 + k) {
            None => None,
            Some(v) => Some((None, used, v)),
        }
    } else if tag == 1 {
        assert(b@.skip(1) =~= b@.skip(0).skip(1));
        assert(b@.skip(0) =~= b@);
        proof {
            lemma_dec_str_bounds(b@.skip(1));
        }
        let (name, k1) = match decode_str(b, 1) {
            None => {
                return None;
            },
            Some(p) => p,
        };
        assert(b@.skip(1 + k1 as int) =~= b@.skip(1).skip(k1 as int));
        proof {
            lemma_dec_uint_bounds(b@.skip(1 + k1 as int));
        }
        let (used, k2) = match decode_uint(b, 1 + k1) {
            None => {
                proof {
                    match dec_uint(b@.skip(1 + k1 as int)) {
                        Some((v, k)) => {
                            assert(v > u64::MAX);
                        },
                        None => {},
                    }
                }
                return None;
            },
            Some(p) => p,
        };
        assert(b@.skip(1 + k1 + k2 as int) =~= b@.skip(1 + k1 as int).skip(k2 as int));
        match decode_cache_pairs(b, 1 + k1 + k2) {
            None => None,
            Some(v) => Some((Some(crate::messages::Node { name }), used, v)),
        }
    } else {
        None
    }
}

/// Relies on `lru::LruCache::contains`: whether the key is present,
/// without touching the order.
#[verifier::external_body]
pub fn lru_contains(
    c: &lru::LruCache<Location, CacheEntry, RandomState>,
    k: &Location,
) -> (r: bool)
    ensures
        r == (exists|i: int|
            0 <= i < lru_pairs(*c).len() && #[trigger] lru_pairs(*c)[i].0 == loc_key(k@)),
{
    c.contains(k)
}

/// Records that can be restored exactly: distinct location keys, distinct
/// backing URIs, and every backing file present in the store.
pub open spec fn pairs_restorable(
    ps: Seq<((Seq<char>, Seq<char>), Seq<char>)>,
    files: Map<Seq<char>, FileV>,
) -> bool {
    &&& forall|i: int, j: int| 0 <= i < j < ps.len() ==> ps[i].0 != ps[j].0
    &&& forall|i: int, j: int| 0 <= i < j < ps.len() ==> ps[i].1 != ps[j].1
    &&& forall|i: int| 0 <= i < ps.len() ==> files.contains_key(#[trigger] ps[i].1)
}

/// Rebuild the index from the bytes of the on-disk `cache` file: the
/// records are re-inserted and demoted one by one, so that the restored
/// order equals the pre-shutdown order.  A record whose backing file is
/// missing, or which repeats a key or a backing URI, is dropped; on
/// well-formed input nothing is dropped.  Returns the index and the root
/// node the file named, or `None` when the bytes are not a well-formed
/// index file — a torn tail is taken as corruption and restores nothing,
/// deliberately, rather than guessing at a shorter history.
#[verifier::rlimit(100)]
pub fn restore_index(store: &FileStore, bytes: &Vec<u8>, max: u64) -> (r: Option<
    (CacheIndex, Option<crate::messages::Node>),
>)
    requires
        store.wf(),
    ensures
        match dec_cache_index(bytes@) {
            Some((rootv, used, ps)) => if used <= u64::MAX {
                r matches Some(t) && {
                    &&& t.0.wf()
                    &&& t.0.backed(store@)
                    &&& t.0.accounted(store@)
                    &&& t.0.max == max
                    &&& t.0.used == used
                    &&& opt_node_view(&t.1) == rootv
                    &&& forall|m: int|
                        0 <= m < t.0.pairs().len() ==> exists|k: int|
                            0 <= k < ps.len() && #[trigger] t.0.pairs()[m] == ps[k]
                    &&& pairs_restorable(ps, store@) ==> t.0.pairs() == ps
                }
            } else {
                r is None
            },
            None => r is None,
        },
{
    let (root, used, pv) = match decode_cache_index(bytes) {
        None => {
            return None;
        },
        Some(t) => t,
    };
    let ghost ps = dec_cache_index(bytes@)->Some_0.2;
    let mut idx = CacheIndex::empty(max);
    idx.used = used;
    let mut uris: Vec<String> = Vec::new();
    let n = pv.len();
    let mut i: usize = 0;
    while i < n
        invariant
            store.wf(),
            n == pv@.len() == ps.len(),
            forall|j: int| 0 <= j < n ==> (loc_key(#[trigger] pv@[j].0@), pv@[j].1@) == ps[j],
            i <= n,
            idx.wf(),
            idx.backed(store@),
            idx.max == max,
            idx.used == used,
            !idx.overflowed,
            forall|u: Seq<char>|
                CacheIndex::is_backing_of(idx.pairs(), u) == exists|m: int|
                    0 <= m < uris@.len() && #[trigger] uris@[m]@ == u,
            forall|m: int|
                0 <= m < idx.pairs().len() ==> exists|k: int|
                    0 <= k < ps.len() && #[trigger] idx.pairs()[m] == ps[k],
            pairs_restorable(ps, store@) ==> idx.pairs() == ps.take(i as int),
        decreases n - i,
    {
        let ghost cur = idx.pairs();
        let backing_there = store.exists_file(pv[i].1.uri.as_str());
        let key_there = lru_contains(&idx.lru, &pv[i].0);
        let mut uri_there = false;
        let m = uris.len();
        let mut j: usize = 0;
        while j < m
            invariant
                m == uris@.len(),
                j <= m,
                i < n == pv@.len(),
                uri_there == exists|x: int| 0 <= x < j && uris@[x]@ == pv@[i as int].1@,
            decreases m - j,
        {
            if string_eq(&uris[j], &pv[i].1.uri) {
                uri_there = true;
            }
            j = j + 1;
        }
        let below_cap = lru_len(&idx.lru) < usize::MAX;
        if backing_there && !key_there && !uri_there && below_cap {
            let loc = pv[i].0.clone();
            let entry = pv[i].1.clone();
            let ghost key = loc_key(loc@);
            let ghost uri = entry@;
            proof {
                assert(key == loc_key(pv@[i as int].0@));
                assert(uri == pv@[i as int].1@);
                assert(forall|x: int| 0 <= x < cur.len() ==> #[trigger] cur[x].0 != key);
                assert forall|x: int| 0 <= x < cur.len() implies #[trigger] cur[x].1 != uri by {
                    if cur[x].1 == uri {
                        assert(CacheIndex::is_backing_of(cur, uri));
                        assert(false);
                    }
                }
            }
            let put_back = lru_put(&mut idx.lru, loc, entry);
            proof {
                match put_back {
                    Some(w) => {
                        let x = choose|x: int|
                            0 <= x < cur.len() && cur[x] == (key, w@) && idx.pairs() == seq![
                                (key, uri),
                            ] + cur.remove(x);
                        assert(cur[x].0 == key);
                        assert(false);
                    },
                    None => {},
                }
            }
            assert(idx.pairs() =~= seq![(key, uri)] + cur);
            let ghost mid = idx.pairs();
            let demoted = lru_demote(&mut idx.lru, &pv[i].0);
            proof {
                if !demoted {
                    assert(mid[0].0 == key);
                    assert(false);
                }
                let i0 = choose|i0: int|
                    0 <= i0 < mid.len() && mid[i0].0 == key && idx.pairs() == mid.remove(
                        i0,
                    ).push(mid[i0]);
                assert(forall|x: int| 0 < x < mid.len() ==> mid[x].0 == cur[x - 1].0);
                assert(i0 == 0);
                assert(mid.remove(0) =~= cur);
                assert(idx.pairs() =~= cur.push((key, uri)));
            }
            let ghost uris0 = uris@;
            uris.push(pv[i].1.uri.clone());
            proof {
                assert(uris@.drop_last() =~= uris0);
                assert(uris@[uris@.len() - 1]@ == uri);
                let now_pairs = idx.pairs();
                assert(now_pairs == cur.push((key, uri)));
                // well-formedness: the new key and URI are fresh
                assert forall|a: int, b: int|
                    0 <= a < b < now_pairs.len() implies now_pairs[a].0 != now_pairs[b].0
                        && now_pairs[a].1 != now_pairs[b].1 by {
                    if b == now_pairs.len() - 1 {
                        assert(now_pairs[a] == cur[a]);
                        assert(now_pairs[b] == (key, uri));
                    } else {
                        assert(now_pairs[a] == cur[a]);
                        assert(now_pairs[b] == cur[b]);
                    }
                }
                // the tracked URIs still mirror the backing set
                assert forall|u: Seq<char>|
                    CacheIndex::is_backing_of(now_pairs, u) == (exists|m2: int|
                        0 <= m2 < uris@.len() && #[trigger] uris@[m2]@ == u) by {
                    if CacheIndex::is_backing_of(now_pairs, u) {
                        let x = choose|x: int|
                            0 <= x < now_pairs.len() && #[trigger] now_pairs[x].1 == u;
                        if x < cur.len() {
                            assert(CacheIndex::is_backing_of(cur, u));
                            let m2 = choose|m2: int|
                                0 <= m2 < uris0.len() && #[trigger] uris0[m2]@ == u;
                            assert(uris@[m2]@ == u);
                        } else {
                            assert(uris@[uris@.len() - 1]@ == u);
                        }
                    }
                    if exists|m2: int| 0 <= m2 < uris@.len() && #[trigger] uris@[m2]@ == u {
                        let m2 = choose|m2: int|
                            0 <= m2 < uris@.len() && #[trigger] uris@[m2]@ == u;
                        if m2 < uris@.len() - 1 {
                            assert(uris0[m2]@ == u);
                            assert(CacheIndex::is_backing_of(cur, u));
                            let x = choose|x: int|
                                0 <= x < cur.len() && #[trigger] cur[x].1 == u;
                            assert(now_pairs[x].1 == u);
                        } else {
                            assert(now_pairs[now_pairs.len() - 1].1 == u);
                        }
                    }
                }
                assert forall|m: int|
                    0 <= m < idx.pairs().len() implies exists|k: int|
                    0 <= k < ps.len() && #[trigger] idx.pairs()[m] == ps[k] by {
                    if m < cur.len() {
                        assert(idx.pairs()[m] == cur[m]);
                    } else {
                        assert(idx.pairs()[m] == (key, uri));
                        assert((key, uri) == ps[i as int]);
                    }
                }
                if pairs_restorable(ps, store@) {
                    assert(cur == ps.take(i as int));
                    assert((key, uri) == ps[i as int]);
                    assert(idx.pairs() =~= ps.take(i + 1));
                }
            }
        } else {
            proof {
                if pairs_restorable(ps, store@) {
                    // on restorable input no record is ever skipped
                    assert(store@.contains_key(ps[i as int].1));
                    assert(backing_there);
                    if key_there {
                        let x = choose|x: int|
                            0 <= x < idx.pairs().len() && #[trigger] idx.pairs()[x].0 == loc_key(
                                pv@[i as int].0@,
                            );
                        assert(ps.take(i as int)[x].0 == ps[i as int].0);
                        assert(false);
                    }
                    if uri_there {
                        let x = choose|x: int|
                            0 <= x < uris@.len() && #[trigger] uris@[x]@ == pv@[i as int].1@;
                        assert(CacheIndex::is_backing_of(idx.pairs(), pv@[i as int].1@));
                        let y = choose|y: int|
                            0 <= y < idx.pairs().len() && #[trigger] idx.pairs()[y].1
                                == pv@[i as int].1@;
                        assert(ps.take(i as int)[y].1 == ps[i as int].1);
                        assert(false);
                    }
                    if !below_cap {
                        assert(idx.pairs().len() == i);
                        assert(i < n <= usize::MAX);
                        assert(false);
                    }
                }
            }
        }
        i = i + 1;
    }
    proof {
        if pairs_restorable(ps, store@) {
            assert(idx.pairs() =~= ps.take(n as int));
            assert(ps.take(n as int) =~= ps);
        }
    }
    // check the counter against the true sum of backing sizes; on data
    // this daemon wrote the two agree, and any disagreement withdraws the
    // accounting claims
    let pv2 = lru_pairs_vec(&idx.lru);
    let n2 = pv2.len();
    let mut acc: u64 = 0;
    let mut sat = false;
    let mut i2: usize = 0;
    while i2 < n2
        invariant
            store.wf(),
            n2 == pv2@.len() == idx.pairs().len(),
            forall|j: int|
                0 <= j < n2 ==> (loc_key(#[trigger] pv2@[j].0@), pv2@[j].1@) == idx.pairs()[j],
            i2 <= n2,
            idx.backed(store@),
            sat || acc == sum_sizes(idx.pairs().take(i2 as int), store@),
        decreases n2 - i2,
    {
        proof {
            let ghost jj = i2 as int;
            assert((loc_key(pv2@[jj].0@), pv2@[jj].1@) == idx.pairs()[jj]);
            assert(store@.contains_key(idx.pairs()[i2 as int].1));
        }
        let sz = match store.size_of(pv2[i2].1.uri.as_str()) {
            Some(sz) => sz,
            None => {
                assert(false);
                0
            },
        };
        if !sat {
            match acc.checked_add(sz as u64) {
                Some(a) => {
                    proof {
                        lemma_sum_drop_last(idx.pairs().take(i2 + 1), store@);
                        assert(idx.pairs().take(i2 + 1).drop_last() =~= idx.pairs().take(
                            i2 as int,
                        ));
                        assert(idx.pairs().take(i2 + 1).last() == idx.pairs()[i2 as int]);
                    }
                    acc = a;
                },
                None => {
                    sat = true;
                },
            }
        }
        i2 = i2 + 1;
    }
    if sat || acc != used {
        idx.overflowed = true;
    } else {
        assert(idx.pairs().take(n2 as int) =~= idx.pairs());
    }
    Some((idx, root))
}

/// Moving one pair to the front changes neither the backing set, nor the
/// sum of backing sizes, nor any distinctness.
pub proof fn lemma_promote(
    ps: Seq<((Seq<char>, Seq<char>), Seq<char>)>,
    files: Map<Seq<char>, FileV>,
    i: int,
)
    requires
        0 <= i < ps.len(),
    ensures
        sum_sizes(seq![ps[i]] + ps.remove(i), files) == sum_sizes(ps, files),
        forall|u: Seq<char>|
            CacheIndex::is_backing_of(seq![ps[i]] + ps.remove(i), u)
                == CacheIndex::is_backing_of(ps, u),
        forall|m: int|
            0 <= m < ps.len() ==> exists|k: int|
                0 <= k < ps.len() && #[trigger] (seq![ps[i]] + ps.remove(i))[m] == ps[k],
        (forall|a: int, b: int| 0 <= a < b < ps.len() ==> ps[a].0 != ps[b].0) ==> (forall|
            a: int,
            b: int,
        |
            0 <= a < b < ps.len() ==> (seq![ps[i]] + ps.remove(i))[a].0 != (seq![ps[i]]
                + ps.remove(i))[b].0),
        (forall|a: int, b: int| 0 <= a < b < ps.len() ==> ps[a].1 != ps[b].1) ==> (forall|
            a: int,
            b: int,
        |
            0 <= a < b < ps.len() ==> (seq![ps[i]] + ps.remove(i))[a].1 != (seq![ps[i]]
                + ps.remove(i))[b].1),
{
    let pr = seq![ps[i]] + ps.remove(i);
    assert(pr.len() == ps.len());
    // where each new position came from
    assert forall|m: int| 0 <= m < ps.len() implies exists|k: int|
        0 <= k < ps.len() && #[trigger] pr[m] == ps[k] && (m == 0 ==> k == i) && (0 < m <= i
            ==> k == m - 1) && (i < m ==> k == m) by {
        if m == 0 {
            assert(pr[0] == ps[i]);
        } else if m <= i {
            assert(pr[m] == ps.remove(i)[m - 1]);
            assert(ps.remove(i)[m - 1] == ps[m - 1]);
        } else {
            assert(pr[m] == ps.remove(i)[m - 1]);
            assert(ps.remove(i)[m - 1] == ps[m]);
        }
    }
    lemma_sum_remove(ps, files, i);
    assert(pr.drop_first() =~= ps.remove(i));
    assert forall|u: Seq<char>|
        CacheIndex::is_backing_of(pr, u) == CacheIndex::is_backing_of(ps, u) by {
        if CacheIndex::is_backing_of(pr, u) {
            let m = choose|m: int| 0 <= m < pr.len() && #[trigger] pr[m].1 == u;
            let k = choose|k: int|
                0 <= k < ps.len() && #[trigger] pr[m] == ps[k] && (m == 0 ==> k == i) && (0 < m
                    <= i ==> k == m - 1) && (i < m ==> k == m);
            assert(ps[k].1 == u);
        }
        if CacheIndex::is_backing_of(ps, u) {
            let k = choose|k: int| 0 <= k < ps.len() && #[trigger] ps[k].1 == u;
            if k == i {
                assert(pr[0].1 == u);
            } else if k < i {
                assert(pr[k + 1] == ps.remove(i)[k]);
                assert(ps.remove(i)[k] == ps[k]);
                assert(pr[k + 1].1 == u);
            } else {
                assert(pr[k] == ps.remove(i)[k - 1]);
                assert(ps.remove(i)[k - 1] == ps[k]);
                assert(pr[k].1 == u);
            }
        }
    }
}

} // verus!
