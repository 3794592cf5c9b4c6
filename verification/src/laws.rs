//! The laws the library keeps.
//!
//! Each lemma here states one property of the system over the same spec
//! functions that the executable functions' contracts use, so that what a
//! caller can conclude about a sequence of operations is written down in
//! one place and proved.

use vstd::prelude::*;

use crate::messages::EntryV;
use crate::store::FileV;
use crate::codec::{enc_entry, find_in_dir, wf_dir, dir_seq, lemma_dir_append};
use crate::cache::{CacheIndex, sum_sizes};
use crate::cluster::{
    local_resolve, parent_of, base_of, has_slash, ResolveStop, lemma_last_slash_unique,
};

verus! {

/// A placed name is found: appending an entry for a name that was absent
/// leaves the directory answering a search for that name with exactly
/// that entry — so `find` after a successful `place` returns the location
/// that `place` handed out.
pub proof fn lemma_place_then_find(b: Seq<u8>, e: EntryV)
    requires
        wf_dir(b),
        find_in_dir(b, e.name) is None,
    ensures
        wf_dir(b + enc_entry(e)),
        find_in_dir(b + enc_entry(e), e.name) == Some(e),
{
    lemma_dir_append(b, e);
}

/// A name can be placed only once: after an entry under a name went in,
/// the directory's search keeps answering with that first entry, so the
/// duplicate-rejecting append refuses any second placement under the name
/// with exactly the first entry — its location is the first placement's.
pub proof fn lemma_second_place_rejected(b: Seq<u8>, e: EntryV, n: Seq<char>)
    requires
        wf_dir(b),
        find_in_dir(b, n) is None,
        e.name == n,
    ensures
        find_in_dir(b + enc_entry(e), n) == Some(e),
        find_in_dir(b + enc_entry(e), n)->Some_0.loc == e.loc,
{
    lemma_dir_append(b, e);
}

/// Appending never reorders: the scan of the grown directory is the old
/// scan with the new entry at the end, so insertion-order precedence is
/// kept.
pub proof fn lemma_append_keeps_order(b: Seq<u8>, e: EntryV)
    requires
        wf_dir(b),
    ensures
        dir_seq(b + enc_entry(e)) == dir_seq(b).push(e),
{
    lemma_dir_append(b, e);
}

/// What was written is what is read: a store that took a write answers
/// the next read of the same URI with exactly the written bytes.
pub proof fn lemma_write_then_read(
    files: Map<Seq<char>, FileV>,
    u: Seq<char>,
    b: Seq<u8>,
    t: u64,
)
    ensures
        files.insert(u, FileV { bytes: b, mtime: t })[u].bytes == b,
{
}

/// Eviction keeps the cache within its capacity: while the counter is
/// the true sum of backing-file sizes and sits within the configured
/// maximum, the backing files together take no more than the maximum.
pub proof fn lemma_eviction_within_capacity(
    idx: CacheIndex,
    files: Map<Seq<char>, FileV>,
)
    requires
        idx.accounted(files),
        !idx.overflowed,
        idx.used <= idx.max,
    ensures
        sum_sizes(idx.pairs(), files) <= idx.max,
{
}

/// Resolution steps through directories one segment at a time: when a
/// path resolves on one daemon's files to a directory entry owned there
/// whose file is present, extending the path by a separator and a
/// slash-free name resolves to exactly what that directory file holds
/// under the name — present or absent.
pub proof fn lemma_resolve_step(
    st: Map<Seq<char>, FileV>,
    local: Seq<char>,
    path: Seq<char>,
    name: Seq<char>,
)
    requires
        !has_slash(name),
        local_resolve(st, local, path) matches Ok(pe) && pe.is_dir && pe.loc.node == local
            && st.contains_key(pe.loc.uri),
    ensures
        local_resolve(st, local, path + seq!['/'] + name) == (match local_resolve(
            st,
            local,
            path,
        ) {
            Ok(pe) => match find_in_dir(st[pe.loc.uri].bytes, name) {
                Some(e) => Ok(e),
                None => Err(ResolveStop::Missing),
            },
            Err(stop) => Err(stop),
        }),
{
    let joined = path + seq!['/'] + name;
    assert(joined[path.len() as int] == '/');
    assert(forall|m: int|
        path.len() < m < joined.len() ==> joined[m] == name[m - path.len() - 1]);
    assert forall|m: int| path.len() < m < joined.len() implies joined[m] != '/' by {
        if joined[m] == '/' {
            assert(name[m - path.len() - 1] == '/');
            assert(has_slash(name));
        }
    }
    lemma_last_slash_unique(joined, path.len() as int);
    assert(has_slash(joined));
    assert(parent_of(joined) =~= path);
    assert(base_of(joined) =~= name);
}

/// Every cache entry is backed: under the cache soundness invariant that
/// every operation of the library preserves, each entry of the index has
/// its backing file present in the store.
pub proof fn lemma_cache_entries_backed(idx: CacheIndex, files: Map<Seq<char>, FileV>)
    requires
        idx.backed(files),
    ensures
        forall|m: int|
            0 <= m < idx.pairs().len() ==> files.contains_key(#[trigger] idx.pairs()[m].1),
{
}

} // verus!
