//! One daemon's state and the requests it serves.
//!
//! A daemon owns a working directory of files (`FileStore`), an LRU cache
//! of remote contents (`CacheIndex`), its own identity, what it knows of
//! the root, and the known-hosts table the root hands out.  Everything a
//! peer can ask of it — allocate a file, read with revalidation, write,
//! remove, append a directory entry, look up an address — is answered
//! here as one verified state transition.  Sockets, clocks and random
//! numbers stay outside: callers pass in timestamps and random values and
//! carry the messages.

use vstd::prelude::*;
use vstd::string::StringExecFns;

use crate::messages::{
    Node, Location, DirectoryEntry, CacheEntry, VPFSError, Hello, HelloResponse, DaemonRequest,
    DaemonResponse,
};
use crate::store::{FileStore, FileV};
use crate::cache::{CacheIndex, loc_key};
use crate::codec::{
    find_in_dir, dir_seq, wf_dir, enc_entry, search_dir_bytes, encode_entry, string_eq,
    lemma_dir_append,
};

verus! {

broadcast use vstd::string::group_string_axioms;

/// Relies on `rand::random`: a 64-bit value from the thread-local
/// generator, used to name fresh files.  Nothing is promised of it.
#[verifier::external_body]
pub fn random_u64() -> u64 {
    rand::random()
}

/// The URI of the root directory file on the root node.
pub fn root_uri() -> (r: String)
    ensures
        r@ == root_uri_spec(),
{
    proof {
        reveal_strlit("root");
    }
    String::from_str("root")
}

/// The view of the literal root URI.
pub open spec fn root_uri_spec() -> Seq<char> {
    "root"@
}

/// Copy a known-hosts table.
pub fn copy_hosts(hosts: &Vec<(Node, String)>) -> (r: Vec<(Node, String)>)
    ensures
        hosts_view(r@) == hosts_view(hosts@),
{
    let mut r: Vec<(Node, String)> = Vec::new();
    let n = hosts.len();
    let mut i: usize = 0;
    while i < n
        invariant
            n == hosts@.len(),
            i <= n,
            r@.len() == i,
            forall|j: int| 0 <= j < i ==> #[trigger] hosts_view(r@)[j] == hosts_view(hosts@)[j],
        decreases n - i,
    {
        let ghost r0 = r@;
        r.push((hosts[i].0.clone(), hosts[i].1.clone()));
        proof {
            assert(forall|j: int| 0 <= j < i ==> r@[j] == r0[j]);
            lemma_hosts_view_prefix(r@, r0, i as int);
            assert(hosts_view(r@)[i as int] == hosts_view(hosts@)[i as int]);
        }
        i = i + 1;
    }
    proof {
        assert(hosts_view(r@) =~= hosts_view(hosts@));
    }
    r
}

/// The mathematical view of a host table: (node name, address) pairs.
pub open spec fn hosts_view(hosts: Seq<(Node, String)>) -> Seq<(Seq<char>, Seq<char>)> {
    Seq::new(hosts.len(), |i: int| (hosts[i].0@, hosts[i].1@))
}

/// Equal prefixes have equal views.
pub proof fn lemma_hosts_view_prefix(a: Seq<(Node, String)>, b: Seq<(Node, String)>, n: int)
    requires
        0 <= n <= a.len(),
        n <= b.len(),
        forall|j: int| 0 <= j < n ==> a[j] == b[j],
    ensures
        forall|j: int| 0 <= j < n ==> hosts_view(a)[j] == hosts_view(b)[j],
{
    assert forall|j: int| 0 <= j < n implies hosts_view(a)[j] == hosts_view(b)[j] by {
        assert(hosts_view(a)[j] == (a[j].0@, a[j].1@));
        assert(hosts_view(b)[j] == (b[j].0@, b[j].1@));
    }
}

/// The known-hosts table holds this node under this address.
pub open spec fn hosts_entry(
    kh: Option<Vec<(Node, String)>>,
    n: Seq<char>,
    a: Seq<char>,
) -> bool {
    match kh {
        Some(hosts) => exists|i: int|
            0 <= i < hosts_view(hosts@).len() && #[trigger] hosts_view(hosts@)[i] == (n, a),
        None => false,
    }
}

/// The known-hosts table knows nothing of this node.
pub open spec fn hosts_no_entry(kh: Option<Vec<(Node, String)>>, n: Seq<char>) -> bool {
    match kh {
        Some(hosts) => forall|i: int|
            0 <= i < hosts_view(hosts@).len() ==> (#[trigger] hosts_view(hosts@)[i]).0 != n,
        None => true,
    }
}

/// Node names in a host table are pairwise distinct.
pub open spec fn hosts_wf(hosts: Seq<(Node, String)>) -> bool {
    forall|i: int, j: int|
        0 <= i < j < hosts_view(hosts).len() ==> (#[trigger] hosts_view(hosts)[i]).0 != (
        #[trigger] hosts_view(hosts)[j]).0
}

/// In a well-formed table one node name carries one address.
pub proof fn lemma_hosts_entry_unique(
    kh: Option<Vec<(Node, String)>>,
    n: Seq<char>,
    a: Seq<char>,
    b: Seq<char>,
)
    requires
        match kh {
            Some(h) => hosts_wf(h@),
            None => true,
        },
        hosts_entry(kh, n, a),
        hosts_entry(kh, n, b),
    ensures
        a == b,
{
    match kh {
        Some(h) => {
            let x = choose|x: int|
                0 <= x < hosts_view(h@).len() && #[trigger] hosts_view(h@)[x] == (n, a);
            let y = choose|y: int|
                0 <= y < hosts_view(h@).len() && #[trigger] hosts_view(h@)[y] == (n, b);
            if x != y {
                assert(hosts_view(h@)[x].0 == hosts_view(h@)[y].0);
                assert(false);
            }
        },
        None => {
            assert(false);
        },
    }
}

/// One daemon of the cluster.
pub struct Daemon {
    /// This daemon's identity, fixed at startup.
    pub local: Node,
    /// The root's identity; a joiner learns it from the root's greeting.
    pub root: Option<Node>,
    /// The address other daemons dial to reach this one.
    pub listening_addr: String,
    /// The daemon's working directory.
    pub store: FileStore,
    /// The LRU cache of remote file contents.
    pub cache: CacheIndex,
    /// Node name to address, handed out by the root; `None` until known.
    pub known_hosts: Option<Vec<(Node, String)>>,
    /// Peers this daemon holds an established stream to.
    pub connections: Vec<Node>,
}

impl Daemon {
    /// Structural well-formedness: the store and cache indexes are sound
    /// and the known-hosts table has pairwise distinct node names.
    pub open spec fn wf(&self) -> bool {
        &&& self.store.wf()
        &&& self.cache.wf()
        &&& match self.known_hosts {
            Some(hosts) => hosts_wf(hosts@),
            None => true,
        }
    }

    /// Every cache entry has its backing file, and the byte counter is
    /// exactly the true usage (unless it once saturated).
    pub open spec fn cache_ok(&self) -> bool {
        &&& self.cache.backed(self.store@)
        &&& self.cache.accounted(self.store@)
    }

    /// A sound cache whose backing files all carry allocated (hex) names,
    /// so they can never shadow the `root` directory or the `cache` file.
    pub open spec fn cache_clean(&self) -> bool {
        &&& self.cache_ok()
        &&& forall|i: int|
            0 <= i < self.cache.pairs().len() ==> crate::store::uri_hexy(
                #[trigger] self.cache.pairs()[i].1,
            )
    }

    /// A daemon as it starts: empty store, empty cache of the given
    /// capacity; the root field is set when it is the root itself.
    pub fn new(local: Node, root: Option<Node>, listening_addr: String, cache_size: u64) -> (r:
        Daemon)
        ensures
            r.wf(),
            r.cache_ok(),
            r.cache_clean(),
            r.local == local,
            r.root == root,
            r.listening_addr == listening_addr,
            r.store@ == Map::<Seq<char>, FileV>::empty(),
            r.cache.pairs().len() == 0,
            r.cache.used == 0,
            r.cache.max == cache_size,
            !r.cache.overflowed,
            r.known_hosts is None,
            r.connections@.len() == 0,
    {
        Daemon {
            local,
            root,
            listening_addr,
            store: FileStore::new(),
            cache: CacheIndex::empty(cache_size),
            known_hosts: None,
            connections: Vec::new(),
        }
    }

    /// Read a whole local file, or learn that it does not exist.
    pub fn read_local(&self, uri: &str) -> (r: Option<Vec<u8>>)
        requires
            self.wf(),
        ensures
            match r {
                Some(b) => self.store@.contains_key(uri@) && b@ == self.store@[uri@].bytes,
                None => !self.store@.contains_key(uri@),
            },
    {
        self.store.read(uri)
    }

    /// Overwrite a pre-existing local file; a write to an absent URI
    /// fails with `DoesNotExist` (placement must precede writing).
    pub fn write_local(&mut self, uri: &str, data: Vec<u8>, now: u64) -> (r: Result<
        usize,
        VPFSError,
    >)
        requires
            old(self).wf(),
        ensures
            final(self).wf(),
            final(self).local == old(self).local,
            final(self).root == old(self).root,
            final(self).listening_addr == old(self).listening_addr,
            final(self).known_hosts == old(self).known_hosts,
            final(self).connections == old(self).connections,
            final(self).cache == old(self).cache,
            match r {
                Ok(n) => old(self).store@.contains_key(uri@) && n == data@.len() && final(self).store@ == old(self).store@.insert(uri@, FileV { bytes: data@, mtime: now }),
                Err(e) => e is DoesNotExist && !old(self).store@.contains_key(uri@) && final(self).store@ == old(self).store@,
            },
            old(self).cache.backed(old(self).store@) ==> final(self).cache.backed(
                final(self).store@,
            ),
            old(self).cache_ok() && !old(self).cache.is_backing(uri@) ==> final(self).cache_ok(),
    {
        let ghost ps = self.cache.pairs();
        let n = data.len();
        if self.store.write(uri, data, now) {
            proof {
                if old(self).cache_ok() && !old(self).cache.is_backing(uri@) {
                    crate::cache::lemma_sum_frame(ps, old(self).store@, self.store@);
                }
            }
            Ok(n)
        } else {
            Err(VPFSError::DoesNotExist)
        }
    }

    /// Remove a local file (the internal cleanup hook behind `Remove`).
    pub fn remove_local(&mut self, uri: &str) -> (r: Result<(), VPFSError>)
        requires
            old(self).wf(),
        ensures
            final(self).wf(),
            final(self).local == old(self).local,
            final(self).root == old(self).root,
            final(self).listening_addr == old(self).listening_addr,
            final(self).known_hosts == old(self).known_hosts,
            final(self).connections == old(self).connections,
            final(self).cache == old(self).cache,
            final(self).store@ == old(self).store@.remove(uri@),
            match r {
                Ok(u) => old(self).store@.contains_key(uri@),
                Err(e) => e is DoesNotExist && !old(self).store@.contains_key(uri@),
            },
            old(self).cache.backed(old(self).store@) && !old(self).cache.is_backing(uri@) ==> final(self).cache.backed(final(self).store@),
            old(self).cache.accounted(old(self).store@) && !old(self).cache.is_backing(uri@)
                ==> final(self).cache.accounted(final(self).store@),
    {
        let ghost ps = self.cache.pairs();
        let r = if self.store.remove(uri) {
            Ok(())
        } else {
            Err(VPFSError::DoesNotExist)
        };
        proof {
            if !old(self).cache.is_backing(uri@) {
                assert(forall|i: int| 0 <= i < ps.len() ==> #[trigger] ps[i].1 != uri@);
                if old(self).cache.backed(old(self).store@) {
                    assert(forall|i: int|
                        0 <= i < ps.len() ==> self.store@.contains_key(#[trigger] ps[i].1));
                }
                if old(self).cache.accounted(old(self).store@) {
                    crate::cache::lemma_sum_frame(ps, old(self).store@, self.store@);
                }
            }
        }
        r
    }

    /// Scan a local directory file for the first entry with the name.
    pub fn search_directory(&self, name: &str, dir_uri: &str) -> (r: Result<
        DirectoryEntry,
        VPFSError,
    >)
        requires
            self.wf(),
        ensures
            match r {
                Ok(e) => self.store@.contains_key(dir_uri@) && find_in_dir(
                    self.store@[dir_uri@].bytes,
                    name@,
                ) == Some(e@) && e@.name == name@,
                Err(err) => err is DoesNotExist && (!self.store@.contains_key(dir_uri@)
                    || find_in_dir(self.store@[dir_uri@].bytes, name@) is None),
            },
    {
        match self.store.read(dir_uri) {
            None => Err(VPFSError::DoesNotExist),
            Some(bytes) => match search_dir_bytes(&bytes, name) {
                Some(e) => Ok(e),
                None => Err(VPFSError::DoesNotExist),
            },
        }
    }

    /// Append an entry to a local directory file, rejecting a duplicate
    /// name and returning the entry that already carries it.  The scan
    /// and the append are one atomic step of the daemon.
    pub fn append_dir_entry(&mut self, dir_uri: &str, entry: &DirectoryEntry, now: u64) -> (r:
        Result<(), VPFSError>)
        requires
            old(self).wf(),
        ensures
            final(self).wf(),
            final(self).local == old(self).local,
            final(self).root == old(self).root,
            final(self).listening_addr == old(self).listening_addr,
            final(self).known_hosts == old(self).known_hosts,
            final(self).connections == old(self).connections,
            final(self).cache == old(self).cache,
            match r {
                Ok(u) => {
                    &&& old(self).store@.contains_key(dir_uri@)
                    &&& find_in_dir(old(self).store@[dir_uri@].bytes, entry@.name) is None
                    &&& final(self).store@ == old(self).store@.insert(
                        dir_uri@,
                        FileV {
                            bytes: old(self).store@[dir_uri@].bytes + enc_entry(entry@),
                            mtime: now,
                        },
                    )
                },
                Err(e) => match e {
                    VPFSError::AlreadyExists(existing) => {
                        &&& old(self).store@.contains_key(dir_uri@)
                        &&& find_in_dir(old(self).store@[dir_uri@].bytes, entry@.name) == Some(
                            existing@,
                        )
                        &&& final(self).store@ == old(self).store@
                    },
                    VPFSError::DoesNotExist => !old(self).store@.contains_key(dir_uri@) && final(self).store@ == old(self).store@,
                    _ => false,
                },
            },
            old(self).cache.backed(old(self).store@) ==> final(self).cache.backed(
                final(self).store@,
            ),
            old(self).cache_ok() && !old(self).cache.is_backing(dir_uri@) ==> final(self).cache_ok(),
    {
        let ghost ps = self.cache.pairs();
        let bytes = match self.store.read(dir_uri) {
            None => {
                return Err(VPFSError::DoesNotExist);
            },
            Some(b) => b,
        };
        match search_dir_bytes(&bytes, entry.name.as_str()) {
            Some(existing) => Err(VPFSError::AlreadyExists(existing)),
            None => {
                let mut new_bytes = bytes;
                encode_entry(entry, &mut new_bytes);
                let wrote = self.store.write(dir_uri, new_bytes, now);
                assert(wrote);
                proof {
                    if old(self).cache_ok() && !old(self).cache.is_backing(dir_uri@) {
                        crate::cache::lemma_sum_frame(ps, old(self).store@, self.store@);
                    }
                }
                Ok(())
            },
        }
    }

    /// Look an address up in the known-hosts table.
    pub fn address_for(&self, node: &Node) -> (r: Option<String>)
        requires
            self.wf(),
        ensures
            match r {
                Some(a) => hosts_entry(self.known_hosts, node@, a@),
                None => hosts_no_entry(self.known_hosts, node@),
            },
    {
        match &self.known_hosts {
            None => None,
            Some(hosts) => {
                let n = hosts.len();
                let mut i: usize = 0;
                while i < n
                    invariant
                        self.known_hosts matches Some(h) && h == *hosts,
                        n == hosts@.len(),
                        i <= n,
                        forall|j: int|
                            0 <= j < i ==> (#[trigger] hosts_view(hosts@)[j]).0 != node@,
                    decreases n - i,
                {
                    if string_eq(&hosts[i].0.name, &node.name) {
                        let a = hosts[i].1.clone();
                        proof {
                            assert(self.known_hosts->Some_0 == *hosts);
                            assert(hosts_view((self.known_hosts->Some_0)@)[i as int] == (
                                node@,
                                a@,
                            ));
                            assert(hosts_entry(self.known_hosts, node@, a@));
                        }
                        return Some(a);
                    }
                    proof {
                        assert((hosts_view(hosts@)[i as int]).0 != node@);
                    }
                    i = i + 1;
                }
                None
            },
        }
    }

    /// Record a host's address, replacing any entry under the same name
    /// (the root does this on each joiner's greeting).
    #[verifier::spinoff_prover]
    #[verifier::rlimit(100)]
    pub fn upsert_host(&mut self, node: Node, addr: String)
        requires
            old(self).wf(),
            old(self).known_hosts is Some,
        ensures
            final(self).wf(),
            hosts_entry(final(self).known_hosts, node@, addr@),
            final(self).store@ == old(self).store@,
            final(self).cache == old(self).cache,
            final(self).local == old(self).local,
            final(self).root == old(self).root,
            final(self).listening_addr == old(self).listening_addr,
            final(self).connections == old(self).connections,
            old(self).cache_ok() ==> final(self).cache_ok(),
    {
        let ghost nv = node@;
        let ghost av = addr@;
        let hosts = match &self.known_hosts {
            Some(hosts) => hosts,
            None => {
                assert(false);
                return ;
            },
        };
        let ghost hv = hosts_view(hosts@);
        let n = hosts.len();
        let mut out: Vec<(Node, String)> = Vec::new();
        let mut replaced = false;
        let mut i: usize = 0;
        while i < n
            invariant
                nv == node@,
                av == addr@,
                n == hosts@.len(),
                hv == hosts_view(hosts@),
                hosts_wf(hosts@),
                i <= n,
                out@.len() == i,
                forall|j: int| 0 <= j < i ==> (#[trigger] hosts_view(out@)[j]).0 == hv[j].0,
                replaced == exists|j: int| 0 <= j < i && (#[trigger] hv[j]).0 == nv,
                replaced ==> exists|j: int|
                    0 <= j < i && #[trigger] hosts_view(out@)[j] == (nv, av),
            decreases n - i,
        {
            let ghost out0 = out@;
            let same = string_eq(&hosts[i].0.name, &node.name);
            if same {
                out.push((node.clone(), addr.clone()));
                replaced = true;
            } else {
                out.push((hosts[i].0.clone(), hosts[i].1.clone()));
            }
            proof {
                assert(forall|j: int| 0 <= j < i ==> out@[j] == out0[j]);
                lemma_hosts_view_prefix(out@, out0, i as int);
                if same {
                    assert(hosts_view(out@)[i as int] == (nv, av));
                    assert((hv[i as int]).0 == nv);
                } else {
                    assert((hv[i as int]).0 != nv);
                    assert(hosts_view(out@)[i as int].0 == hv[i as int].0);
                }
            }
            i = i + 1;
        }
        if !replaced {
            let ghost out0 = out@;
            out.push((node, addr));
            proof {
                assert(forall|j: int| 0 <= j < n ==> out@[j] == out0[j]);
                lemma_hosts_view_prefix(out@, out0, n as int);
                assert(hosts_view(out@)[n as int] == (nv, av));
                assert(forall|j: int|
                    0 <= j < n ==> (#[trigger] hosts_view(out@)[j]).0 == hv[j].0);
            }
        }
        let ghost outv = out@;
        proof {
            assert(exists|j: int|
                0 <= j < hosts_view(outv).len() && #[trigger] hosts_view(outv)[j] == (nv, av));
            assert forall|a: int, b: int|
                0 <= a < b < hosts_view(outv).len() implies (#[trigger] hosts_view(outv)[a]).0
                    != (#[trigger] hosts_view(outv)[b]).0 by {
                if b < n as int {
                    assert(hosts_view(outv)[a].0 == hv[a].0 && hosts_view(outv)[b].0 == hv[b].0);
                } else {
                    assert(hosts_view(outv)[a].0 == hv[a].0);
                    assert(hosts_view(outv)[b].0 == nv);
                    assert(forall|j: int| 0 <= j < n ==> (#[trigger] hv[j]).0 != nv);
                }
            }
        }
        self.known_hosts = Some(out);
    }
}

impl Daemon {
    /// The URI of the on-disk cache index file.
    pub open spec fn cache_file_spec() -> Seq<char> {
        "cache"@
    }

    /// Serialize the cache index and write it to the `cache` file,
    /// rewritten in full, as every cache mutation does.
    pub fn persist_cache(&mut self, now: u64)
        requires
            old(self).wf(),
        ensures
            final(self).wf(),
            final(self).local == old(self).local,
            final(self).root == old(self).root,
            final(self).listening_addr == old(self).listening_addr,
            final(self).connections == old(self).connections,
            final(self).cache == old(self).cache,
            final(self).known_hosts == old(self).known_hosts,
            final(self).store@ == old(self).store@.insert(
                Daemon::cache_file_spec(),
                FileV {
                    bytes: crate::cache::enc_cache_index(
                        crate::cache::opt_node_view(&old(self).root),
                        old(self).cache.used,
                        old(self).cache.pairs(),
                    ),
                    mtime: now,
                },
            ),
            old(self).cache.backed(old(self).store@) ==> final(self).cache.backed(
                final(self).store@,
            ),
            old(self).cache_ok() && !old(self).cache.is_backing(Daemon::cache_file_spec())
                ==> final(self).cache_ok(),
    {
        let ghost ps = self.cache.pairs();
        let bytes = crate::cache::persist_index(&self.cache, &self.root);
        let name = cache_file_uri();
        if !self.store.exists_file(name.as_str()) {
            let created = self.store.create(name.as_str(), now);
        }
        let wrote = self.store.write(name.as_str(), bytes, now);
        assert(wrote);
        proof {
            assert(self.store@ =~= old(self).store@.insert(
                Daemon::cache_file_spec(),
                self.store@[Daemon::cache_file_spec()],
            ));
            if old(self).cache_ok() && !old(self).cache.is_backing(Daemon::cache_file_spec()) {
                crate::cache::lemma_sum_frame(ps, old(self).store@, self.store@);
            }
        }
    }

    /// Read the `cache` file and rebuild the index and the root identity
    /// from it, as a daemon does at startup; without the file, or with a
    /// malformed one — a torn tail counts as malformed, deliberately —
    /// nothing changes.
    pub fn restore_cache(&mut self, max: u64) -> (restored: bool)
        requires
            old(self).wf(),
        ensures
            final(self).wf(),
            final(self).local == old(self).local,
            final(self).listening_addr == old(self).listening_addr,
            final(self).connections == old(self).connections,
            final(self).store@ == old(self).store@,
            final(self).known_hosts == old(self).known_hosts,
            // records with allocated (hex) backing names restore a clean
            // cache, so reads can go on after a restart
            restored && (forall|m: int|
                0 <= m < final(self).cache.pairs().len() ==> crate::store::uri_hexy(
                    (#[trigger] final(self).cache.pairs()[m]).1,
                )) ==> final(self).cache_clean(),
            restored ==> final(self).cache.backed(final(self).store@) && final(self).cache.accounted(final(self).store@) && final(self).cache.max == max,
            !restored ==> final(self).cache == old(self).cache && final(self).root == old(self).root,
            // a well-formed index over present backing files comes back
            // exactly: same pairs, same order, same counter, same root
            match old(self).store@.contains_key(Daemon::cache_file_spec()) {
                true => match crate::cache::dec_cache_index(
                    old(self).store@[Daemon::cache_file_spec()].bytes,
                ) {
                    Some((rootv, used, ps)) => used <= u64::MAX ==> restored && final(self).cache.used == used && crate::cache::opt_node_view(&final(self).root) == rootv
                        && (crate::cache::pairs_restorable(ps, old(self).store@) ==> final(self).cache.pairs() == ps),
                    None => !restored,
                },
                false => !restored,
            },
    {
        let name = cache_file_uri();
        let bytes = match self.store.read(name.as_str()) {
            None => {
                return false;
            },
            Some(b) => b,
        };
        match crate::cache::restore_index(&self.store, &bytes, max) {
            None => false,
            Some((idx, root)) => {
                self.cache = idx;
                self.root = root;
                true
            },
        }
    }

    /// Make the root directory file with its `.` and `..` entries, both
    /// pointing at the root itself, as the root daemon does at startup;
    /// an existing root directory file is kept as it is.
    #[verifier::rlimit(100)]
    #[verifier::spinoff_prover]
    pub fn init_root(&mut self, now: u64)
        requires
            old(self).wf(),
            old(self).root is Some,
        ensures
            final(self).wf(),
            final(self).local == old(self).local,
            final(self).root == old(self).root,
            final(self).listening_addr == old(self).listening_addr,
            final(self).connections == old(self).connections,
            final(self).cache == old(self).cache,
            final(self).cache.pairs() == old(self).cache.pairs(),
            final(self).known_hosts == old(self).known_hosts,
            final(self).store@.contains_key(root_uri_spec()),
            old(self).store@.contains_key(root_uri_spec()) ==> final(self).store@ == old(self).store@,
            !old(self).store@.contains_key(root_uri_spec()) ==> {
                &&& wf_dir(final(self).store@[root_uri_spec()].bytes)
                &&& dir_seq(final(self).store@[root_uri_spec()].bytes) =~= seq![
                    crate::messages::EntryV {
                        loc: crate::messages::LocV {
                            node: old(self).local@,
                            uri: root_uri_spec(),
                        },
                        name: "."@,
                        is_dir: true,
                    },
                    crate::messages::EntryV {
                        loc: crate::messages::LocV {
                            node: old(self).local@,
                            uri: root_uri_spec(),
                        },
                        name: ".."@,
                        is_dir: true,
                    },
                ]
                &&& forall|k: Seq<char>|
                    k != root_uri_spec() ==> old(self).store@.contains_key(k) == final(self).store@.contains_key(k) && (old(self).store@.contains_key(k) ==> old(self).store@[k] == final(self).store@[k])
            },
            old(self).cache.backed(old(self).store@) ==> final(self).cache.backed(
                final(self).store@,
            ),
            old(self).cache_ok() && !old(self).cache.is_backing(root_uri_spec()) ==> final(self).cache_ok(),
            // anything written carries the given timestamp
            forall|u: Seq<char>|
                final(self).store@.contains_key(u) ==> (old(self).store@.contains_key(u) && final(self).store@[u] == old(self).store@[u]) || #[trigger] final(self).store@[u].mtime
                    == now,
    {
        let ghost ps = self.cache.pairs();
        let name = root_uri();
        if self.store.exists_file(name.as_str()) {
            return ;
        }
        let created = self.store.create(name.as_str(), now);
        assert(created);
        proof {
            if old(self).cache_ok() && !old(self).cache.is_backing(root_uri_spec()) {
                assert(forall|i: int| 0 <= i < ps.len() ==> #[trigger] ps[i].1 != root_uri_spec());
                assert forall|i: int|
                    0 <= i < ps.len() implies self.store@.contains_key(#[trigger] ps[i].1) by {
                    assert(old(self).store@.contains_key(ps[i].1));
                }
                crate::cache::lemma_sum_frame(ps, old(self).store@, self.store@);
                assert(self.cache_ok());
            }
        }
        let self_loc = Location { node: self.local.clone(), uri: root_uri() };
        let dot = DirectoryEntry { location: self_loc.clone(), name: dot_name(), is_dir: true };
        let dotdot = DirectoryEntry { location: self_loc, name: dotdot_name(), is_dir: true };
        proof {
            reveal_strlit(".");
            reveal_strlit("..");
            assert("."@.len() == 1);
            assert(".."@.len() == 2);
            assert("."@ != ".."@);
            assert(wf_dir(Seq::<u8>::empty()));
            lemma_dir_append(Seq::<u8>::empty(), dot@);
            assert(Seq::<u8>::empty() + enc_entry(dot@) =~= enc_entry(dot@));
        }
        let r1 = self.append_dir_entry(name.as_str(), &dot, now);
        assert(r1 is Ok);
        proof {
            lemma_dir_append(enc_entry(dot@), dotdot@);
        }
        let r2 = self.append_dir_entry(name.as_str(), &dotdot, now);
        assert(r2 is Ok);
        proof {
            assert(self.store@[root_uri_spec()].bytes =~= enc_entry(dot@) + enc_entry(dotdot@));
            assert(dir_seq(self.store@[root_uri_spec()].bytes).len() == 2);
            if old(self).cache_ok() && !old(self).cache.is_backing(root_uri_spec()) {
                crate::cache::lemma_sum_frame(ps, old(self).store@, self.store@);
            }
        }
    }

    /// Greet a connection: a client learns which node it sits on, a peer
    /// is acknowledged, and a joining daemon is recorded in the
    /// known-hosts table and handed the root identity and the table.
    pub fn handle_hello(&mut self, hello: Hello) -> (r: HelloResponse)
        requires
            old(self).wf(),
            hello matches Hello::RootHello(n, a) ==> old(self).known_hosts is Some && old(self).root is Some,
        ensures
            final(self).wf(),
            final(self).local == old(self).local,
            final(self).root == old(self).root,
            final(self).listening_addr == old(self).listening_addr,
            final(self).connections == old(self).connections,
            final(self).store@ == old(self).store@,
            final(self).cache == old(self).cache,
            final(self).cache.pairs() == old(self).cache.pairs(),
            old(self).cache_ok() ==> final(self).cache_ok(),
            match hello {
                Hello::ClientHello => r matches HelloResponse::ClientHello(n) && n@ == old(self).local@ && final(self).known_hosts == old(self).known_hosts,
                Hello::DaemonHello => r is DaemonHello && final(self).known_hosts == old(self).known_hosts,
                Hello::RootHello(node, addr) => {
                    &&& hosts_entry(final(self).known_hosts, node@, addr@)
                    &&& r matches HelloResponse::RootHello(rn, hosts) && rn@ == old(self).root->Some_0@ && hosts_view(hosts@) == hosts_view(
                        final(self).known_hosts->Some_0@,
                    )
                },
            },
    {
        match hello {
            Hello::ClientHello => HelloResponse::ClientHello(self.local.clone()),
            Hello::DaemonHello => HelloResponse::DaemonHello,
            Hello::RootHello(node, addr) => {
                self.upsert_host(node, addr);
                let root_node = match &self.root {
                    Some(n) => n.clone(),
                    None => {
                        assert(false);
                        Node { name: String::new() }
                    },
                };
                let hosts = match &self.known_hosts {
                    Some(hosts) => copy_hosts(hosts),
                    None => {
                        assert(false);
                        Vec::new()
                    },
                };
                HelloResponse::RootHello(root_node, hosts)
            },
        }
    }

    /// Take over what the root's greeting carried: who the root is and
    /// the known-hosts table, with the root's own address added.
    pub fn apply_root_hello(&mut self, root_node: Node, hosts: Vec<(Node, String)>, root_addr:
        String)
        requires
            old(self).wf(),
            hosts_wf(hosts@),
        ensures
            final(self).wf(),
            final(self).local == old(self).local,
            final(self).listening_addr == old(self).listening_addr,
            final(self).connections == old(self).connections,
            final(self).store@ == old(self).store@,
            final(self).cache == old(self).cache,
            final(self).cache.pairs() == old(self).cache.pairs(),
            old(self).cache_ok() ==> final(self).cache_ok(),
            final(self).root matches Some(n) && n@ == root_node@,
            hosts_entry(final(self).known_hosts, root_node@, root_addr@),
    {
        let root_copy = root_node.clone();
        self.known_hosts = Some(hosts);
        self.upsert_host(root_node, root_addr);
        self.root = Some(root_copy);
    }
}

/// The literal name of the cache index file.
pub fn cache_file_uri() -> (r: String)
    ensures
        r@ == Daemon::cache_file_spec(),
{
    proof {
        reveal_strlit("cache");
    }
    String::from_str("cache")
}

/// The literal name of a directory's self entry.
pub fn dot_name() -> (r: String)
    ensures
        r@ == "."@,
{
    proof {
        reveal_strlit(".");
    }
    String::from_str(".")
}

/// The literal name of a directory's parent entry.
pub fn dotdot_name() -> (r: String)
    ensures
        r@ == ".."@,
{
    proof {
        reveal_strlit("..");
    }
    String::from_str("..")
}

impl Daemon {
    /// Serve one request from a peer daemon: allocate, read with
    /// modification-time revalidation, write, remove, append a directory
    /// entry, or look up an address — one request, one response, with the
    /// body bytes of a successful read carried alongside.  A `Read`
    /// whose requester already holds a copy at least as new as the local
    /// file is answered `NotModified` and carries nothing.
    #[verifier::rlimit(100)]
    pub fn handle_daemon_request(
        &mut self,
        req: DaemonRequest,
        body: Option<Vec<u8>>,
        rand: u64,
        now: u64,
    ) -> (r: (DaemonResponse, Option<Vec<u8>>))
        requires
            old(self).wf(),
        ensures
            final(self).wf(),
            final(self).local == old(self).local,
            final(self).root == old(self).root,
            final(self).listening_addr == old(self).listening_addr,
            final(self).known_hosts == old(self).known_hosts,
            final(self).connections == old(self).connections,
            final(self).cache == old(self).cache,
            match req {
                DaemonRequest::Place => {
                    &&& r.1 is None
                    &&& r.0 matches DaemonResponse::Place(uri)
                    &&& (r.0 matches DaemonResponse::Place(uri) && uri@.len() > 0 ==> !old(self).store@.contains_key(uri@) && final(self).store@ == old(self).store@.insert(
                        uri@,
                        FileV { bytes: Seq::empty(), mtime: now },
                    ))
                    &&& (r.0 matches DaemonResponse::Place(uri) && uri@.len() == 0 ==> final(self).store@ == old(self).store@ && exists|k: Seq<char>|
                        old(self).store@.contains_key(k) && k.len() >= usize::MAX)
                },
                DaemonRequest::Read(uri, cached) => {
                    &&& final(self).store@ == old(self).store@
                    &&& if old(self).store@.contains_key(uri@) {
                        if cached matches Some(t) && old(self).store@[uri@].mtime < t {
                            r.0 matches DaemonResponse::Read(res) && (res matches Err(e)
                                && e is NotModified) && r.1 is None
                        } else {
                            r.0 matches DaemonResponse::Read(res) && (res matches Ok(n) && n
                                == old(self).store@[uri@].bytes.len()) && (r.1 matches Some(b)
                                && b@ == old(self).store@[uri@].bytes)
                        }
                    } else {
                        r.0 matches DaemonResponse::Read(res) && res matches Err(e)
                            && e is DoesNotExist && r.1 is None
                    }
                },
                DaemonRequest::Write(uri, len) => {
                    &&& r.1 is None
                    &&& match body {
                        Some(b) => if old(self).store@.contains_key(uri@) {
                            r.0 matches DaemonResponse::Write(res) && res matches Ok(n) && n
                                == b@.len() && final(self).store@ == old(self).store@.insert(
                                uri@,
                                FileV { bytes: b@, mtime: now },
                            )
                        } else {
                            r.0 matches DaemonResponse::Write(res) && res matches Err(e)
                                && e is DoesNotExist && final(self).store@ == old(self).store@
                        },
                        None => r.0 matches DaemonResponse::Write(res) && res matches Err(e)
                            && e is Other && final(self).store@ == old(self).store@,
                    }
                },
                DaemonRequest::Remove(uri) => {
                    &&& r.1 is None
                    &&& final(self).store@ == old(self).store@.remove(uri@)
                    &&& r.0 matches DaemonResponse::Remove(res) && (res matches Ok(u) == old(self).store@.contains_key(uri@))
                },
                DaemonRequest::AppendDirectoryEntry(dir_uri, entry) => {
                    &&& r.1 is None
                    &&& r.0 matches DaemonResponse::AppendDirectoryEntry(res) && match res {
                        Ok(u) => {
                            &&& old(self).store@.contains_key(dir_uri@)
                            &&& find_in_dir(
                                old(self).store@[dir_uri@].bytes,
                                entry@.name,
                            ) is None
                            &&& final(self).store@ == old(self).store@.insert(
                                dir_uri@,
                                FileV {
                                    bytes: old(self).store@[dir_uri@].bytes + enc_entry(entry@),
                                    mtime: now,
                                },
                            )
                        },
                        Err(e) => final(self).store@ == old(self).store@ && match e {
                            VPFSError::AlreadyExists(existing) => find_in_dir(
                                old(self).store@[dir_uri@].bytes,
                                entry@.name,
                            ) == Some(existing@),
                            VPFSError::DoesNotExist => !old(self).store@.contains_key(dir_uri@),
                            _ => false,
                        },
                    }
                },
                DaemonRequest::AddressFor(node) => {
                    &&& r.1 is None
                    &&& final(self).store@ == old(self).store@
                    &&& r.0 matches DaemonResponse::AddressFor(res) && match res {
                        Some(a) => hosts_entry(old(self).known_hosts, node@, a@),
                        None => hosts_no_entry(old(self).known_hosts, node@),
                    }
                },
            },
            // a served request never touches another file than the one it
            // names, so the cache stays sound unless that file backs it
            old(self).cache_ok() && (match req {
                DaemonRequest::Place => true,
                DaemonRequest::Read(uri, c) => true,
                DaemonRequest::Write(uri, l) => !old(self).cache.is_backing(uri@),
                DaemonRequest::Remove(uri) => !old(self).cache.is_backing(uri@),
                DaemonRequest::AppendDirectoryEntry(dir_uri, e) => !old(self).cache.is_backing(
                    dir_uri@,
                ),
                DaemonRequest::AddressFor(n) => true,
            }) ==> final(self).cache_ok(),
    {
        let ghost ps = self.cache.pairs();
        match req {
            DaemonRequest::Place => {
                match self.store.alloc_uri(rand, now) {
                    Some(uri) => {
                        proof {
                            if old(self).cache_ok() {
                                assert forall|i: int|
                                    0 <= i < ps.len() implies self.store@.contains_key(
                                    #[trigger] ps[i].1,
                                ) by {
                                    assert(old(self).store@.contains_key(ps[i].1));
                                }
                                assert(forall|i: int|
                                    0 <= i < ps.len() ==> #[trigger] ps[i].1 != uri@);
                                crate::cache::lemma_sum_frame(ps, old(self).store@, self.store@);
                            }
                            assert(uri@.len() > 0);
                        }
                        (DaemonResponse::Place(uri), None)
                    },
                    None => (DaemonResponse::Place(String::new()), None),
                }
            },
            DaemonRequest::Read(uri, cached) => {
                if let Some(t) = cached {
                    match self.store.mtime_of(uri.as_str()) {
                        Some(m) => {
                            if m < t {
                                return (
                                    DaemonResponse::Read(Err(VPFSError::NotModified)),
                                    None,
                                );
                            }
                        },
                        None => {},
                    }
                }
                match self.store.read(uri.as_str()) {
                    Some(b) => {
                        let n = b.len();
                        (DaemonResponse::Read(Ok(n)), Some(b))
                    },
                    None => (DaemonResponse::Read(Err(VPFSError::DoesNotExist)), None),
                }
            },
            DaemonRequest::Write(uri, len) => {
                match body {
                    None => {
                        let msg = String::new();
                        (DaemonResponse::Write(Err(VPFSError::Other(msg))), None)
                    },
                    Some(b) => match self.write_local(uri.as_str(), b, now) {
                        Ok(n) => (DaemonResponse::Write(Ok(n)), None),
                        Err(e) => (DaemonResponse::Write(Err(e)), None),
                    },
                }
            },
            DaemonRequest::Remove(uri) => {
                match self.remove_local(uri.as_str()) {
                    Ok(u) => (DaemonResponse::Remove(Ok(u)), None),
                    Err(e) => (DaemonResponse::Remove(Err(e)), None),
                }
            },
            DaemonRequest::AppendDirectoryEntry(dir_uri, entry) => {
                match self.append_dir_entry(dir_uri.as_str(), &entry, now) {
                    Ok(u) => (DaemonResponse::AppendDirectoryEntry(Ok(u)), None),
                    Err(e) => (DaemonResponse::AppendDirectoryEntry(Err(e)), None),
                }
            },
            DaemonRequest::AddressFor(node) => {
                let a = self.address_for(&node);
                (DaemonResponse::AddressFor(a), None)
            },
        }
    }
}


/// An allocated (hex) name is never one of the reserved file names.
pub proof fn lemma_hexy_not_reserved(u: Seq<char>)
    requires
        crate::store::uri_hexy(u),
    ensures
        u != Daemon::cache_file_spec(),
        u != root_uri_spec(),
{
    reveal_strlit("cache");
    reveal_strlit("root");
    if u == Daemon::cache_file_spec() {
        assert(u[3] == 'h');
        assert(crate::store::is_hex_char(u[3]));
        assert(false);
    }
    if u == root_uri_spec() {
        assert(u[0] == 'r');
        assert(crate::store::is_hex_char(u[0]));
        assert(false);
    }
}

/// A clean cache never backs a reserved file name.
pub proof fn lemma_clean_not_reserved(d: Daemon)
    requires
        d.cache_clean(),
    ensures
        !d.cache.is_backing(Daemon::cache_file_spec()),
        !d.cache.is_backing(root_uri_spec()),
{
    if d.cache.is_backing(Daemon::cache_file_spec()) {
        let i = choose|i: int|
            0 <= i < d.cache.pairs().len() && #[trigger] d.cache.pairs()[i].1
                == Daemon::cache_file_spec();
        lemma_hexy_not_reserved(d.cache.pairs()[i].1);
    }
    if d.cache.is_backing(root_uri_spec()) {
        let i = choose|i: int|
            0 <= i < d.cache.pairs().len() && #[trigger] d.cache.pairs()[i].1 == root_uri_spec();
        lemma_hexy_not_reserved(d.cache.pairs()[i].1);
    }
}

impl Daemon {
    /// Look the cache up for a remote location and, on a hit, take the
    /// backing file's modification time: the first half of a remote
    /// read.  The lookup promotes the entry to the most-recently-used
    /// position, as every cache access does.
    pub fn remote_read_prepare(&mut self, loc: &Location) -> (r: Option<(CacheEntry, u64)>)
        requires
            old(self).wf(),
            old(self).cache_clean(),
        ensures
            final(self).wf(),
            final(self).cache_clean(),
            final(self).local == old(self).local,
            final(self).root == old(self).root,
            final(self).listening_addr == old(self).listening_addr,
            final(self).known_hosts == old(self).known_hosts,
            final(self).connections == old(self).connections,
            final(self).store@ == old(self).store@,
            final(self).cache.used == old(self).cache.used,
            final(self).cache.max == old(self).cache.max,
            final(self).cache.overflowed == old(self).cache.overflowed,
            match r {
                Some(p) => exists|m: int|
                    0 <= m < old(self).cache.pairs().len() && old(self).cache.pairs()[m] == (
                        loc_key(loc@),
                        p.0@,
                    ) && final(self).cache.pairs() == seq![old(self).cache.pairs()[m]] + old(self).cache.pairs().remove(m) && old(self).store@.contains_key(p.0@) && p.1
                        == old(self).store@[p.0@].mtime,
                None => final(self).cache.pairs() == old(self).cache.pairs() && forall|m: int|
                    0 <= m < old(self).cache.pairs().len() ==> (#[trigger] old(self).cache.pairs()[m]).0 != loc_key(loc@),
            },
    {
        let ghost ps0 = self.cache.pairs();
        let got = crate::cache::lru_get(&mut self.cache.lru, loc);
        proof {
            if got is Some {
                let entryv = got->Some_0@;
                let m = choose|m: int|
                    0 <= m < ps0.len() && ps0[m] == (loc_key(loc@), entryv)
                        && self.cache.pairs() == seq![ps0[m]] + ps0.remove(m);
                crate::cache::lemma_promote(ps0, self.store@, m);
            }
            assert(self.cache_clean());
        }
        match got {
            Some(entry) => {
                let t = match self.store.mtime_of(entry.uri.as_str()) {
                    Some(t) => t,
                    None => {
                        proof {
                            assert(self.store@.contains_key(entry@));
                            assert(false);
                        }
                        0
                    },
                };
                Some((entry, t))
            },
            None => None,
        }
    }

    /// Insert or refresh the cached copy of `loc` with `data`, evict
    /// least-recently-used entries while over capacity, and rewrite the
    /// `cache` index file in full — one mutation, so the on-disk index
    /// always matches the live one.
    #[verifier::rlimit(100)]
    pub fn add_cache_entry(
        &mut self,
        loc: &Location,
        data: &Vec<u8>,
        rand: u64,
        now: u64,
    ) -> (ok: bool)
        requires
            old(self).wf(),
            old(self).cache_clean(),
        ensures
            final(self).wf(),
            final(self).cache_clean(),
            final(self).local == old(self).local,
            final(self).root == old(self).root,
            final(self).listening_addr == old(self).listening_addr,
            final(self).known_hosts == old(self).known_hosts,
            final(self).connections == old(self).connections,
            final(self).cache.max == old(self).cache.max,
            // after eviction the counter, hence the true sum, is within
            // the capacity, or the cache is empty
            ok ==> final(self).cache.used <= final(self).cache.max || final(self).cache.pairs().len() == 0,
            // without arithmetic overflow the saturation flag is untouched
            ok && old(self).cache.used + data@.len() <= u64::MAX ==> final(self).cache.overflowed == old(self).cache.overflowed,
            // a refresh of a cached key always goes through
            (exists|m: int|
                0 <= m < old(self).cache.pairs().len() && (#[trigger] old(self).cache.pairs()[m]).0 == loc_key(loc@)) ==> ok,
            // the cached copy is at the most-recently-used position and
            // its backing file holds the data, unless eviction removed it
            ok && final(self).cache.pairs().len() > 0 && final(self).cache.used <= final(self).cache.max ==> {
                &&& final(self).cache.pairs()[0].0 == loc_key(loc@)
                &&& final(self).store@.contains_key(final(self).cache.pairs()[0].1)
                &&& final(self).store@[final(self).cache.pairs()[0].1].bytes == data@
                &&& final(self).store@[final(self).cache.pairs()[0].1].mtime == now
            },
            // a refresh keeps the key's backing URI
            ok && final(self).cache.pairs().len() > 0 && (exists|m: int|
                0 <= m < old(self).cache.pairs().len() && (#[trigger] old(self).cache.pairs()[m]).0 == loc_key(loc@)) ==> exists|m: int|
                0 <= m < old(self).cache.pairs().len() && (#[trigger] old(self).cache.pairs()[m]).0 == loc_key(loc@) && final(self).cache.pairs()[0] == old(self).cache.pairs()[m],
            // every surviving pair behind the front is an old pair
            ok ==> forall|m: int|
                1 <= m < final(self).cache.pairs().len() ==> exists|k: int|
                    0 <= k < old(self).cache.pairs().len() && #[trigger] final(self).cache.pairs()[m] == old(self).cache.pairs()[k],
            // files outside the backing sets and the index file are
            // untouched, and a fresh backing file shadows nothing
            forall|k: Seq<char>|
                !old(self).cache.is_backing(k) && !final(self).cache.is_backing(k) && k
                    != Daemon::cache_file_spec() && !(ok && final(self).cache.pairs().len() > 0
                    && final(self).cache.pairs()[0].1 == k) ==> (old(self).store@.contains_key(k)
                    == final(self).store@.contains_key(k) && (old(self).store@.contains_key(k)
                    ==> old(self).store@[k] == final(self).store@[k])),
            forall|k: Seq<char>|
                old(self).store@.contains_key(k) && !old(self).cache.is_backing(k) ==> !final(self).cache.is_backing(k),
            // every surviving file other than the freshly written copy
            // and the index file is as it was
            forall|k: Seq<char>|
                final(self).store@.contains_key(k) && old(self).store@.contains_key(k) && k
                    != Daemon::cache_file_spec() && !(ok && final(self).cache.pairs().len() > 0
                    && k == final(self).cache.pairs()[0].1) ==> final(self).store@[k] == old(self).store@[k],
            // a file that appeared is the fresh copy or the index file
            forall|k: Seq<char>|
                final(self).store@.contains_key(k) && !old(self).store@.contains_key(k) ==> k
                    == Daemon::cache_file_spec() || (ok && final(self).cache.pairs().len() > 0
                    && k == final(self).cache.pairs()[0].1),
            !ok ==> final(self).cache.pairs() == old(self).cache.pairs() && final(self).cache.used
                == old(self).cache.used && final(self).cache.overflowed == old(self).cache.overflowed,
            // failure happens only for a fresh key, and only in a
            // degenerate state: an index at the length limit, or a present
            // name too long to exceed
            !ok ==> (forall|m: int|
                0 <= m < old(self).cache.pairs().len() ==> (#[trigger] old(self).cache.pairs()[m]).0 != loc_key(loc@)) && (old(self).cache.pairs().len() >= usize::MAX || exists|k: Seq<char>|
                old(self).store@.contains_key(k) && k.len() >= usize::MAX),
            // the index file is rewritten in full and is exactly the
            // serialized live index
            final(self).store@.contains_key(Daemon::cache_file_spec()),
            final(self).store@[Daemon::cache_file_spec()] == (crate::store::FileV {
                bytes: crate::cache::enc_cache_index(
                    crate::cache::opt_node_view(&final(self).root),
                    final(self).cache.used,
                    final(self).cache.pairs(),
                ),
                mtime: now,
            }),
    {
        let ghost mid0 = *old(self);
        let ok = {
            let daemon = &mut *self;
            crate::cache::add_cache_entry(
                &mut daemon.cache,
                &mut daemon.store,
                loc,
                data,
                rand,
                now,
            )
        };
        proof {
            assert(self.cache_clean());
            lemma_clean_not_reserved(*self);
        }
        let ghost mid1 = *self;
        self.persist_cache(now);
        proof {
            assert(self.cache == mid1.cache);
            assert(self.cache.pairs() == mid1.cache.pairs());
            if ok && self.cache.pairs().len() > 0 && self.cache.used <= self.cache.max {
                lemma_hexy_not_reserved(self.cache.pairs()[0].1);
                assert(self.store@.contains_key(self.cache.pairs()[0].1));
                let ghost front = self.cache.pairs()[0].1;
                assert(self.store@[front] == mid1.store@[front]);
            }
            assert forall|k: Seq<char>|
                self.store@.contains_key(k) && k != Daemon::cache_file_spec() && !(ok
                    && self.cache.pairs().len() > 0 && k == self.cache.pairs()[0].1) implies old(self).store@.contains_key(k) && self.store@[k] == old(self).store@[k] by {
                assert(mid1.store@.contains_key(k) && self.store@[k] == mid1.store@[k]);
                assert(mid1.cache.pairs() == self.cache.pairs());
                assert(old(self).store@.contains_key(k) && mid1.store@[k] == old(self).store@[k]);
            }
            assert forall|k: Seq<char>|
                self.store@.contains_key(k) && !old(self).store@.contains_key(k) implies k
                    == Daemon::cache_file_spec() || (ok && self.cache.pairs().len() > 0 && k
                    == self.cache.pairs()[0].1) by {
                if k != Daemon::cache_file_spec() {
                    assert(mid1.store@.contains_key(k));
                    assert(mid1.cache.pairs() == self.cache.pairs());
                    let ghost ps_old = old(self).cache.pairs();
                    let ghost ps_new = mid1.cache.pairs();
                    // an absent file cannot have been a backing file
                    assert(!old(self).cache.is_backing(k)) by {
                        if old(self).cache.is_backing(k) {
                            let m = choose|m: int|
                                0 <= m < ps_old.len() && #[trigger] ps_old[m].1 == k;
                            assert(old(self).store@.contains_key(ps_old[m].1));
                            assert(false);
                        }
                    }
                    // so, by the frame, it is a backing file now
                    assert(mid1.cache.is_backing(k));
                    let m = choose|m: int| 0 <= m < ps_new.len() && #[trigger] ps_new[m].1 == k;
                    if !ok {
                        assert(ps_new == ps_old);
                        assert(old(self).cache.is_backing(k));
                        assert(false);
                    }
                    if m >= 1 {
                        let x = choose|x: int|
                            0 <= x < ps_old.len() && #[trigger] ps_new[m] == ps_old[x];
                        assert(ps_old[x].1 == k);
                        assert(old(self).cache.is_backing(k));
                        assert(false);
                    }
                    assert(ok && ps_new.len() > 0 && k == ps_new[0].1);
                }
            }
        }
        ok
    }
}

} // verus!
