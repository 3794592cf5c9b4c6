//! The cluster: daemons wired to each other, and everything one daemon
//! does that involves a peer.
//!
//! A `Cluster` holds every daemon of one deployment together with a flag
//! for whether each is reachable at its listening address, and a logical
//! clock that stamps writes.  On it live the connection manager, the
//! remote read with cache revalidation, the namespace resolver, placement,
//! and the client operations — each a verified transition of the whole
//! system.  In a deployment the message carrying between two daemons is a
//! socket's work; here a peer's request handler is invoked directly, so
//! every daemon's answer is the verified one.

use vstd::prelude::*;
use vstd::string::{StrSliceExecFns, StringExecFns};

use crate::messages::{
    Node, Location, DirectoryEntry, CacheEntry, VPFSError, Hello, HelloResponse, DaemonRequest,
    DaemonResponse, ClientRequest, ClientResponse,
};
use crate::store::FileV;
use crate::cache::loc_key;
use crate::daemon::{
    Daemon, random_u64, root_uri, root_uri_spec, hosts_entry, hosts_no_entry, hosts_view,
    hosts_wf, dot_name, dotdot_name, lemma_clean_not_reserved, lemma_hexy_not_reserved,
};
use crate::codec::{find_in_dir, enc_entry, search_dir_bytes, string_eq, wf_dir, dir_seq};

verus! {

/// A cluster of daemons: each with a reachability flag, under one logical
/// clock that stamps writes.
pub struct Cluster {
    pub daemons: Vec<Daemon>,
    pub online: Vec<bool>,
    pub clock: u64,
}

impl Cluster {
    /// Every daemon is well formed, node names are pairwise distinct, the
    /// flags line up, and every stored modification time lies below the
    /// clock.
    pub open spec fn wf(&self) -> bool {
        &&& self.online@.len() == self.daemons@.len()
        &&& forall|i: int| 0 <= i < self.daemons@.len() ==> (#[trigger] self.daemons@[i]).wf()
        &&& forall|i: int, j: int|
            0 <= i < j < self.daemons@.len() ==> (#[trigger] self.daemons@[i]).local@ != (
            #[trigger] self.daemons@[j]).local@
        &&& forall|i: int, u: Seq<char>|
            0 <= i < self.daemons@.len() && #[trigger] self.daemons@[i].store@.contains_key(u)
                ==> self.daemons@[i].store@[u].mtime <= self.clock
    }

    /// A daemon of this name is online.
    pub open spec fn deliverable(&self, n: Seq<char>) -> bool {
        exists|j: int|
            0 <= j < self.daemons@.len() && (#[trigger] self.daemons@[j]).local@ == n
                && self.online@[j]
    }

    /// An online daemon listens at this address.
    pub open spec fn dialable(&self, a: Seq<char>) -> bool {
        exists|j: int|
            0 <= j < self.daemons@.len() && (#[trigger] self.daemons@[j]).listening_addr@ == a
                && self.online@[j]
    }

    /// Daemon `i` holds an established stream to a node of this name.
    pub open spec fn connected(&self, i: int, n: Seq<char>) -> bool {
        exists|k: int|
            0 <= k < self.daemons@[i].connections@.len()
                && (#[trigger] self.daemons@[i].connections@[k])@ == n
    }

    /// What the connection manager can reach from daemon `i`: a held
    /// stream; else a known address that answers; else, not being the
    /// root, asking a connected, answering root for the address and
    /// dialing what it returns.
    pub open spec fn can_reach(&self, i: int, n: Seq<char>) -> bool {
        if self.connected(i, n) {
            true
        } else if !hosts_no_entry(self.daemons@[i].known_hosts, n) {
            exists|a: Seq<char>|
                hosts_entry(#[trigger] self.daemons@[i].known_hosts, n, a) && self.dialable(a)
        } else {
            match self.daemons@[i].root {
                Some(r) => r@ != self.daemons@[i].local@ && self.connected(i, r@)
                    && self.deliverable(r@) && (exists|j: int, a: Seq<char>|
                    0 <= j < self.daemons@.len() && (#[trigger] self.daemons@[j]).local@ == r@
                        && #[trigger] hosts_entry(self.daemons@[j].known_hosts, n, a)
                        && self.dialable(a)),
                None => false,
            }
        }
    }

    /// The owner of the location is connected to daemon `i`, online, and
    /// holds the file: a remote read must then succeed.
    pub open spec fn owner_serves(&self, i: int, l: crate::messages::LocV) -> bool {
        &&& self.connected(i, l.node)
        &&& self.deliverable(l.node)
        &&& exists|j: int|
            0 <= j < self.daemons@.len() && (#[trigger] self.daemons@[j]).local@ == l.node
                && self.daemons@[j].store@.contains_key(l.uri)
    }

    /// Daemon `i` holds a cached copy of the location strictly newer than
    /// the owner's file: revalidation must then keep the cached bytes.
    pub open spec fn cached_newer(&self, i: int, l: crate::messages::LocV) -> bool {
        exists|m: int, j: int|
            0 <= m < self.daemons@[i].cache.pairs().len() && 0 <= j < self.daemons@.len() && (
            #[trigger] self.daemons@[i].cache.pairs()[m]).0 == loc_key(l) && (
            #[trigger] self.daemons@[j]).local@ == l.node
                && self.daemons@[j].store@.contains_key(l.uri)
                && self.daemons@[i].store@[self.daemons@[i].cache.pairs()[m].1].mtime
                > self.daemons@[j].store@[l.uri].mtime
    }

    /// The position of the daemon with this node name.
    pub fn find_daemon(&self, node: &Node) -> (r: Option<usize>)
        ensures
            match r {
                Some(j) => j < self.daemons@.len() && self.daemons@[j as int].local@ == node@,
                None => forall|j: int|
                    0 <= j < self.daemons@.len() ==> (#[trigger] self.daemons@[j]).local@
                        != node@,
            },
    {
        let n = self.daemons.len();
        let mut i: usize = 0;
        while i < n
            invariant
                n == self.daemons@.len(),
                i <= n,
                forall|j: int| 0 <= j < i ==> (#[trigger] self.daemons@[j]).local@ != node@,
            decreases n - i,
        {
            if string_eq(&self.daemons[i].local.name, &node.name) {
                return Some(i);
            }
            i = i + 1;
        }
        None
    }

    /// Dial an address: the position of the online daemon listening
    /// there, if any.
    pub fn dial(&self, addr: &String) -> (r: Option<usize>)
        requires
            self.wf(),
        ensures
            match r {
                Some(j) => j < self.daemons@.len() && self.daemons@[j as int].listening_addr@
                    == addr@ && self.online@[j as int] && self.dialable(addr@),
                None => !self.dialable(addr@),
            },
    {
        let n = self.daemons.len();
        let mut i: usize = 0;
        while i < n
            invariant
                self.wf(),
                n == self.daemons@.len(),
                i <= n,
                forall|j: int|
                    0 <= j < i ==> !((#[trigger] self.daemons@[j]).listening_addr@ == addr@
                        && self.online@[j]),
            decreases n - i,
        {
            if string_eq(&self.daemons[i].listening_addr, addr) && self.online[i] {
                return Some(i);
            }
            i = i + 1;
        }
        None
    }

    /// Establish a stream from daemon `i` to the node, which answered at
    /// the address: remember the connection.
    fn establish_connection(&mut self, i: usize, node: &Node)
        requires
            old(self).wf(),
            i < old(self).daemons@.len(),
        ensures
            final(self).wf(),
            cluster_frame_except_connections(*old(self), *final(self), i as int),
            final(self).connected(i as int, node@),
    {
        let d = &mut self.daemons[i];
        let ghost conns0 = d.connections@;
        d.connections.push(node.clone());
        proof {
            assert(self.daemons@[i as int].connections@[conns0.len() as int]@ == node@);
            assert(forall|j: int|
                0 <= j < self.daemons@.len() && j != i ==> self.daemons@[j] == old(self).daemons@[j]);
        }
    }

    /// The connection manager: hand daemon `i` a stream to the node.
    /// A held stream is reused; else a known address is dialed; else, on
    /// a daemon that is not itself the root, the root is asked for the
    /// address and that is dialed.  `false` means the caller surfaces
    /// `NotAccessible`.
    pub fn stream_for(&mut self, i: usize, node: &Node) -> (r: bool)
        requires
            old(self).wf(),
            i < old(self).daemons@.len(),
        ensures
            final(self).wf(),
            cluster_frame_except_connections(*old(self), *final(self), i as int),
            r ==> old(self).can_reach(i as int, node@),
            // whatever the connection manager can reach, it reaches: the
            // flag fails only on a node with no route
            old(self).can_reach(i as int, node@) ==> r,
            r ==> final(self).connected(i as int, node@),
            old(self).connected(i as int, node@) ==> r,
            // a held stream is reused without touching anything
            old(self).connected(i as int, node@) ==> final(self).daemons == old(self).daemons,
            // a known, answering address must be dialed
            (!old(self).connected(i as int, node@) && (exists|a: Seq<char>|
                hosts_entry(#[trigger] old(self).daemons@[i as int].known_hosts, node@, a)
                    && old(self).dialable(a))) ==> r,
    {
        let d = &self.daemons[i];
        // a held stream is reused
        let n_conns = d.connections.len();
        let mut k: usize = 0;
        while k < n_conns
            invariant
                *self == *old(self),
                self.wf(),
                i < self.daemons@.len(),
                n_conns == self.daemons@[i as int].connections@.len(),
                k <= n_conns,
                forall|m: int|
                    0 <= m < k ==> (#[trigger] self.daemons@[i as int].connections@[m])@ != node@,
            decreases n_conns - k,
        {
            if string_eq(&self.daemons[i].connections[k].name, &node.name) {
                proof {
                    assert(self.connected(i as int, node@));
                }
                return true;
            }
            k = k + 1;
        }
        assert(!self.connected(i as int, node@));
        // a known address is dialed
        match self.daemons[i].address_for(node) {
            Some(addr) => {
                match self.dial(&addr) {
                    Some(j) => {
                        self.establish_connection(i, node);
                        proof {
                            assert(hosts_entry(
                                old(self).daemons@[i as int].known_hosts,
                                node@,
                                addr@,
                            ));
                            assert(!hosts_no_entry(
                                old(self).daemons@[i as int].known_hosts,
                                node@,
                            ));
                            assert(old(self).can_reach(i as int, node@));
                        }
                        true
                    },
                    None => {
                        proof {
                            if old(self).can_reach(i as int, node@) {
                                let a = choose|a: Seq<char>|
                                    hosts_entry(
                                        #[trigger] self.daemons@[i as int].known_hosts,
                                        node@,
                                        a,
                                    ) && self.dialable(a);
                                crate::daemon::lemma_hosts_entry_unique(
                                    self.daemons@[i as int].known_hosts,
                                    node@,
                                    a,
                                    addr@,
                                );
                                assert(false);
                            }
                        }
                        false
                    },
                }
            },
            None => {
                // ask the root, unless this daemon is the root
                let root_node = match &self.daemons[i].root {
                    None => {
                        proof {
                            assert(!old(self).can_reach(i as int, node@));
                        }
                        return false;
                    },
                    Some(r) => r.clone(),
                };
                if string_eq(&root_node.name, &self.daemons[i].local.name) {
                    proof {
                        assert(!old(self).can_reach(i as int, node@));
                    }
                    return false;
                }
                // only over a held stream to the root
                let root_connected = {
                    let d2 = &self.daemons[i];
                    let nc = d2.connections.len();
                    let mut m: usize = 0;
                    let mut found = false;
                    while m < nc
                        invariant
                            *self == *old(self),
                            self.wf(),
                            i < self.daemons@.len(),
                            nc == self.daemons@[i as int].connections@.len(),
                            m <= nc,
                            root_node@ == self.daemons@[i as int].root->Some_0@,
                            found == exists|x: int|
                                0 <= x < m
                                    && (#[trigger] self.daemons@[i as int].connections@[x])@
                                    == root_node@,
                        decreases nc - m,
                    {
                        if string_eq(&self.daemons[i].connections[m].name, &root_node.name) {
                            found = true;
                        }
                        m = m + 1;
                    }
                    found
                };
                if !root_connected {
                    proof {
                        assert(!old(self).connected(i as int, root_node@));
                        assert(!old(self).can_reach(i as int, node@));
                    }
                    return false;
                }
                // the AddressFor exchange with the root
                let j = match self.find_daemon(&root_node) {
                    None => {
                        proof {
                            if old(self).can_reach(i as int, node@) {
                                let j2 = choose|j2: int|
                                    0 <= j2 < self.daemons@.len()
                                        && (#[trigger] self.daemons@[j2]).local@ == root_node@
                                        && self.online@[j2];
                                assert(self.daemons@[j2].local@ == root_node@);
                                assert(false);
                            }
                        }
                        return false;
                    },
                    Some(j) => j,
                };
                if !self.online[j] {
                    proof {
                        if old(self).can_reach(i as int, node@) {
                            let j2 = choose|j2: int|
                                0 <= j2 < self.daemons@.len()
                                    && (#[trigger] self.daemons@[j2]).local@ == root_node@
                                    && self.online@[j2];
                            assert(j2 == j as int);
                            assert(false);
                        }
                    }
                    return false;
                }
                let ghost c_call = *self;
                let (resp, resp_body) = {
                    let rd = &mut self.daemons[j];
                    rd.handle_daemon_request(
                        DaemonRequest::AddressFor(node.clone()),
                        None,
                        0,
                        0,
                    )
                };
                proof {
                    assert(forall|x: int|
                        0 <= x < self.daemons@.len() && x != j ==> self.daemons@[x]
                            == c_call.daemons@[x]);
                    if old(self).can_reach(i as int, node@) {
                        // the root the hypothesis names is the daemon asked
                        let (j2, a) = choose|j2: int, a: Seq<char>|
                            0 <= j2 < c_call.daemons@.len()
                                && (#[trigger] c_call.daemons@[j2]).local@ == root_node@
                                && #[trigger] hosts_entry(
                                c_call.daemons@[j2].known_hosts,
                                node@,
                                a,
                            ) && c_call.dialable(a);
                        assert(j2 == j as int);
                        match &resp {
                            DaemonResponse::AddressFor(res) => match res {
                                Some(a2) => {
                                    crate::daemon::lemma_hosts_entry_unique(
                                        c_call.daemons@[j as int].known_hosts,
                                        node@,
                                        a,
                                        a2@,
                                    );
                                    assert(c_call.dialable(a2@));
                                    // the answering daemon still listens
                                    let x = choose|x: int|
                                        0 <= x < c_call.daemons@.len()
                                            && (#[trigger] c_call.daemons@[x]).listening_addr@
                                            == a2@ && c_call.online@[x];
                                    assert(self.daemons@[x].listening_addr@ == a2@);
                                    assert(self.dialable(a2@));
                                },
                                None => {
                                    let x = choose|x: int|
                                        0 <= x < hosts_view(
                                            c_call.daemons@[j as int].known_hosts->Some_0@,
                                        ).len() && #[trigger] hosts_view(
                                            c_call.daemons@[j as int].known_hosts->Some_0@,
                                        )[x] == (node@, a);
                                    assert(false);
                                },
                            },
                            _ => {
                                assert(false);
                            },
                        }
                    }
                }
                let addr = match resp {
                    DaemonResponse::AddressFor(Some(addr)) => addr,
                    _ => {
                        proof {
                            assert(!old(self).can_reach(i as int, node@));
                        }
                        return false;
                    },
                };
                match self.dial(&addr) {
                    Some(target) => {
                        let has_hosts = self.daemons[i].known_hosts.is_some();
                        let ghost pre_upsert = *self;
                        if has_hosts {
                            // the learned address is cached in the
                            // known-hosts table for the next lookup
                            let d = &mut self.daemons[i];
                            d.upsert_host(node.clone(), addr.clone());
                        }
                        proof {
                            assert(forall|j: int|
                                0 <= j < self.daemons@.len() && j != i ==> self.daemons@[j]
                                    == pre_upsert.daemons@[j]);
                        }
                        self.establish_connection(i, node);
                        proof {
                            assert(old(self).connected(i as int, root_node@));
                            assert(old(self).deliverable(root_node@)) by {
                                assert(old(self).daemons@[j as int].local@ == root_node@ && old(self).online@[j as int]);
                            }
                            assert(hosts_entry(
                                old(self).daemons@[j as int].known_hosts,
                                node@,
                                addr@,
                            ));
                            assert(old(self).can_reach(i as int, node@));
                        }
                        true
                    },
                    None => {
                        proof {
                            if old(self).can_reach(i as int, node@) {
                                assert(self.dialable(addr@));
                                assert(false);
                            }
                        }
                        false
                    },
                }
            },
        }
    }
}

/// One daemon's observable state is as it was: identity, root, address,
/// files, cache, hosts and connections.
pub open spec fn daemon_quiet(d0: Daemon, d1: Daemon) -> bool {
    &&& d1.local == d0.local
    &&& d1.root == d0.root
    &&& d1.listening_addr == d0.listening_addr
    &&& d1.store@ == d0.store@
    &&& d1.cache == d0.cache
    &&& d1.known_hosts == d0.known_hosts
    &&& d1.connections == d0.connections
}

/// Nothing changed across the cluster but daemon `i`'s held connections
/// and its known-hosts table (which may have learned an address from the
/// root): every store, cache and identity is as it was, and no connection
/// was dropped.
pub open spec fn cluster_frame_except_connections(c0: Cluster, c1: Cluster, i: int) -> bool {
    &&& c1.daemons@.len() == c0.daemons@.len()
    &&& c1.online@ == c0.online@
    &&& c1.clock == c0.clock
    &&& forall|j: int|
        0 <= j < c0.daemons@.len() && j != i ==> daemon_quiet(
            c0.daemons@[j],
            #[trigger] c1.daemons@[j],
        )
    &&& c1.daemons@[i].local == c0.daemons@[i].local
    &&& c1.daemons@[i].root == c0.daemons@[i].root
    &&& c1.daemons@[i].listening_addr == c0.daemons@[i].listening_addr
    &&& c1.daemons@[i].store@ == c0.daemons@[i].store@
    &&& c1.daemons@[i].cache == c0.daemons@[i].cache
    &&& (c0.daemons@[i].known_hosts is Some ==> c1.daemons@[i].known_hosts is Some)
    &&& forall|k: int|
        0 <= k < c0.daemons@[i].connections@.len() ==> c1.daemons@[i].connections@.len() > k
            && c1.daemons@[i].connections@[k] == c0.daemons@[i].connections@[k]
}

impl Cluster {
    /// Advance the clock after a batch of writes stamped with it.
    fn tick(&mut self)
        requires
            old(self).wf(),
        ensures
            final(self).wf(),
            final(self).daemons == old(self).daemons,
            final(self).online == old(self).online,
            final(self).clock >= old(self).clock,
    {
        self.clock = self.clock.saturating_add(1);
    }

    /// Read a remote location: revalidate the cached copy with the owner
    /// by modification time, fetch and cache the bytes when the owner has
    /// newer ones, fall back to the cache when the owner is unreachable.
    #[verifier::rlimit(100)]
    pub fn read_remote(&mut self, i: usize, loc: &Location) -> (r: Result<Vec<u8>, VPFSError>)
        requires
            old(self).wf(),
            i < old(self).daemons@.len(),
            old(self).daemons@[i as int].cache_clean(),
            loc@.node != old(self).daemons@[i as int].local@,
        ensures
            final(self).wf(),
            final(self).daemons@.len() == old(self).daemons@.len(),
            final(self).online@ == old(self).online@,
            final(self).clock >= old(self).clock,
            // every other daemon keeps its state; a served read reads only
            forall|j: int|
                0 <= j < old(self).daemons@.len() && j != i ==> daemon_quiet(
                    old(self).daemons@[j],
                    #[trigger] final(self).daemons@[j],
                ),
            // the requester stays clean; its identity and tables are kept
            final(self).daemons@[i as int].cache_clean(),
            final(self).daemons@[i as int].local == old(self).daemons@[i as int].local,
            final(self).daemons@[i as int].root == old(self).daemons@[i as int].root,
            final(self).daemons@[i as int].listening_addr == old(self).daemons@[i as int].listening_addr,
            old(self).daemons@[i as int].known_hosts is Some ==> final(self).daemons@[i as int].known_hosts is Some,
            // only cache backing files and the cache index file move
            forall|k: Seq<char>|
                !old(self).daemons@[i as int].cache.is_backing(k) && !final(self).daemons@[i as int].cache.is_backing(k) && k != Daemon::cache_file_spec() ==> (
                old(self).daemons@[i as int].store@.contains_key(k) == final(self).daemons@[i as int].store@.contains_key(k) && (old(self).daemons@[i as int].store@.contains_key(k) ==> old(self).daemons@[i as int].store@[k] == final(self).daemons@[i as int].store@[k])),
            // a fresh backing file never shadows an existing store file
            forall|k: Seq<char>|
                old(self).daemons@[i as int].store@.contains_key(k) && !old(self).daemons@[i as int].cache.is_backing(k) ==> !final(self).daemons@[i as int].cache.is_backing(k),
            // a failed read leaves the files, the counter and the flag
            // untouched; at most the looked-up entry moved to the front
            r is Err ==> {
                &&& final(self).daemons@[i as int].store@ == old(self).daemons@[i as int].store@
                &&& final(self).daemons@[i as int].cache.used == old(self).daemons@[i as int].cache.used
                &&& final(self).daemons@[i as int].cache.overflowed == old(self).daemons@[i as int].cache.overflowed
                &&& (final(self).daemons@[i as int].cache.pairs() == old(self).daemons@[i as int].cache.pairs() || exists|m: int|
                    0 <= m < old(self).daemons@[i as int].cache.pairs().len() && (#[trigger] old(self).daemons@[i as int].cache.pairs()[m]).0 == loc_key(loc@) && final(self).daemons@[i as int].cache.pairs() == seq![
                        old(self).daemons@[i as int].cache.pairs()[m],
                    ] + old(self).daemons@[i as int].cache.pairs().remove(m))
            },
            // a successful read leaves the entry at the front, its
            // backing file holding exactly what came back; a refresh
            // keeps the entry's backing URI
            r matches Ok(b) ==> ((final(self).daemons@[i as int].cache.pairs().len() > 0 && final(self).daemons@[i as int].cache.used <= final(self).daemons@[i as int].cache.max && final(self).daemons@[i as int].cache.pairs()[0].0 == loc_key(loc@)) ==> {
                &&& final(self).daemons@[i as int].store@.contains_key(
                    final(self).daemons@[i as int].cache.pairs()[0].1,
                )
                &&& final(self).daemons@[i as int].store@[final(self).daemons@[i as int].cache.pairs()[0].1].bytes == b@
            }),
            (r is Ok && final(self).daemons@[i as int].cache.pairs().len() > 0 && (exists|m: int|
                0 <= m < old(self).daemons@[i as int].cache.pairs().len() && (#[trigger] old(self).daemons@[i as int].cache.pairs()[m]).0 == loc_key(loc@))) ==> exists|m: int|
                0 <= m < old(self).daemons@[i as int].cache.pairs().len() && (#[trigger] old(self).daemons@[i as int].cache.pairs()[m]).0 == loc_key(loc@) && final(self).daemons@[i as int].cache.pairs()[0].1 == old(self).daemons@[i as int].cache.pairs()[m].1,
            // what came back is the owner's file, or the cached copy
            match r {
                Ok(b) => exists|j: int|
                    0 <= j < old(self).daemons@.len() && (#[trigger] old(self).daemons@[j]).local@ == loc@.node && ((old(self).daemons@[j].store@.contains_key(loc@.uri) && b@ == old(self).daemons@[j].store@[loc@.uri].bytes) || (exists|m: int|
                        0 <= m < old(self).daemons@[i as int].cache.pairs().len() && (
                        #[trigger] old(self).daemons@[i as int].cache.pairs()[m]).0 == loc_key(
                            loc@,
                        ) && old(self).daemons@[i as int].store@.contains_key(
                            old(self).daemons@[i as int].cache.pairs()[m].1,
                        ) && b@ == old(self).daemons@[i as int].store@[old(self).daemons@[i as int].cache.pairs()[m].1].bytes
                        // the revalidated path: the owner reported the
                        // cached copy current, and nothing was written
                        && old(self).daemons@[j].store@.contains_key(loc@.uri) && old(self).daemons@[j].store@[loc@.uri].mtime < old(self).daemons@[i as int].store@[old(self).daemons@[i as int].cache.pairs()[m].1].mtime && final(self).daemons@[i as int].store@ == old(self).daemons@[i as int].store@)),
                Err(e) => !(e is NotModified) && !(e is CacheNeededForTraversal),
            },
            // an unreachable owner: the cached copy's location, or nothing
            !old(self).can_reach(i as int, loc@.node) ==> match old(self).daemons@[i as int].cache.pairs().len() {
                _ => if exists|m: int|
                    0 <= m < old(self).daemons@[i as int].cache.pairs().len() && (#[trigger] old(self).daemons@[i as int].cache.pairs()[m]).0 == loc_key(loc@) {
                    r matches Err(e) && e matches VPFSError::OnlyInCache(l) && l@.node == old(self).daemons@[i as int].local@ && exists|m: int|
                        0 <= m < old(self).daemons@[i as int].cache.pairs().len() && (
                        #[trigger] old(self).daemons@[i as int].cache.pairs()[m]) == (
                            loc_key(loc@),
                            l@.uri,
                        )
                } else {
                    r matches Err(e) && e is NotAccessible
                },
            },
            // a connected, online owner that holds the file, when no
            // cached copy claims to be newer, hands the bytes over
            (old(self).connected(i as int, loc@.node) && old(self).deliverable(loc@.node)
                && (exists|j: int|
                0 <= j < old(self).daemons@.len() && (#[trigger] old(self).daemons@[j]).local@
                    == loc@.node && old(self).daemons@[j].store@.contains_key(loc@.uri))
                && (forall|m: int, j: int|
                0 <= m < old(self).daemons@[i as int].cache.pairs().len() && 0 <= j < old(self).daemons@.len() && (#[trigger] old(self).daemons@[i as int].cache.pairs()[m]).0
                    == loc_key(loc@) && (#[trigger] old(self).daemons@[j]).local@ == loc@.node
                    && old(self).daemons@[j].store@.contains_key(loc@.uri) ==> old(self).daemons@[i as int].store@[old(self).daemons@[i as int].cache.pairs()[m].1].mtime
                    <= old(self).daemons@[j].store@[loc@.uri].mtime)) ==> (r matches Ok(b)
                && exists|j: int|
                0 <= j < old(self).daemons@.len() && (#[trigger] old(self).daemons@[j]).local@
                    == loc@.node && b@ == old(self).daemons@[j].store@[loc@.uri].bytes),
            // a connected, online owner that holds the file is never
            // refused, whatever the cache holds
            old(self).owner_serves(i as int, loc@) ==> r is Ok,
            // ... and when the cached copy is strictly newer the owner
            // reports it current: the cached bytes come back and the
            // requester's files do not move
            old(self).owner_serves(i as int, loc@) && old(self).cached_newer(i as int, loc@)
                ==> (r matches Ok(b) && (exists|m: int|
                0 <= m < old(self).daemons@[i as int].cache.pairs().len() && (#[trigger] old(self).daemons@[i as int].cache.pairs()[m]).0 == loc_key(loc@) && old(self).daemons@[i as int].store@.contains_key(old(self).daemons@[i as int].cache.pairs()[m].1) && b@ == old(self).daemons@[i as int].store@[old(self).daemons@[i as int].cache.pairs()[m].1].bytes)
                && final(self).daemons@[i as int].store@ == old(self).daemons@[i as int].store@),
    {
        let ghost c0 = *old(self);
        let ghost hyp_serv = c0.owner_serves(i as int, loc@);
        let ghost hyp_new = c0.cached_newer(i as int, loc@);
        let ghost hyp = c0.connected(i as int, loc@.node) && c0.deliverable(loc@.node) && (exists|
            j: int,
        |
            0 <= j < c0.daemons@.len() && (#[trigger] c0.daemons@[j]).local@ == loc@.node
                && c0.daemons@[j].store@.contains_key(loc@.uri)) && (forall|m: int, j: int|
            0 <= m < c0.daemons@[i as int].cache.pairs().len() && 0 <= j < c0.daemons@.len() && (
            #[trigger] c0.daemons@[i as int].cache.pairs()[m]).0 == loc_key(loc@) && (
            #[trigger] c0.daemons@[j]).local@ == loc@.node && c0.daemons@[j].store@.contains_key(
                loc@.uri,
            ) ==> c0.daemons@[i as int].store@[c0.daemons@[i as int].cache.pairs()[m].1].mtime
                <= c0.daemons@[j].store@[loc@.uri].mtime);
        // look the cache up (promoting the entry) and take the backing
        // file's modification time
        let ghost ps0 = self.daemons@[i as int].cache.pairs();
        let (got, cached_mtime) = {
            let d = &mut self.daemons[i];
            match d.remote_read_prepare(loc) {
                Some((entry, t)) => (Some(entry), Some(t)),
                None => (None, None),
            }
        };
        proof {
            assert(forall|j: int|
                0 <= j < self.daemons@.len() && j != i ==> self.daemons@[j] == c0.daemons@[j]);
            lemma_can_reach_frame(c0, *self, i as int, loc@.node);
        }
        let ghost c1 = *self;
        let reached = self.stream_for(i, &loc.node);
        proof {
            if reached {
                assert(c1.can_reach(i as int, loc@.node));
                assert(c0.can_reach(i as int, loc@.node));
            }
            if c0.connected(i as int, loc@.node) {
                assert(reached);
            }
        }
        if !reached {
            return self.cache_fallback(i, loc, got, Ghost(ps0));
        }
        // ask the owner, over the established stream
        proof {
            assert(forall|x: int|
                0 <= x < self.daemons@.len() ==> (#[trigger] self.daemons@[x]).local@
                    == c0.daemons@[x].local@);
        }
        let j = match self.find_daemon(&loc.node) {
            Some(j) => j,
            None => {
                proof {
                    if hyp || hyp_serv {
                        let j2 = choose|j2: int|
                            0 <= j2 < c0.daemons@.len() && (#[trigger] c0.daemons@[j2]).local@
                                == loc@.node && c0.online@[j2];
                        assert(self.daemons@[j2].local@ == loc@.node);
                        assert(false);
                    }
                }
                return self.cache_fallback(i, loc, got, Ghost(ps0));
            },
        };
        if !self.online[j] {
            proof {
                if hyp || hyp_serv {
                    let j2 = choose|j2: int|
                        0 <= j2 < c0.daemons@.len() && (#[trigger] c0.daemons@[j2]).local@
                            == loc@.node && c0.online@[j2];
                    assert(self.daemons@[j2].local@ == loc@.node);
                    assert(j2 == j as int);
                    assert(false);
                }
            }
            return self.cache_fallback(i, loc, got, Ghost(ps0));
        }
        proof {
            assert(j != i);
            assert(daemon_quiet(c0.daemons@[j as int], self.daemons@[j as int]));
            if hyp || hyp_serv {
                let j2 = choose|j2: int|
                    0 <= j2 < c0.daemons@.len() && (#[trigger] c0.daemons@[j2]).local@
                        == loc@.node && c0.daemons@[j2].store@.contains_key(loc@.uri);
                assert(j2 == j as int);
                assert(c0.daemons@[j as int].store@.contains_key(loc@.uri));
            }
        }
        let now = self.clock;
        let (resp, resp_body) = {
            let od = &mut self.daemons[j];
            od.handle_daemon_request(
                DaemonRequest::Read(loc.uri.clone(), cached_mtime),
                None,
                0,
                now,
            )
        };
        proof {
            if hyp_serv && hyp_new {
                // the cached copy is strictly newer, so the owner must
                // have answered `NotModified`
                let (m, j3) = choose|m: int, j3: int|
                    0 <= m < c0.daemons@[i as int].cache.pairs().len() && 0 <= j3
                        < c0.daemons@.len() && (
                    #[trigger] c0.daemons@[i as int].cache.pairs()[m]).0 == loc_key(loc@) && (
                    #[trigger] c0.daemons@[j3]).local@ == loc@.node
                        && c0.daemons@[j3].store@.contains_key(loc@.uri)
                        && c0.daemons@[i as int].store@[c0.daemons@[i as int].cache.pairs()[m].1].mtime
                        > c0.daemons@[j3].store@[loc@.uri].mtime;
                assert(j3 == j as int);
                match &got {
                    Some(p) => {
                        let m2 = choose|m2: int|
                            0 <= m2 < ps0.len() && ps0[m2] == (loc_key(loc@), p@)
                                && c1.daemons@[i as int].cache.pairs() == seq![ps0[m2]]
                                + ps0.remove(m2);
                        assert(m2 == m) by {
                            if m2 != m {
                                assert(ps0[m2].0 == ps0[m].0);
                                assert(c0.daemons@[i as int].cache.wf());
                                assert(false);
                            }
                        }
                        assert(cached_mtime matches Some(t) && t
                            > c0.daemons@[j as int].store@[loc@.uri].mtime);
                        assert(resp matches DaemonResponse::Read(res) && res matches Err(e)
                            && e is NotModified);
                    },
                    None => {
                        assert((#[trigger] ps0[m]).0 == loc_key(loc@));
                        assert(false);
                    },
                }
            }
        }
        match resp {
            DaemonResponse::Read(Ok(len)) => {
                let b = match resp_body {
                    Some(b) => b,
                    None => {
                        proof {
                            assert(false);
                        }
                        Vec::new()
                    },
                };
                let rand2 = random_u64();
                let now2 = self.clock;
                let cached_ok = {
                    let d = &mut self.daemons[i];
                    d.add_cache_entry(loc, &b, rand2, now2)
                };
                proof {
                    if !cached_ok {
                        // only a first insertion can fail; the cache then
                        // still has no entry under the key
                        assert(got is None);
                        assert(self.daemons@[i as int].cache.pairs() == ps0);
                        if self.daemons@[i as int].cache.pairs().len() > 0 {
                            assert(ps0[0].0 != loc_key(loc@));
                        }
                    }
                }
                proof {
                    assert(self.daemons@[i as int].listening_addr == c0.daemons@[
                        i as int].listening_addr);
                    if hyp {
                        assert(b@ == c0.daemons@[j as int].store@[loc@.uri].bytes);
                    }
                }
                self.tick();
                Ok(b)
            },
            DaemonResponse::Read(Err(e)) => {
                proof {
                    if hyp_serv && !(e is NotModified) {
                        // an owner that holds the file answers the bytes
                        // or `NotModified`, nothing else
                        assert(c0.daemons@[j as int].store@.contains_key(loc@.uri));
                        assert(false);
                    }
                    if hyp {
                        assert(c0.daemons@[j as int].store@.contains_key(loc@.uri));
                        if e is NotModified {
                            // the requester's copy cannot be newer
                            let t = cached_mtime->Some_0;
                            let m = choose|m: int|
                                0 <= m < ps0.len() && ps0[m] == (
                                    loc_key(loc@),
                                    got->Some_0@,
                                ) && c1.daemons@[i as int].cache.pairs() == seq![ps0[m]]
                                    + ps0.remove(m);
                            assert(c0.daemons@[i as int].store@[ps0[m].1].mtime <= c0.daemons@[
                                j as int].store@[loc@.uri].mtime);
                            assert(false);
                        } else {
                            assert(false);
                        }
                    }
                }
                match e {
                    VPFSError::NotModified => {
                        let entry = match got {
                            Some(entry) => entry,
                            None => {
                                proof {
                                    assert(false);
                                }
                                CacheEntry { uri: String::new() }
                            },
                        };
                        match self.daemons[i].store.read(entry.uri.as_str()) {
                            Some(b) => {
                                proof {
                                    // the promoted entry stands at the front,
                                    // its backing file holding what came back
                                    let m = choose|m: int|
                                        0 <= m < ps0.len() && ps0[m] == (loc_key(loc@), entry@)
                                            && c1.daemons@[i as int].cache.pairs() == seq![
                                            ps0[m],
                                        ] + ps0.remove(m);
                                    assert(self.daemons@[i as int].cache.pairs()
                                        == c1.daemons@[i as int].cache.pairs());
                                    assert(self.daemons@[i as int].cache.pairs()[0] == ps0[m]);
                                    assert(self.daemons@[i as int].store@ == c0.daemons@[
                                        i as int].store@);
                                    // what came back is the cached copy
                                    assert((#[trigger] ps0[m]).0 == loc_key(loc@)
                                        && c0.daemons@[i as int].store@.contains_key(ps0[m].1)
                                        && b@ == c0.daemons@[i as int].store@[ps0[m].1].bytes);
                                }
                                Ok(b)
                            },
                            None => {
                                proof {
                                    assert(false);
                                }
                                Err(VPFSError::NotAccessible)
                            },
                        }
                    },
                    e => Err(e),
                }
            },
            _ => {
                proof {
                    assert(false);
                }
                Err(VPFSError::NotAccessible)
            },
        }
    }
}

/// Reachability depends only on identities, addresses, online flags,
/// connections, hosts tables and root fields — not on stores, caches or
/// the clock.
pub proof fn lemma_can_reach_frame(c0: Cluster, c1: Cluster, i: int, n: Seq<char>)
    requires
        0 <= i < c0.daemons@.len(),
        c1.daemons@.len() == c0.daemons@.len(),
        c1.online@ == c0.online@,
        forall|j: int|
            0 <= j < c0.daemons@.len() ==> (#[trigger] c1.daemons@[j]).local@
                == c0.daemons@[j].local@ && c1.daemons@[j].listening_addr@
                == c0.daemons@[j].listening_addr@ && c1.daemons@[j].connections@
                == c0.daemons@[j].connections@ && c1.daemons@[j].known_hosts
                == c0.daemons@[j].known_hosts && c1.daemons@[j].root == c0.daemons@[j].root,
    ensures
        c1.can_reach(i, n) == c0.can_reach(i, n),
        c1.connected(i, n) == c0.connected(i, n),
{
    assert forall|m: Seq<char>, x: int|
        0 <= x < c0.daemons@.len() implies c1.connected(x, m) == c0.connected(x, m) by {
        assert(c1.daemons@[x].connections@ == c0.daemons@[x].connections@);
        if c1.connected(x, m) {
            let k = choose|k: int|
                0 <= k < c1.daemons@[x].connections@.len()
                    && (#[trigger] c1.daemons@[x].connections@[k])@ == m;
            assert(c0.daemons@[x].connections@[k]@ == m);
        }
        if c0.connected(x, m) {
            let k = choose|k: int|
                0 <= k < c0.daemons@[x].connections@.len()
                    && (#[trigger] c0.daemons@[x].connections@[k])@ == m;
            assert(c1.daemons@[x].connections@[k]@ == m);
        }
    }
    assert forall|a: Seq<char>| c1.dialable(a) == c0.dialable(a) by {
        if c1.dialable(a) {
            let j = choose|j: int|
                0 <= j < c1.daemons@.len() && (#[trigger] c1.daemons@[j]).listening_addr@ == a
                    && c1.online@[j];
            assert(c0.daemons@[j].listening_addr@ == a && c0.online@[j]);
        }
        if c0.dialable(a) {
            let j = choose|j: int|
                0 <= j < c0.daemons@.len() && (#[trigger] c0.daemons@[j]).listening_addr@ == a
                    && c0.online@[j];
            assert(c1.daemons@[j].listening_addr@ == a && c1.online@[j]);
        }
    }
    assert forall|m: Seq<char>| c1.deliverable(m) == c0.deliverable(m) by {
        if c1.deliverable(m) {
            let j = choose|j: int|
                0 <= j < c1.daemons@.len() && (#[trigger] c1.daemons@[j]).local@ == m
                    && c1.online@[j];
            assert(c0.daemons@[j].local@ == m && c0.online@[j]);
        }
        if c0.deliverable(m) {
            let j = choose|j: int|
                0 <= j < c0.daemons@.len() && (#[trigger] c0.daemons@[j]).local@ == m
                    && c0.online@[j];
            assert(c1.daemons@[j].local@ == m && c1.online@[j]);
        }
    }
    assert(c1.daemons@[i].known_hosts == c0.daemons@[i].known_hosts);
    if !c1.connected(i, n) && !hosts_no_entry(c1.daemons@[i].known_hosts, n) {
        if exists|a: Seq<char>|
            hosts_entry(#[trigger] c1.daemons@[i].known_hosts, n, a) && c1.dialable(a) {
            let a = choose|a: Seq<char>|
                hosts_entry(#[trigger] c1.daemons@[i].known_hosts, n, a) && c1.dialable(a);
            assert(hosts_entry(c0.daemons@[i].known_hosts, n, a) && c0.dialable(a));
        }
        if exists|a: Seq<char>|
            hosts_entry(#[trigger] c0.daemons@[i].known_hosts, n, a) && c0.dialable(a) {
            let a = choose|a: Seq<char>|
                hosts_entry(#[trigger] c0.daemons@[i].known_hosts, n, a) && c0.dialable(a);
            assert(hosts_entry(c1.daemons@[i].known_hosts, n, a) && c1.dialable(a));
        }
    }
    if !c1.connected(i, n) && hosts_no_entry(c1.daemons@[i].known_hosts, n) {
        match c0.daemons@[i].root {
            Some(r) => {
                let rootbody1 = exists|j: int, a: Seq<char>|
                    0 <= j < c1.daemons@.len() && (#[trigger] c1.daemons@[j]).local@ == r@
                        && #[trigger] hosts_entry(c1.daemons@[j].known_hosts, n, a)
                        && c1.dialable(a);
                let rootbody0 = exists|j: int, a: Seq<char>|
                    0 <= j < c0.daemons@.len() && (#[trigger] c0.daemons@[j]).local@ == r@
                        && #[trigger] hosts_entry(c0.daemons@[j].known_hosts, n, a)
                        && c0.dialable(a);
                if rootbody1 {
                    let (j, a) = choose|j: int, a: Seq<char>|
                        0 <= j < c1.daemons@.len() && (#[trigger] c1.daemons@[j]).local@ == r@
                            && #[trigger] hosts_entry(c1.daemons@[j].known_hosts, n, a)
                            && c1.dialable(a);
                    assert(c0.daemons@[j].local@ == r@ && hosts_entry(
                        c0.daemons@[j].known_hosts,
                        n,
                        a,
                    ) && c0.dialable(a));
                    assert(rootbody0);
                }
                if rootbody0 {
                    let (j, a) = choose|j: int, a: Seq<char>|
                        0 <= j < c0.daemons@.len() && (#[trigger] c0.daemons@[j]).local@ == r@
                            && #[trigger] hosts_entry(c0.daemons@[j].known_hosts, n, a)
                            && c0.dialable(a);
                    assert(c1.daemons@[j].local@ == r@ && hosts_entry(
                        c1.daemons@[j].known_hosts,
                        n,
                        a,
                    ) && c1.dialable(a));
                    assert(rootbody1);
                }
            },
            None => {},
        }
    }
}

/// There is a separator in the path.
pub open spec fn has_slash(s: Seq<char>) -> bool {
    exists|i: int| 0 <= i < s.len() && s[i] == '/'
}

/// Split a path at its last separator into parent and file name, as the
/// resolver recurses; a path without a separator names something in the
/// root directory.
pub fn split_last_slash(path: &str) -> (r: Option<(String, String)>)
    ensures
        match r {
            Some(p) => exists|k: int|
                0 <= k < path@.len() && #[trigger] path@[k] == '/' && (forall|m: int|
                    k < m < path@.len() ==> path@[m] != '/') && p.0@ == path@.take(k) && p.1@
                    == path@.skip(k + 1),
            None => !has_slash(path@),
        },
{
    let n = path.unicode_len();
    let mut k: usize = n;
    while k > 0
        invariant
            n == path@.len(),
            k <= n,
            forall|m: int| k <= m < n ==> path@[m] != '/',
        decreases k,
    {
        k = k - 1;
        if path.get_char(k) == '/' {
            let parent = path.substring_char(0, k).to_owned();
            let name = path.substring_char(k + 1, n).to_owned();
            proof {
                assert(path@[k as int] == '/');
                assert(parent@ =~= path@.take(k as int));
                assert(name@ =~= path@.skip(k + 1));
            }
            return Some((parent, name));
        }
    }
    None
}

/// The position of the last separator, or `-1` when there is none.
pub open spec fn last_slash_at(s: Seq<char>) -> int
    decreases s.len(),
{
    if s.len() == 0 {
        -1
    } else if s[s.len() - 1] == '/' {
        s.len() - 1
    } else {
        last_slash_at(s.drop_last())
    }
}

/// On a path with a separator the last-separator position is in range,
/// holds one, and nothing after it is one.
pub proof fn lemma_last_slash_at(s: Seq<char>)
    requires
        has_slash(s),
    ensures
        0 <= last_slash_at(s) < s.len(),
        s[last_slash_at(s)] == '/',
        forall|m: int| last_slash_at(s) < m < s.len() ==> s[m] != '/',
    decreases s.len(),
{
    if s[s.len() - 1] == '/' {
    } else {
        assert(has_slash(s.drop_last())) by {
            let k = choose|k: int| 0 <= k < s.len() && s[k] == '/';
            assert(k < s.len() - 1);
            assert(s.drop_last()[k] == '/');
        }
        lemma_last_slash_at(s.drop_last());
        assert(s[last_slash_at(s)] == s.drop_last()[last_slash_at(s)]);
        assert(forall|m: int|
            last_slash_at(s) < m < s.len() - 1 ==> s[m] == s.drop_last()[m]);
    }
}

/// There is one position with a separator and none after it.
pub proof fn lemma_last_slash_unique(s: Seq<char>, k: int)
    requires
        0 <= k < s.len(),
        s[k] == '/',
        forall|m: int| k < m < s.len() ==> s[m] != '/',
    ensures
        k == last_slash_at(s),
{
    assert(has_slash(s));
    lemma_last_slash_at(s);
    let l = last_slash_at(s);
    if k < l {
        assert(s[l] == '/');
        assert(false);
    }
    if l < k {
        assert(s[k] == '/');
        assert(false);
    }
}

/// The parent prefix of a path with a separator.
pub open spec fn parent_of(path: Seq<char>) -> Seq<char> {
    path.take(last_slash_at(path))
}

/// The final segment of a path with a separator.
pub open spec fn base_of(path: Seq<char>) -> Seq<char> {
    path.skip(last_slash_at(path) + 1)
}

/// Why a resolution that stays on one daemon's own files stops.
pub enum ResolveStop {
    /// No entry of the name, or a missing directory file.
    Missing,
    /// A parent resolved to an entry that is not a directory.
    NotDir,
    /// The walk reached an entry owned by another node: what one
    /// daemon's files alone determine ends here.
    Offsite,
}

/// Resolve a path against one daemon's own files: the final segment is
/// looked up in the directory file its parent prefix names, recursively,
/// a bare name in the root directory file.  `Offsite` marks a walk that
/// leaves the daemon; up to that point its files fully determine the
/// answer, `NotADirectory` propagation included.
pub open spec fn local_resolve(
    st: Map<Seq<char>, FileV>,
    local: Seq<char>,
    path: Seq<char>,
) -> Result<crate::messages::EntryV, ResolveStop>
    decreases path.len(),
{
    if !has_slash(path) {
        if st.contains_key(root_uri_spec()) {
            match find_in_dir(st[root_uri_spec()].bytes, path) {
                Some(e) => Ok(e),
                None => Err(ResolveStop::Missing),
            }
        } else {
            Err(ResolveStop::Missing)
        }
    } else {
        let k = last_slash_at(path);
        proof {
            lemma_last_slash_at(path);
        }
        match local_resolve(st, local, path.take(k)) {
            Ok(pe) => if !pe.is_dir {
                Err(ResolveStop::NotDir)
            } else if pe.loc.node != local {
                Err(ResolveStop::Offsite)
            } else if st.contains_key(pe.loc.uri) {
                match find_in_dir(st[pe.loc.uri].bytes, path.skip(k + 1)) {
                    Some(e) => Ok(e),
                    None => Err(ResolveStop::Missing),
                }
            } else {
                Err(ResolveStop::Missing)
            },
            Err(stop) => Err(stop),
        }
    }
}

/// A resolution that succeeded keeps succeeding, with the same entry,
/// after files are added: every step read only files that are still
/// there, unchanged.
pub proof fn lemma_local_resolve_grow(
    st0: Map<Seq<char>, FileV>,
    st1: Map<Seq<char>, FileV>,
    local: Seq<char>,
    path: Seq<char>,
)
    requires
        forall|k: Seq<char>|
            #[trigger] st0.contains_key(k) ==> st1.contains_key(k) && st1[k] == st0[k],
        local_resolve(st0, local, path) is Ok,
    ensures
        local_resolve(st1, local, path) == local_resolve(st0, local, path),
    decreases path.len(),
{
    if !has_slash(path) {
    } else {
        let k = last_slash_at(path);
        lemma_last_slash_at(path);
        lemma_local_resolve_grow(st0, st1, local, path.take(k));
    }
}

impl Cluster {
    /// What resolving a single-segment name on the root daemon itself
    /// answers: the first root-directory entry with that name.
    pub open spec fn root_local_lookup(d: Daemon, name: Seq<char>) -> Result<
        crate::messages::EntryV,
        (),
    > {
        if d.store@.contains_key(root_uri_spec()) {
            match find_in_dir(d.store@[root_uri_spec()].bytes, name) {
                Some(e) => Ok(e),
                None => Err(()),
            }
        } else {
            Err(())
        }
    }

    /// Resolve a slash-separated path from daemon `i`, walking directories
    /// that may live on remote peers, falling back to cached directories
    /// when an owner is unreachable; a result obtained that way is handed
    /// back as `CacheNeededForTraversal`.
    #[verifier::rlimit(100)]
    pub fn recursive_find(&mut self, i: usize, path: &str) -> (r: Result<
        DirectoryEntry,
        VPFSError,
    >)
        requires
            old(self).wf(),
            i < old(self).daemons@.len(),
            old(self).daemons@[i as int].cache_clean(),
        ensures
            final(self).wf(),
            final(self).daemons@.len() == old(self).daemons@.len(),
            final(self).online@ == old(self).online@,
            final(self).clock >= old(self).clock,
            final(self).daemons@[i as int].cache_clean(),
            cluster_resolve_frame(*old(self), *final(self), i as int),
            // what a resolved entry is: it carries the final segment's
            // name, however deep the path and wherever its directories
            // live; a cache-assisted resolution is marked as such and
            // carries the same kind of entry
            (match r {
                Ok(e) => e@.name == (if has_slash(path@) {
                    base_of(path@)
                } else {
                    path@
                }),
                Err(e) => match e {
                    VPFSError::CacheNeededForTraversal(en) => en@.name == (if has_slash(path@) {
                        base_of(path@)
                    } else {
                        path@
                    }),
                    _ => true,
                },
            }),
            // on the root daemon a single-segment path is answered from
            // the local root directory file, exactly, and nothing moves
            (!has_slash(path@) && (old(self).daemons@[i as int].root matches Some(rn) && rn@
                == old(self).daemons@[i as int].local@)) ==> final(self).daemons == old(self).daemons && final(self).clock == old(self).clock
                && match Cluster::root_local_lookup(old(self).daemons@[i as int], path@) {
                Ok(ev) => r matches Ok(e) && e@ == ev,
                Err(u) => r matches Err(e) && e is DoesNotExist,
            },
            // on the root daemon everything its own files determine is
            // answered exactly, nested paths and `NotADirectory`
            // propagation included, and nothing moves; only a walk that
            // leaves the daemon is open
            (old(self).daemons@[i as int].root matches Some(rn) && rn@ == old(self).daemons@[i as int].local@) ==> match local_resolve(
                old(self).daemons@[i as int].store@,
                old(self).daemons@[i as int].local@,
                path@,
            ) {
                Ok(ev) => (r matches Ok(e) && e@ == ev) && final(self).daemons == old(self).daemons && final(self).clock == old(self).clock,
                Err(stop) => match stop {
                    ResolveStop::Missing => (r matches Err(e) && e is DoesNotExist) && final(self).daemons == old(self).daemons && final(self).clock == old(self).clock,
                    ResolveStop::NotDir => (r matches Err(e) && e is NotADirectory) && final(self).daemons == old(self).daemons && final(self).clock == old(self).clock,
                    ResolveStop::Offsite => true,
                },
            },
            // on a joined daemon a bare name is answered from the remote
            // root directory, exactly, when the root is connected, online,
            // holds its directory file, and no cached copy claims to be
            // newer
            (!has_slash(path@) && (old(self).daemons@[i as int].root matches Some(rn) && rn@
                != old(self).daemons@[i as int].local@) && old(self).owner_serves(
                i as int,
                (crate::messages::LocV {
                    node: old(self).daemons@[i as int].root->Some_0@,
                    uri: root_uri_spec(),
                }),
            ) && !old(self).cached_newer(
                i as int,
                (crate::messages::LocV {
                    node: old(self).daemons@[i as int].root->Some_0@,
                    uri: root_uri_spec(),
                }),
            )) ==> match r {
                Ok(e) => exists|j: int|
                    0 <= j < old(self).daemons@.len() && (#[trigger] old(self).daemons@[j]).local@
                        == old(self).daemons@[i as int].root->Some_0@ && find_in_dir(
                        old(self).daemons@[j].store@[root_uri_spec()].bytes,
                        path@,
                    ) == Some(e@),
                Err(err) => err is DoesNotExist && exists|j: int|
                    0 <= j < old(self).daemons@.len() && (#[trigger] old(self).daemons@[j]).local@
                        == old(self).daemons@[i as int].root->Some_0@ && find_in_dir(
                        old(self).daemons@[j].store@[root_uri_spec()].bytes,
                        path@,
                    ) is None,
            },
        decreases path@.len(),
    {
        let ghost c0 = *old(self);
        let ghost st0 = c0.daemons@[i as int].store@;
        let ghost localn = c0.daemons@[i as int].local@;
        let ghost rl2 = c0.daemons@[i as int].root matches Some(rn) && rn@ == localn;
        let ghost rootloc = crate::messages::LocV {
            node: c0.daemons@[i as int].root->Some_0@,
            uri: root_uri_spec(),
        };
        let ghost hyp_rr = !has_slash(path@) && c0.daemons@[i as int].root is Some
            && c0.daemons@[i as int].root->Some_0@ != localn && c0.owner_serves(i as int, rootloc)
            && !c0.cached_newer(i as int, rootloc);
        match split_last_slash(path) {
            Some((parent, name)) => {
                proof {
                    let k = choose|k: int|
                        0 <= k < path@.len() && #[trigger] path@[k] == '/' && (forall|m: int|
                            k < m < path@.len() ==> path@[m] != '/') && parent@ == path@.take(k)
                            && name@ == path@.skip(k + 1);
                    assert(has_slash(path@));
                    lemma_last_slash_unique(path@, k);
                    assert(parent@ == path@.take(last_slash_at(path@)));
                    assert(name@ == path@.skip(last_slash_at(path@) + 1));
                }
                let parent_result = self.recursive_find(i, parent.as_str());
                match parent_result {
                    Ok(parent_entry) => {
                        proof {
                            if rl2 {
                                match local_resolve(st0, localn, parent@) {
                                    Ok(pe) => {
                                        assert(parent_entry@ == pe);
                                        assert(self.daemons == c0.daemons);
                                    },
                                    Err(stop) => {
                                        assert(stop is Offsite);
                                        assert(local_resolve(st0, localn, path@) == Err::<
                                            crate::messages::EntryV,
                                            ResolveStop,
                                        >(ResolveStop::Offsite));
                                    },
                                }
                            }
                        }
                        if !parent_entry.is_dir {
                            proof {
                                if rl2 {
                                    match local_resolve(st0, localn, parent@) {
                                        Ok(pe) => {
                                            assert(!pe.is_dir);
                                            assert(local_resolve(st0, localn, path@) == Err::<
                                                crate::messages::EntryV,
                                                ResolveStop,
                                            >(ResolveStop::NotDir));
                                        },
                                        Err(stop) => {},
                                    }
                                }
                            }
                            return Err(VPFSError::NotADirectory);
                        }
                        if string_eq(&parent_entry.location.node.name, &self.daemons[i].local.name)
                         {
                            let res = match self.daemons[i].search_directory(
                                name.as_str(),
                                parent_entry.location.uri.as_str(),
                            ) {
                                Ok(e) => Ok(e),
                                Err(e) => Err(e),
                            };
                            proof {
                                if rl2 {
                                    match local_resolve(st0, localn, parent@) {
                                        Ok(pe) => {
                                            assert(self.daemons@[i as int].store@ == st0);
                                            assert(pe.is_dir && pe.loc.node == localn);
                                            match &res {
                                                Ok(e) => {
                                                    assert(st0.contains_key(pe.loc.uri)
                                                        && find_in_dir(
                                                        st0[pe.loc.uri].bytes,
                                                        name@,
                                                    ) == Some(e@));
                                                    assert(local_resolve(st0, localn, path@)
                                                        == Ok::<
                                                        crate::messages::EntryV,
                                                        ResolveStop,
                                                    >(e@));
                                                },
                                                Err(e) => {
                                                    assert(local_resolve(st0, localn, path@)
                                                        == Err::<
                                                        crate::messages::EntryV,
                                                        ResolveStop,
                                                    >(ResolveStop::Missing));
                                                },
                                            }
                                        },
                                        Err(stop) => {},
                                    }
                                }
                            }
                            res
                        } else {
                            proof {
                                if rl2 {
                                    match local_resolve(st0, localn, parent@) {
                                        Ok(pe) => {
                                            assert(pe.loc.node != localn);
                                            assert(local_resolve(st0, localn, path@) == Err::<
                                                crate::messages::EntryV,
                                                ResolveStop,
                                            >(ResolveStop::Offsite));
                                        },
                                        Err(stop) => {},
                                    }
                                }
                            }
                            let ghost cmid = *self;
                            let rr = self.read_remote(i, &parent_entry.location);
                            proof {
                                frame_after_remote_read(cmid, *self, i as int);
                                lemma_resolve_frame_trans(c0, cmid, *self, i as int);
                            }
                            match rr {
                                Ok(dir_bytes) => {
                                    match search_dir_bytes(&dir_bytes, name.as_str()) {
                                        Some(e) => Ok(e),
                                        None => Err(VPFSError::DoesNotExist),
                                    }
                                },
                                Err(VPFSError::OnlyInCache(cache_loc)) => {
                                    match self.daemons[i].search_directory(
                                        name.as_str(),
                                        cache_loc.uri.as_str(),
                                    ) {
                                        Ok(e) => Err(VPFSError::CacheNeededForTraversal(e)),
                                        Err(e) => Err(e),
                                    }
                                },
                                Err(e) => Err(e),
                            }
                        }
                    },
                    Err(VPFSError::CacheNeededForTraversal(parent_entry)) => {
                        proof {
                            if rl2 {
                                match local_resolve(st0, localn, parent@) {
                                    Ok(pe) => {
                                        assert(false);
                                    },
                                    Err(stop) => {
                                        assert(stop is Offsite);
                                        assert(local_resolve(st0, localn, path@) == Err::<
                                            crate::messages::EntryV,
                                            ResolveStop,
                                        >(ResolveStop::Offsite));
                                    },
                                }
                            }
                        }
                        if !parent_entry.is_dir {
                            return Err(VPFSError::NotADirectory);
                        }
                        if string_eq(&parent_entry.location.node.name, &self.daemons[i].local.name)
                         {
                            match self.daemons[i].search_directory(
                                name.as_str(),
                                parent_entry.location.uri.as_str(),
                            ) {
                                Ok(e) => Err(VPFSError::CacheNeededForTraversal(e)),
                                Err(e) => Err(e),
                            }
                        } else {
                            let ghost cmid = *self;
                            let rr = self.read_remote(i, &parent_entry.location);
                            proof {
                                frame_after_remote_read(cmid, *self, i as int);
                                lemma_resolve_frame_trans(c0, cmid, *self, i as int);
                            }
                            match rr {
                                Ok(dir_bytes) => {
                                    match search_dir_bytes(&dir_bytes, name.as_str()) {
                                        Some(e) => Err(VPFSError::CacheNeededForTraversal(e)),
                                        None => Err(VPFSError::DoesNotExist),
                                    }
                                },
                                Err(VPFSError::OnlyInCache(cache_loc)) => {
                                    match self.daemons[i].search_directory(
                                        name.as_str(),
                                        cache_loc.uri.as_str(),
                                    ) {
                                        Ok(e) => Err(VPFSError::CacheNeededForTraversal(e)),
                                        Err(e) => Err(e),
                                    }
                                },
                                Err(e) => Err(e),
                            }
                        }
                    },
                    Err(e) => {
                        proof {
                            if rl2 {
                                match local_resolve(st0, localn, parent@) {
                                    Ok(pe) => {
                                        assert(false);
                                    },
                                    Err(stop) => match stop {
                                        ResolveStop::Missing => {
                                            assert(e is DoesNotExist);
                                            assert(self.daemons == c0.daemons && self.clock
                                                == c0.clock);
                                            assert(local_resolve(st0, localn, path@) == Err::<
                                                crate::messages::EntryV,
                                                ResolveStop,
                                            >(ResolveStop::Missing));
                                        },
                                        ResolveStop::NotDir => {
                                            assert(e is NotADirectory);
                                            assert(self.daemons == c0.daemons && self.clock
                                                == c0.clock);
                                            assert(local_resolve(st0, localn, path@) == Err::<
                                                crate::messages::EntryV,
                                                ResolveStop,
                                            >(ResolveStop::NotDir));
                                        },
                                        ResolveStop::Offsite => {
                                            assert(local_resolve(st0, localn, path@) == Err::<
                                                crate::messages::EntryV,
                                                ResolveStop,
                                            >(ResolveStop::Offsite));
                                        },
                                    },
                                }
                            }
                        }
                        Err(e)
                    },
                }
            },
            None => {
                // the path names something in the root directory
                let root_node = match &self.daemons[i].root {
                    Some(r) => r.clone(),
                    None => {
                        return Err(VPFSError::NotAccessible);
                    },
                };
                if string_eq(&root_node.name, &self.daemons[i].local.name) {
                    let ru = root_uri();
                    match self.daemons[i].search_directory(path, ru.as_str()) {
                        Ok(e) => {
                            proof {
                                crate::codec::lemma_find_in_dir_seq(
                                    self.daemons@[i as int].store@[root_uri_spec()].bytes,
                                    path@,
                                );
                                assert(local_resolve(st0, localn, path@) == Ok::<
                                    crate::messages::EntryV,
                                    ResolveStop,
                                >(e@));
                            }
                            Ok(e)
                        },
                        Err(e) => {
                            proof {
                                assert(local_resolve(st0, localn, path@) == Err::<
                                    crate::messages::EntryV,
                                    ResolveStop,
                                >(ResolveStop::Missing));
                            }
                            Err(e)
                        },
                    }
                } else {
                    let root_loc = Location { node: root_node, uri: root_uri() };
                    let ghost cmid = *self;
                    proof {
                        assert(root_loc@ == rootloc);
                        if hyp_rr {
                            // the remote read's success hypothesis: the
                            // connected, online root holds the file and no
                            // cached copy is strictly newer
                            assert forall|m: int, j: int|
                                0 <= m < c0.daemons@[i as int].cache.pairs().len() && 0 <= j
                                    < c0.daemons@.len() && (
                                #[trigger] c0.daemons@[i as int].cache.pairs()[m]).0 == loc_key(
                                    rootloc,
                                ) && (#[trigger] c0.daemons@[j]).local@ == rootloc.node
                                    && c0.daemons@[j].store@.contains_key(rootloc.uri) implies
                                c0.daemons@[i as int].store@[c0.daemons@[
                                i as int].cache.pairs()[m].1].mtime <= c0.daemons@[
                                j].store@[rootloc.uri].mtime by {
                                if c0.daemons@[i as int].store@[c0.daemons@[
                                    i as int].cache.pairs()[m].1].mtime > c0.daemons@[
                                    j].store@[rootloc.uri].mtime {
                                    assert(c0.cached_newer(i as int, rootloc));
                                }
                            }
                        }
                    }
                    let rr = self.read_remote(i, &root_loc);
                    proof {
                        frame_after_remote_read(cmid, *self, i as int);
                        lemma_resolve_frame_trans(c0, cmid, *self, i as int);
                    }
                    match rr {
                        Ok(root_dir) => {
                            proof {
                                if hyp_rr {
                                    let j = choose|j: int|
                                        0 <= j < c0.daemons@.len() && (
                                        #[trigger] c0.daemons@[j]).local@ == rootloc.node
                                            && root_dir@ == c0.daemons@[
                                            j].store@[rootloc.uri].bytes;
                                    assert(c0.daemons@[j].local@ == rootloc.node
                                        && root_dir@ == c0.daemons@[
                                        j].store@[root_uri_spec()].bytes);
                                }
                            }
                            match search_dir_bytes(&root_dir, path) {
                                Some(e) => {
                                    proof {
                                        crate::codec::lemma_find_in_dir_seq(root_dir@, path@);
                                    }
                                    Ok(e)
                                },
                                None => Err(VPFSError::DoesNotExist),
                            }
                        },
                        Err(VPFSError::OnlyInCache(cache_loc)) => {
                            proof {
                                if hyp_rr {
                                    assert(false);
                                }
                            }
                            match self.daemons[i].search_directory(path, cache_loc.uri.as_str()) {
                                Ok(e) => {
                                    proof {
                                        crate::codec::lemma_find_in_dir_seq(
                                            self.daemons@[i as int].store@[cache_loc@.uri].bytes,
                                            path@,
                                        );
                                    }
                                    Err(VPFSError::CacheNeededForTraversal(e))
                                },
                                Err(e) => Err(e),
                            }
                        },
                        Err(e) => {
                            proof {
                                if hyp_rr {
                                    assert(false);
                                }
                            }
                            Err(e)
                        },
                    }
                }
            },
        }
    }
}

/// What a resolution may change: the requester's cache state (backing
/// files and the index file) and nothing else; every daemon's identity,
/// tables and files stay, but for served reads that touch nothing.
pub open spec fn cluster_resolve_frame(c0: Cluster, c1: Cluster, i: int) -> bool {
    &&& c1.daemons@.len() == c0.daemons@.len()
    &&& c1.online@ == c0.online@
    &&& forall|j: int|
        0 <= j < c0.daemons@.len() ==> (#[trigger] c1.daemons@[j]).local == c0.daemons@[j].local
            && c1.daemons@[j].root == c0.daemons@[j].root && c1.daemons@[j].listening_addr
            == c0.daemons@[j].listening_addr
    &&& forall|j: int|
        0 <= j < c0.daemons@.len() && j != i ==> (#[trigger] c1.daemons@[j]).known_hosts
            == c0.daemons@[j].known_hosts && c1.daemons@[j].store@ == c0.daemons@[j].store@
            && c1.daemons@[j].cache == c0.daemons@[j].cache
    &&& (c0.daemons@[i].known_hosts is Some ==> c1.daemons@[i].known_hosts is Some)
    &&& forall|k: Seq<char>|
        c0.daemons@[i].store@.contains_key(k) && !c0.daemons@[i].cache.is_backing(k)
            ==> !c1.daemons@[i].cache.is_backing(k)
    &&& forall|k: Seq<char>|
        c0.daemons@[i].store@.contains_key(k) && !c0.daemons@[i].cache.is_backing(k) && k
            != Daemon::cache_file_spec() ==> c1.daemons@[i].store@.contains_key(k)
            && c1.daemons@[i].store@[k] == c0.daemons@[i].store@[k]
}

/// The resolution frame composes across two steps.
pub proof fn lemma_resolve_frame_trans(c0: Cluster, c1: Cluster, c2: Cluster, i: int)
    requires
        0 <= i < c0.daemons@.len(),
        cluster_resolve_frame(c0, c1, i),
        cluster_resolve_frame(c1, c2, i),
        c2.daemons@[i].cache_clean(),
    ensures
        cluster_resolve_frame(c0, c2, i),
{
    assert forall|k: Seq<char>|
        c0.daemons@[i].store@.contains_key(k) && !c0.daemons@[i].cache.is_backing(k) && k
            != Daemon::cache_file_spec() implies c2.daemons@[i].store@.contains_key(k)
        && c2.daemons@[i].store@[k] == c0.daemons@[i].store@[k] by {
        assert(c1.daemons@[i].store@.contains_key(k) && c1.daemons@[i].store@[k]
            == c0.daemons@[i].store@[k]);
        assert(!c1.daemons@[i].cache.is_backing(k));
    }
    assert forall|k: Seq<char>|
        c0.daemons@[i].store@.contains_key(k) && !c0.daemons@[i].cache.is_backing(k) implies !(
        c2.daemons@[i].cache.is_backing(k)) by {
        assert(!c1.daemons@[i].cache.is_backing(k));
        if k == Daemon::cache_file_spec() {
            // a clean cache never backs the index file
            crate::daemon::lemma_clean_not_reserved(c2.daemons@[i]);
        } else {
            assert(c1.daemons@[i].store@.contains_key(k));
        }
    }
}

impl Cluster {
    /// Place a new file or directory at the chosen owning node and wire
    /// it into its parent directory: allocate the file on the owner,
    /// resolve the parent (the root directory for a bare name), append
    /// the entry — rejecting duplicate names with the existing entry —
    /// and for a directory seed it with its `.` and `..` entries.  On a
    /// failed append the allocated file is removed again.
    #[verifier::rlimit(100)]
    pub fn place_file(&mut self, i: usize, path: &str, at: &Node, is_dir: bool) -> (r: Result<
        Location,
        VPFSError,
    >)
        requires
            old(self).wf(),
            i < old(self).daemons@.len(),
            old(self).daemons@[i as int].cache_clean(),
        ensures
            final(self).wf(),
            final(self).daemons@.len() == old(self).daemons@.len(),
            final(self).online@ == old(self).online@,
            final(self).clock >= old(self).clock,
            // the append target may in principle collide with a cache
            // backing file; on the exactly-specified root-local path and
            // on every failure path the cache stays clean
            ((!has_slash(path@) && at@ == old(self).daemons@[i as int].local@ && (old(self).daemons@[i as int].root matches Some(rn) && rn@ == old(self).daemons@[i as int].local@)) || r is Err) ==> final(self).daemons@[i as int].cache_clean(),
            forall|j: int|
                0 <= j < old(self).daemons@.len() ==> (#[trigger] final(self).daemons@[j]).local
                    == old(self).daemons@[j].local && final(self).daemons@[j].root == old(self).daemons@[j].root && final(self).daemons@[j].listening_addr == old(self).daemons@[j].listening_addr,
            // a bare name placed at the root daemon by the root daemon
            // itself goes into the local root directory file, exactly
            (!has_slash(path@) && at@ == old(self).daemons@[i as int].local@ && (old(self).daemons@[i as int].root matches Some(rn) && rn@ == old(self).daemons@[i as int].local@)) ==> match r {
                Ok(l) => {
                    &&& old(self).daemons@[i as int].store@.contains_key(root_uri_spec())
                    &&& find_in_dir(
                        old(self).daemons@[i as int].store@[root_uri_spec()].bytes,
                        path@,
                    ) is None
                    &&& l@.node == old(self).daemons@[i as int].local@
                    &&& !old(self).daemons@[i as int].store@.contains_key(l@.uri)
                    &&& l@.uri != root_uri_spec()
                    &&& final(self).daemons@[i as int].store@.contains_key(root_uri_spec())
                    &&& final(self).daemons@[i as int].store@[root_uri_spec()].bytes == old(self).daemons@[i as int].store@[root_uri_spec()].bytes + enc_entry(
                        crate::messages::EntryV { loc: l@, name: path@, is_dir: is_dir },
                    )
                    &&& final(self).daemons@[i as int].store@.contains_key(l@.uri)
                    &&& is_dir ==> wf_dir(final(self).daemons@[i as int].store@[l@.uri].bytes)
                        && dir_seq(final(self).daemons@[i as int].store@[l@.uri].bytes) =~= seq![
                        crate::messages::EntryV { loc: l@, name: "."@, is_dir: true },
                        crate::messages::EntryV {
                            loc: crate::messages::LocV {
                                node: old(self).daemons@[i as int].local@,
                                uri: root_uri_spec(),
                            },
                            name: ".."@,
                            is_dir: true,
                        },
                    ]
                    // the whole store moves by exactly the new file, the
                    // root directory's grown record, and the seeding
                    &&& is_dir ==> exists|t1: u64, t2: u64, t3: u64|
                        #![auto]
                        final(self).daemons@[i as int].store@ == old(self).daemons@[i as int].store@.insert(
                            l@.uri,
                            crate::store::FileV { bytes: Seq::empty(), mtime: t1 },
                        ).insert(
                            root_uri_spec(),
                            crate::store::FileV {
                                bytes: old(self).daemons@[i as int].store@[root_uri_spec()].bytes
                                    + enc_entry(
                                    crate::messages::EntryV {
                                        loc: l@,
                                        name: path@,
                                        is_dir: true,
                                    },
                                ),
                                mtime: t2,
                            },
                        ).insert(
                            l@.uri,
                            crate::store::FileV {
                                bytes: enc_entry(
                                    crate::messages::EntryV {
                                        loc: l@,
                                        name: "."@,
                                        is_dir: true,
                                    },
                                ) + enc_entry(
                                    crate::messages::EntryV {
                                        loc: crate::messages::LocV {
                                            node: old(self).daemons@[i as int].local@,
                                            uri: root_uri_spec(),
                                        },
                                        name: ".."@,
                                        is_dir: true,
                                    },
                                ),
                                mtime: t3,
                            },
                        )
                    &&& !is_dir ==> exists|t1: u64, t2: u64|
                        #![auto]
                        final(self).daemons@[i as int].store@ == old(self).daemons@[i as int].store@.insert(
                            l@.uri,
                            crate::store::FileV { bytes: Seq::empty(), mtime: t1 },
                        ).insert(
                            root_uri_spec(),
                            crate::store::FileV {
                                bytes: old(self).daemons@[i as int].store@[root_uri_spec()].bytes
                                    + enc_entry(
                                    crate::messages::EntryV {
                                        loc: l@,
                                        name: path@,
                                        is_dir: false,
                                    },
                                ),
                                mtime: t2,
                            },
                        )
                },
                Err(e) => match e {
                    VPFSError::AlreadyExists(existing) => {
                        &&& old(self).daemons@[i as int].store@.contains_key(root_uri_spec())
                        &&& find_in_dir(
                            old(self).daemons@[i as int].store@[root_uri_spec()].bytes,
                            path@,
                        ) == Some(existing@)
                        &&& final(self).daemons@[i as int].store@ == old(self).daemons@[i as int].store@
                    },
                    VPFSError::DoesNotExist => !old(self).daemons@[i as int].store@.contains_key(root_uri_spec()),
                    VPFSError::NotAccessible => exists|k: Seq<char>|
                        old(self).daemons@[i as int].store@.contains_key(k) && k.len()
                            >= usize::MAX,
                    _ => false,
                },
            },
            // a nested path placed by the root daemon at itself, whose
            // parent resolution stays on its own files and names a local
            // directory whose file exists: the parent directory gains
            // exactly the new entry, a duplicate final segment is refused
            // with the existing entry and nothing moves, and nothing else
            // can go wrong
            (has_slash(path@) && at@ == old(self).daemons@[i as int].local@ && (old(self).daemons@[i as int].root matches Some(rn) && rn@ == old(self).daemons@[i as int].local@)
                && local_resolve(
                old(self).daemons@[i as int].store@,
                old(self).daemons@[i as int].local@,
                parent_of(path@),
            ) is Ok && local_resolve(
                old(self).daemons@[i as int].store@,
                old(self).daemons@[i as int].local@,
                parent_of(path@),
            )->Ok_0.is_dir && local_resolve(
                old(self).daemons@[i as int].store@,
                old(self).daemons@[i as int].local@,
                parent_of(path@),
            )->Ok_0.loc.node == old(self).daemons@[i as int].local@ && old(self).daemons@[i as int].store@.contains_key(
                local_resolve(
                    old(self).daemons@[i as int].store@,
                    old(self).daemons@[i as int].local@,
                    parent_of(path@),
                )->Ok_0.loc.uri,
            )) ==> (local_resolve(
                old(self).daemons@[i as int].store@,
                old(self).daemons@[i as int].local@,
                parent_of(path@),
            ) matches Ok(pe) ==> match r {
                Ok(l) => {
                    &&& find_in_dir(
                        old(self).daemons@[i as int].store@[pe.loc.uri].bytes,
                        base_of(path@),
                    ) is None
                    &&& l@.node == old(self).daemons@[i as int].local@
                    &&& !old(self).daemons@[i as int].store@.contains_key(l@.uri)
                    &&& l@.uri != pe.loc.uri
                    &&& final(self).daemons@[i as int].store@.contains_key(pe.loc.uri)
                    &&& final(self).daemons@[i as int].store@[pe.loc.uri].bytes == old(self).daemons@[i as int].store@[pe.loc.uri].bytes + enc_entry(
                        crate::messages::EntryV {
                            loc: l@,
                            name: base_of(path@),
                            is_dir: is_dir,
                        },
                    )
                    &&& final(self).daemons@[i as int].store@.contains_key(l@.uri)
                    &&& is_dir ==> wf_dir(final(self).daemons@[i as int].store@[l@.uri].bytes)
                        && dir_seq(final(self).daemons@[i as int].store@[l@.uri].bytes) =~= seq![
                        crate::messages::EntryV { loc: l@, name: "."@, is_dir: true },
                        crate::messages::EntryV { loc: pe.loc, name: ".."@, is_dir: true },
                    ]
                    &&& !is_dir ==> final(self).daemons@[i as int].store@[l@.uri].bytes
                        == Seq::<u8>::empty()
                },
                Err(e) => match e {
                    VPFSError::AlreadyExists(existing) => find_in_dir(
                        old(self).daemons@[i as int].store@[pe.loc.uri].bytes,
                        base_of(path@),
                    ) == Some(existing@) && final(self).daemons@[i as int].store@ == old(self).daemons@[i as int].store@,
                    VPFSError::NotAccessible => exists|k: Seq<char>|
                        old(self).daemons@[i as int].store@.contains_key(k) && k.len()
                            >= usize::MAX,
                    _ => false,
                },
            }),
            // a bare file name placed at the remote root by a joined
            // daemon: when the root is reachable, online, holds its root
            // directory and no degenerate name, the root's directory gains
            // exactly the new entry beside the fresh empty file, a
            // duplicate is refused with the existing entry and the
            // allocation rolled back, and nothing else can go wrong
            (!has_slash(path@) && (old(self).daemons@[i as int].root matches Some(rn) && rn@
                != old(self).daemons@[i as int].local@ && at@ == rn@) && old(self).can_reach(
                i as int,
                at@,
            ) && old(self).deliverable(at@) && (forall|j: int|
                0 <= j < old(self).daemons@.len() && (#[trigger] old(self).daemons@[j]).local@
                    == at@ ==> old(self).daemons@[j].store@.contains_key(root_uri_spec()))
                && (forall|j: int, k: Seq<char>|
                0 <= j < old(self).daemons@.len() && old(self).daemons@[j].local@ == at@
                    && #[trigger] old(self).daemons@[j].store@.contains_key(k) ==> k.len()
                    < usize::MAX) && !is_dir) ==> match r {
                Ok(l) => l@.node == at@ && final(self).connected(i as int, at@) && forall|j: int|
                    0 <= j < old(self).daemons@.len() && (#[trigger] old(self).daemons@[j]).local@
                        == at@ ==> {
                        &&& find_in_dir(
                            old(self).daemons@[j].store@[root_uri_spec()].bytes,
                            path@,
                        ) is None
                        &&& !old(self).daemons@[j].store@.contains_key(l@.uri)
                        &&& final(self).daemons@[j].store@.contains_key(root_uri_spec())
                        &&& final(self).daemons@[j].store@[root_uri_spec()].bytes == old(self).daemons@[j].store@[root_uri_spec()].bytes + enc_entry(
                            crate::messages::EntryV { loc: l@, name: path@, is_dir: false },
                        )
                        &&& final(self).daemons@[j].store@.contains_key(l@.uri)
                        &&& final(self).daemons@[j].store@[l@.uri].bytes == Seq::<u8>::empty()
                    },
                Err(e) => match e {
                    VPFSError::AlreadyExists(existing) => forall|j: int|
                        0 <= j < old(self).daemons@.len() && (#[trigger] old(self).daemons@[j]).local@ == at@ ==> find_in_dir(
                            old(self).daemons@[j].store@[root_uri_spec()].bytes,
                            path@,
                        ) == Some(existing@) && final(self).daemons@[j].store@ == old(self).daemons@[j].store@,
                    _ => false,
                },
            },
    {
        let ghost c0 = *old(self);
        let ghost rl = !has_slash(path@) && at@ == c0.daemons@[i as int].local@ && (
        c0.daemons@[i as int].root matches Some(rn) && rn@ == c0.daemons@[i as int].local@);
        let ghost st0 = c0.daemons@[i as int].store@;
        let ghost localn = c0.daemons@[i as int].local@;
        let ghost lrp = local_resolve(st0, localn, parent_of(path@));
        let ghost np = has_slash(path@) && at@ == localn && (
        c0.daemons@[i as int].root matches Some(rn) && rn@ == localn) && lrp is Ok
            && lrp->Ok_0.is_dir && lrp->Ok_0.loc.node == localn && st0.contains_key(
            lrp->Ok_0.loc.uri,
        );
        let ghost rp = !has_slash(path@) && (c0.daemons@[i as int].root matches Some(rn) && rn@
            != localn && at@ == rn@) && c0.can_reach(i as int, at@) && c0.deliverable(at@) && (
        forall|j: int|
            0 <= j < c0.daemons@.len() && (#[trigger] c0.daemons@[j]).local@ == at@
                ==> c0.daemons@[j].store@.contains_key(root_uri_spec())) && (forall|
            j: int,
            k: Seq<char>,
        |
            0 <= j < c0.daemons@.len() && c0.daemons@[j].local@ == at@
                && #[trigger] c0.daemons@[j].store@.contains_key(k) ==> k.len() < usize::MAX)
            && !is_dir;
        // 1. allocate the file on the owning node
        let local_owner = string_eq(&at.name, &self.daemons[i].local.name);
        let uri: String = if local_owner {
            let rand = random_u64();
            let now = self.clock;
            let alloc_r = {
                let d = &mut self.daemons[i];
                let ghost ps = d.cache.pairs();
                let alloc_r = d.store.alloc_uri(rand, now);
                proof {
                    if alloc_r is Some {
                        assert(forall|m: int|
                            0 <= m < ps.len() ==> #[trigger] ps[m].1 != alloc_r->Some_0@);
                        crate::cache::lemma_sum_frame(ps, old(self).daemons@[i as int].store@, d.store@);
                        assert(d.cache_clean());
                    }
                }
                alloc_r
            };
            self.tick();
            match alloc_r {
                Some(u) => u,
                None => {
                    return Err(VPFSError::NotAccessible);
                },
            }
        } else {
            if !self.stream_for(i, at) {
                proof {
                    assert(!rl);
                    if rp {
                        assert(false);
                    }
                }
                return Err(VPFSError::NotAccessible);
            }
            let j = match self.find_daemon(at) {
                Some(j) => j,
                None => {
                    proof {
                        if rp {
                            let j2 = choose|j2: int|
                                0 <= j2 < c0.daemons@.len() && (#[trigger] c0.daemons@[j2]).local@
                                    == at@ && c0.online@[j2];
                            assert(self.daemons@[j2].local@ == at@);
                            assert(false);
                        }
                    }
                    return Err(VPFSError::NotAccessible);
                },
            };
            if !self.online[j] {
                proof {
                    if rp {
                        let j2 = choose|j2: int|
                            0 <= j2 < c0.daemons@.len() && (#[trigger] c0.daemons@[j2]).local@
                                == at@ && c0.online@[j2];
                        assert(self.daemons@[j2].local@ == at@);
                        assert(j2 == j as int);
                        assert(false);
                    }
                }
                return Err(VPFSError::NotAccessible);
            }
            proof {
                assert(j != i);
                assert(daemon_quiet(c0.daemons@[j as int], self.daemons@[j as int]));
            }
            let rand = random_u64();
            let now = self.clock;
            let (resp, resp_body) = {
                let od = &mut self.daemons[j];
                od.handle_daemon_request(DaemonRequest::Place, None, rand, now)
            };
            self.tick();
            match resp {
                DaemonResponse::Place(u) => {
                    if u.as_str().unicode_len() == 0 {
                        proof {
                            if rp {
                                // a degenerate name on the owner is ruled
                                // out by hypothesis
                                let k = choose|k: Seq<char>|
                                    c0.daemons@[j as int].store@.contains_key(k) && k.len()
                                        >= usize::MAX;
                                assert(c0.daemons@[j as int].local@ == at@);
                                assert(false);
                            }
                        }
                        return Err(VPFSError::NotAccessible);
                    }
                    proof {
                        if rp {
                            // the one daemon of the owner's name took the
                            // fresh, empty file
                            assert(c0.daemons@[j as int].local@ == at@);
                            assert forall|x: int|
                                0 <= x < c0.daemons@.len() && (#[trigger] c0.daemons@[x]).local@
                                    == at@ implies x == j as int by {
                                if x != j as int {
                                    assert(c0.daemons@[x].local@ == c0.daemons@[
                                        j as int].local@);
                                    assert(false);
                                }
                            }
                            assert(!c0.daemons@[j as int].store@.contains_key(u@));
                            assert(self.daemons@[j as int].store@ == c0.daemons@[
                                j as int].store@.insert(
                                u@,
                                crate::store::FileV { bytes: Seq::empty(), mtime: now },
                            ));
                        }
                    }
                    u
                },
                _ => {
                    proof {
                        assert(false);
                    }
                    return Err(VPFSError::NotAccessible);
                },
            }
        };
        let new_loc = Location { node: at.clone(), uri };
        let ghost c_alloc = *self;
        proof {
            if local_owner {
                lemma_hexy_not_reserved(new_loc@.uri);
            }
        }
        // 2. resolve the parent directory of the target path
        let (parent_loc, file_name): (Location, String) = match split_last_slash(path) {
            Some((parent, name)) => {
                proof {
                    let k = choose|k: int|
                        0 <= k < path@.len() && #[trigger] path@[k] == '/' && (forall|m: int|
                            k < m < path@.len() ==> path@[m] != '/') && parent@ == path@.take(k)
                            && name@ == path@.skip(k + 1);
                    assert(has_slash(path@));
                    assert(!rl);
                    lemma_last_slash_unique(path@, k);
                    assert(parent@ == parent_of(path@));
                    assert(name@ == base_of(path@));
                    if np {
                        // resolution is undisturbed by the fresh file
                        lemma_local_resolve_grow(
                            st0,
                            c_alloc.daemons@[i as int].store@,
                            localn,
                            parent_of(path@),
                        );
                    }
                }
                match self.recursive_find(i, parent.as_str()) {
                    Ok(parent_entry) => {
                        proof {
                            if np {
                                assert(parent_entry@ == lrp->Ok_0);
                                assert(self.daemons == c_alloc.daemons);
                            }
                        }
                        (parent_entry.location, name)
                    },
                    Err(e) => {
                        proof {
                            if np {
                                assert(false);
                            }
                        }
                        self.cleanup_placed(i, &new_loc, local_owner);
                        return Err(e);
                    },
                }
            },
            None => {
                let root_node = match &self.daemons[i].root {
                    Some(rn) => rn.clone(),
                    None => {
                        self.cleanup_placed(i, &new_loc, local_owner);
                        return Err(VPFSError::NotAccessible);
                    },
                };
                proof {
                    if rp {
                        assert(root_node@ == at@);
                    }
                }
                (Location { node: root_node, uri: root_uri() }, path.to_owned())
            },
        };
        proof {
            if rp {
                assert(parent_loc@.node == at@ && parent_loc@.uri == root_uri_spec());
                assert(self.connected(i as int, at@));
            }
        }
        let entry = DirectoryEntry {
            location: new_loc.clone(),
            name: file_name,
            is_dir,
        };
        // 3. append the entry to the parent directory
        let ghost pre_append = *self;
        let append_result: Result<(), VPFSError> = if string_eq(
            &parent_loc.node.name,
            &self.daemons[i].local.name,
        ) {
            let now = self.clock;
            let res = {
                let d = &mut self.daemons[i];
                proof {
                    lemma_clean_not_reserved(*d);
                }
                let res = d.append_dir_entry(parent_loc.uri.as_str(), &entry, now);
                res
            };
            proof {
                if res is Ok {
                    assert(self.daemons@[i as int].store@ == pre_append.daemons@[
                        i as int].store@.insert(
                        parent_loc@.uri,
                        crate::store::FileV {
                            bytes: pre_append.daemons@[i as int].store@[parent_loc@.uri].bytes
                                + enc_entry(entry@),
                            mtime: now,
                        },
                    ));
                    assert(self.daemons@[i as int].store@.contains_key(parent_loc@.uri));
                }
                if np {
                    let pe = lrp->Ok_0;
                    assert(parent_loc@.uri == pe.loc.uri);
                    assert(new_loc@.uri != pe.loc.uri);
                    assert(pre_append.daemons@[i as int].store@[pe.loc.uri] == st0[pe.loc.uri]);
                    assert(pre_append.daemons@[i as int].store@.contains_key(pe.loc.uri));
                    if res is Err {
                        match &res {
                            Err(VPFSError::AlreadyExists(ex)) => {
                                assert(find_in_dir(st0[pe.loc.uri].bytes, base_of(path@))
                                    == Some(ex@));
                            },
                            Err(VPFSError::DoesNotExist) => {
                                assert(false);
                            },
                            _ => {},
                        }
                    }
                }
            }
            self.tick();
            res
        } else {
            proof {
                if np {
                    assert(parent_loc@.node == lrp->Ok_0.loc.node);
                    assert(false);
                }
            }
            if !self.stream_for(i, &parent_loc.node) {
                self.cleanup_placed(i, &new_loc, local_owner);
                return Err(VPFSError::NotAccessible);
            }
            let j = match self.find_daemon(&parent_loc.node) {
                Some(j) => j,
                None => {
                    proof {
                        if rp {
                            let j2 = choose|j2: int|
                                0 <= j2 < c0.daemons@.len() && (#[trigger] c0.daemons@[j2]).local@
                                    == at@ && c0.online@[j2];
                            assert(self.daemons@[j2].local@ == at@);
                            assert(false);
                        }
                    }
                    self.cleanup_placed(i, &new_loc, local_owner);
                    return Err(VPFSError::NotAccessible);
                },
            };
            if !self.online[j] {
                proof {
                    if rp {
                        let j2 = choose|j2: int|
                            0 <= j2 < c0.daemons@.len() && (#[trigger] c0.daemons@[j2]).local@
                                == at@ && c0.online@[j2];
                        assert(self.daemons@[j2].local@ == at@);
                        assert(j2 == j as int);
                        assert(false);
                    }
                }
                self.cleanup_placed(i, &new_loc, local_owner);
                return Err(VPFSError::NotAccessible);
            }
            proof {
                if rp {
                    assert(c0.daemons@[j as int].local@ == at@);
                }
            }
            let now = self.clock;
            let (resp, resp_body) = {
                let od = &mut self.daemons[j];
                od.handle_daemon_request(
                    DaemonRequest::AppendDirectoryEntry(parent_loc.uri.clone(), entry.clone()),
                    None,
                    0,
                    now,
                )
            };
            self.tick();
            proof {
                if rp {
                    // the owner held its root directory and the fresh,
                    // empty file when it took the append
                    assert(!c0.daemons@[j as int].store@.contains_key(new_loc@.uri));
                    assert(c0.daemons@[j as int].store@.contains_key(root_uri_spec()));
                    assert(new_loc@.uri != root_uri_spec());
                    assert(entry@.name == path@);
                    match &resp {
                        DaemonResponse::AppendDirectoryEntry(res2) => match res2 {
                            Ok(u2) => {
                                assert(find_in_dir(
                                    c0.daemons@[j as int].store@[root_uri_spec()].bytes,
                                    path@,
                                ) is None);
                                assert(self.daemons@[j as int].store@[root_uri_spec()].bytes
                                    == c0.daemons@[j as int].store@[root_uri_spec()].bytes
                                    + enc_entry(entry@));
                                assert(self.daemons@[j as int].store@.contains_key(
                                    root_uri_spec(),
                                ));
                                assert(self.daemons@[j as int].store@.contains_key(new_loc@.uri));
                                assert(self.daemons@[j as int].store@[new_loc@.uri].bytes
                                    == Seq::<u8>::empty());
                            },
                            Err(e2) => match e2 {
                                VPFSError::AlreadyExists(ex) => {
                                    assert(find_in_dir(
                                        c0.daemons@[j as int].store@[root_uri_spec()].bytes,
                                        path@,
                                    ) == Some(ex@));
                                    assert(self.daemons@[j as int].store@ =~= c0.daemons@[
                                        j as int].store@.insert(
                                        new_loc@.uri,
                                        self.daemons@[j as int].store@[new_loc@.uri],
                                    ));
                                },
                                VPFSError::DoesNotExist => {
                                    assert(false);
                                },
                                _ => {},
                            },
                        },
                        _ => {},
                    }
                }
            }
            match resp {
                DaemonResponse::AppendDirectoryEntry(res) => res,
                _ => {
                    proof {
                        assert(false);
                    }
                    Err(VPFSError::NotAccessible)
                },
            }
        };
        match append_result {
            Ok(u) => {
                // 4. a new directory gets its `.` and `..` entries
                let ghost pre_seed = *self;
                if is_dir {
                    self.seed_dir_entries(i, local_owner, at, &new_loc, &parent_loc);
                }
                proof {
                    if rl {
                        assert(self.daemons@[i as int].store@.contains_key(root_uri_spec()));
                        if is_dir {
                            let u = new_loc@.uri;
                            let t1 = c_alloc.daemons@[i as int].store@[u].mtime;
                            let t2 = self.daemons@[i as int].store@[root_uri_spec()].mtime;
                            let t3 = choose|t3: u64|
                                #![auto]
                                self.daemons@[i as int].store@ == pre_seed.daemons@[i as int].store@.insert(
                                    u,
                                    crate::store::FileV {
                                        bytes: enc_entry(
                                            crate::messages::EntryV {
                                                loc: new_loc@,
                                                name: "."@,
                                                is_dir: true,
                                            },
                                        ) + enc_entry(
                                            crate::messages::EntryV {
                                                loc: parent_loc@,
                                                name: ".."@,
                                                is_dir: true,
                                            },
                                        ),
                                        mtime: t3,
                                    },
                                );
                            assert(self.daemons@[i as int].store@
                                =~= c0.daemons@[i as int].store@.insert(
                                u,
                                crate::store::FileV { bytes: Seq::empty(), mtime: t1 },
                            ).insert(
                                root_uri_spec(),
                                crate::store::FileV {
                                    bytes: c0.daemons@[i as int].store@[root_uri_spec()].bytes
                                        + enc_entry(
                                        crate::messages::EntryV {
                                            loc: new_loc@,
                                            name: path@,
                                            is_dir: true,
                                        },
                                    ),
                                    mtime: t2,
                                },
                            ).insert(
                                u,
                                crate::store::FileV {
                                    bytes: enc_entry(
                                        crate::messages::EntryV {
                                            loc: new_loc@,
                                            name: "."@,
                                            is_dir: true,
                                        },
                                    ) + enc_entry(
                                        crate::messages::EntryV {
                                            loc: parent_loc@,
                                            name: ".."@,
                                            is_dir: true,
                                        },
                                    ),
                                    mtime: t3,
                                },
                            ));
                        }
                        if !is_dir {
                            let u = new_loc@.uri;
                            let t1 = c_alloc.daemons@[i as int].store@[u].mtime;
                            let t2 = self.daemons@[i as int].store@[root_uri_spec()].mtime;
                            assert(self.daemons@[i as int].store@
                                =~= c0.daemons@[i as int].store@.insert(
                                u,
                                crate::store::FileV { bytes: Seq::empty(), mtime: t1 },
                            ).insert(
                                root_uri_spec(),
                                crate::store::FileV {
                                    bytes: c0.daemons@[i as int].store@[root_uri_spec()].bytes
                                        + enc_entry(
                                        crate::messages::EntryV {
                                            loc: new_loc@,
                                            name: path@,
                                            is_dir: false,
                                        },
                                    ),
                                    mtime: t2,
                                },
                            ));
                        }
                    }
                    if np {
                        let pe = lrp->Ok_0;
                        let u = new_loc@.uri;
                        assert(pre_seed.daemons@[i as int].store@[pe.loc.uri].bytes
                            == st0[pe.loc.uri].bytes + enc_entry(entry@));
                        assert(pre_seed.daemons@[i as int].store@.contains_key(u));
                        assert(pre_seed.daemons@[i as int].store@[u].bytes == Seq::<u8>::empty());
                        if is_dir {
                            // seeding touched only the new directory's file
                            assert(self.daemons@[i as int].store@[pe.loc.uri]
                                == pre_seed.daemons@[i as int].store@[pe.loc.uri]);
                            assert(self.daemons@[i as int].store@.contains_key(u));
                        } else {
                            assert(self.daemons@[i as int].store@
                                == pre_seed.daemons@[i as int].store@);
                        }
                        assert(entry@ == (crate::messages::EntryV {
                            loc: new_loc@,
                            name: base_of(path@),
                            is_dir: is_dir,
                        }));
                    }
                    if rp {
                        assert(!is_dir);
                        assert(self.connected(i as int, at@));
                        assert forall|x: int|
                            0 <= x < c0.daemons@.len() && (#[trigger] c0.daemons@[x]).local@
                                == at@ implies {
                            &&& find_in_dir(
                                c0.daemons@[x].store@[root_uri_spec()].bytes,
                                path@,
                            ) is None
                            &&& !c0.daemons@[x].store@.contains_key(new_loc@.uri)
                            &&& self.daemons@[x].store@.contains_key(root_uri_spec())
                            &&& self.daemons@[x].store@[root_uri_spec()].bytes == c0.daemons@[
                                x].store@[root_uri_spec()].bytes + enc_entry(
                                crate::messages::EntryV {
                                    loc: new_loc@,
                                    name: path@,
                                    is_dir: false,
                                },
                            )
                            &&& self.daemons@[x].store@.contains_key(new_loc@.uri)
                            &&& self.daemons@[x].store@[new_loc@.uri].bytes
                                == Seq::<u8>::empty()
                        } by {}
                    }
                }
                Ok(new_loc)
            },
            Err(e) => {
                // 5. roll the allocation back and hand the error up
                let ghost pre_clean = *self;
                proof {
                    if rp {
                        assert(pre_clean.connected(i as int, new_loc@.node));
                        let j2 = choose|j2: int|
                            0 <= j2 < c0.daemons@.len() && (#[trigger] c0.daemons@[j2]).local@
                                == at@ && c0.online@[j2];
                        assert(pre_clean.daemons@[j2].local@ == at@ && pre_clean.online@[j2]);
                        assert(pre_clean.deliverable(new_loc@.node));
                    }
                }
                self.cleanup_placed(i, &new_loc, local_owner);
                proof {
                    if rl {
                        assert(self.daemons@[i as int].store@ =~= c0.daemons@[i as int].store@);
                    }
                    if np {
                        assert(pre_clean.daemons@[i as int].store@
                            == pre_append.daemons@[i as int].store@);
                        assert(self.daemons@[i as int].store@ =~= st0);
                    }
                    if rp {
                        assert forall|x: int|
                            0 <= x < c0.daemons@.len() && (#[trigger] c0.daemons@[x]).local@
                                == at@ implies self.daemons@[x].store@ == c0.daemons@[x].store@
                            && find_in_dir(
                            c0.daemons@[x].store@[root_uri_spec()].bytes,
                            path@,
                        ) == Some(
                            (match e {
                                VPFSError::AlreadyExists(ex) => ex@,
                                _ => arbitrary(),
                            }),
                        ) by {
                            assert(pre_clean.daemons@[x].local@ == at@);
                            assert(self.daemons@[x].store@ == pre_clean.daemons@[
                                x].store@.remove(new_loc@.uri));
                            assert(self.daemons@[x].store@ =~= c0.daemons@[x].store@);
                        }
                        assert(e is AlreadyExists);
                    }
                }
                Err(e)
            },
        }
    }

    /// Remove a just-allocated file again after a failed placement: the
    /// cleanup path behind the internal `Remove` request.
    fn cleanup_placed(&mut self, i: usize, loc: &Location, local_owner: bool)
        requires
            old(self).wf(),
            i < old(self).daemons@.len(),
            old(self).daemons@[i as int].cache_clean(),
            local_owner ==> loc@.node == old(self).daemons@[i as int].local@ && !old(self).daemons@[i as int].cache.is_backing(loc@.uri),
            !local_owner ==> loc@.node != old(self).daemons@[i as int].local@,
        ensures
            final(self).wf(),
            final(self).daemons@.len() == old(self).daemons@.len(),
            final(self).online@ == old(self).online@,
            final(self).clock >= old(self).clock,
            final(self).daemons@[i as int].cache_clean(),
            forall|j: int|
                0 <= j < old(self).daemons@.len() ==> (#[trigger] final(self).daemons@[j]).local
                    == old(self).daemons@[j].local && final(self).daemons@[j].root == old(self).daemons@[j].root && final(self).daemons@[j].listening_addr == old(self).daemons@[j].listening_addr,
            local_owner ==> final(self).daemons@[i as int].store@ == old(self).daemons@[i as int].store@.remove(loc@.uri) && final(self).daemons@[i as int].cache
                == old(self).daemons@[i as int].cache,
            // a connected, online remote owner takes the rollback: its
            // store loses exactly the allocated file
            (!local_owner && old(self).connected(i as int, loc@.node) && old(self).deliverable(
                loc@.node,
            )) ==> forall|j: int|
                0 <= j < old(self).daemons@.len() && (#[trigger] old(self).daemons@[j]).local@
                    == loc@.node ==> final(self).daemons@[j].store@ == old(self).daemons@[j].store@.remove(loc@.uri),
            // the requester's own files and cache are untouched by a
            // remote rollback
            !local_owner ==> final(self).daemons@[i as int].store@ == old(self).daemons@[i as int].store@ && final(self).daemons@[i as int].cache == old(self).daemons@[i as int].cache,
    {
        let ghost c0 = *old(self);
        if local_owner {
            let d = &mut self.daemons[i];
            let removed = d.remove_local(loc.uri.as_str());
        } else {
            if self.stream_for(i, &loc.node) {
                match self.find_daemon(&loc.node) {
                    Some(j) => {
                        if self.online[j] {
                            proof {
                                assert(j != i);
                            }
                            let now = self.clock;
                            let (resp, resp_body) = {
                                let od = &mut self.daemons[j];
                                od.handle_daemon_request(
                                    DaemonRequest::Remove(loc.uri.clone()),
                                    None,
                                    0,
                                    now,
                                )
                            };
                            self.tick();
                            proof {
                                assert forall|x: int|
                                    0 <= x < c0.daemons@.len() && (
                                    #[trigger] c0.daemons@[x]).local@ == loc@.node implies
                                    self.daemons@[x].store@ == c0.daemons@[x].store@.remove(
                                    loc@.uri,
                                ) by {
                                    if x != j as int {
                                        assert(c0.daemons@[x].local@ == c0.daemons@[
                                            j as int].local@);
                                        assert(false);
                                    }
                                }
                            }
                        } else {
                            proof {
                                if c0.connected(i as int, loc@.node) && c0.deliverable(
                                    loc@.node,
                                ) {
                                    let j2 = choose|j2: int|
                                        0 <= j2 < c0.daemons@.len() && (
                                        #[trigger] c0.daemons@[j2]).local@ == loc@.node
                                            && c0.online@[j2];
                                    assert(self.daemons@[j2].local@ == loc@.node);
                                    assert(j2 == j as int);
                                    assert(false);
                                }
                            }
                        }
                    },
                    None => {
                        proof {
                            if c0.connected(i as int, loc@.node) && c0.deliverable(loc@.node) {
                                let j2 = choose|j2: int|
                                    0 <= j2 < c0.daemons@.len() && (
                                    #[trigger] c0.daemons@[j2]).local@ == loc@.node
                                        && c0.online@[j2];
                                assert(self.daemons@[j2].local@ == loc@.node);
                                assert(false);
                            }
                        }
                    },
                }
            } else {
                proof {
                    if c0.connected(i as int, loc@.node) {
                        assert(false);
                    }
                }
            }
        }
    }
}


/// Package a remote read's frame clauses as the resolution frame.
pub proof fn frame_after_remote_read(c0: Cluster, c1: Cluster, i: int)
    requires
        0 <= i < c0.daemons@.len(),
        c1.daemons@.len() == c0.daemons@.len(),
        c1.online@ == c0.online@,
        forall|j: int|
            0 <= j < c0.daemons@.len() && j != i ==> daemon_quiet(
                c0.daemons@[j],
                #[trigger] c1.daemons@[j],
            ),
        c1.daemons@[i].local == c0.daemons@[i].local,
        c1.daemons@[i].root == c0.daemons@[i].root,
        c1.daemons@[i].listening_addr == c0.daemons@[i].listening_addr,
        c0.daemons@[i].known_hosts is Some ==> c1.daemons@[i].known_hosts is Some,
        forall|k: Seq<char>|
            !c0.daemons@[i].cache.is_backing(k) && !c1.daemons@[i].cache.is_backing(k) && k
                != Daemon::cache_file_spec() ==> (c0.daemons@[i].store@.contains_key(k)
                == c1.daemons@[i].store@.contains_key(k) && (c0.daemons@[i].store@.contains_key(
                k,
            ) ==> c0.daemons@[i].store@[k] == c1.daemons@[i].store@[k])),
        forall|k: Seq<char>|
            c0.daemons@[i].store@.contains_key(k) && !c0.daemons@[i].cache.is_backing(k)
                ==> !c1.daemons@[i].cache.is_backing(k),
    ensures
        cluster_resolve_frame(c0, c1, i),
{
    assert forall|k: Seq<char>|
        c0.daemons@[i].store@.contains_key(k) && !c0.daemons@[i].cache.is_backing(k) && k
            != Daemon::cache_file_spec() implies c1.daemons@[i].store@.contains_key(k)
        && c1.daemons@[i].store@[k] == c0.daemons@[i].store@[k] by {
        assert(!c1.daemons@[i].cache.is_backing(k));
    }
}


impl Cluster {
    /// Seed a freshly made directory with its `.` entry (pointing at
    /// itself) and its `..` entry (pointing at its parent), best effort.
    #[verifier::rlimit(100)]
    #[verifier::spinoff_prover]
    fn seed_dir_entries(
        &mut self,
        i: usize,
        local_owner: bool,
        at: &Node,
        new_loc: &Location,
        parent_loc: &Location,
    )
        requires
            old(self).wf(),
            i < old(self).daemons@.len(),
            local_owner ==> new_loc@.node == old(self).daemons@[i as int].local@ && !old(self).daemons@[i as int].cache.is_backing(new_loc@.uri),
            !local_owner ==> new_loc@.node != old(self).daemons@[i as int].local@ && new_loc@.node
                == at@,
        ensures
            final(self).wf(),
            final(self).daemons@.len() == old(self).daemons@.len(),
            final(self).online@ == old(self).online@,
            final(self).clock >= old(self).clock,
            forall|j: int|
                0 <= j < old(self).daemons@.len() ==> (#[trigger] final(self).daemons@[j]).local
                    == old(self).daemons@[j].local && final(self).daemons@[j].root == old(self).daemons@[j].root && final(self).daemons@[j].listening_addr == old(self).daemons@[j].listening_addr,
            // seeding writes only into the new directory's own file
            local_owner ==> final(self).daemons@[i as int].cache == old(self).daemons@[i as int].cache && forall|k: Seq<char>|
                k != new_loc@.uri ==> old(self).daemons@[i as int].store@.contains_key(k) == final(self).daemons@[i as int].store@.contains_key(k) && (old(self).daemons@[i as int].store@.contains_key(k) ==> old(self).daemons@[i as int].store@[k] == final(self).daemons@[i as int].store@[k]),
            local_owner && old(self).daemons@[i as int].store@.contains_key(new_loc@.uri)
                ==> final(self).daemons@[i as int].store@.contains_key(new_loc@.uri),
            // a freshly made, still empty directory ends up holding
            // exactly its self entry and its parent entry
            (local_owner && old(self).daemons@[i as int].store@.contains_key(new_loc@.uri)
                && old(self).daemons@[i as int].store@[new_loc@.uri].bytes
                == Seq::<u8>::empty()) ==> {
                &&& wf_dir(final(self).daemons@[i as int].store@[new_loc@.uri].bytes)
                &&& dir_seq(final(self).daemons@[i as int].store@[new_loc@.uri].bytes)
                    =~= seq![
                    crate::messages::EntryV { loc: new_loc@, name: "."@, is_dir: true },
                    crate::messages::EntryV { loc: parent_loc@, name: ".."@, is_dir: true },
                ]
                &&& exists|t: u64|
                    #![auto]
                    final(self).daemons@[i as int].store@ == old(self).daemons@[i as int].store@.insert(
                        new_loc@.uri,
                        crate::store::FileV {
                            bytes: enc_entry(
                                crate::messages::EntryV {
                                    loc: new_loc@,
                                    name: "."@,
                                    is_dir: true,
                                },
                            ) + enc_entry(
                                crate::messages::EntryV {
                                    loc: parent_loc@,
                                    name: ".."@,
                                    is_dir: true,
                                },
                            ),
                            mtime: t,
                        },
                    )
            },
            !local_owner ==> final(self).daemons@[i as int].store@ == old(self).daemons@[i as int].store@ && final(self).daemons@[i as int].cache == old(self).daemons@[i as int].cache,
            old(self).daemons@[i as int].cache_clean() ==> final(self).daemons@[i as int].cache_clean(),
    {
        let dot = DirectoryEntry { location: new_loc.clone(), name: dot_name(), is_dir: true };
        let dotdot = DirectoryEntry {
            location: parent_loc.clone(),
            name: dotdot_name(),
            is_dir: true,
        };
        if local_owner {
            let ghost c0 = *old(self);
            let now = self.clock;
            {
                let d = &mut self.daemons[i];
                let ghost ps = d.cache.pairs();
                let ghost st0 = d.store@;
                proof {
                    reveal_strlit(".");
                    reveal_strlit("..");
                    assert("."@.len() == 1);
                    assert(".."@.len() == 2);
                    assert("."@ != ".."@);
                    if st0.contains_key(new_loc@.uri) && st0[new_loc@.uri].bytes
                        == Seq::<u8>::empty() {
                        assert(wf_dir(Seq::<u8>::empty()));
                        crate::codec::lemma_dir_append(Seq::<u8>::empty(), dot@);
                        assert(Seq::<u8>::empty() + enc_entry(dot@) =~= enc_entry(dot@));
                        crate::codec::lemma_dir_append(enc_entry(dot@), dotdot@);
                    }
                }
                let r1 = d.append_dir_entry(new_loc.uri.as_str(), &dot, now);
                let r2 = d.append_dir_entry(new_loc.uri.as_str(), &dotdot, now);
                proof {
                    if c0.daemons@[i as int].cache_clean() {
                        crate::cache::lemma_sum_frame(ps, st0, d.store@);
                    }
                    if st0.contains_key(new_loc@.uri) && st0[new_loc@.uri].bytes
                        == Seq::<u8>::empty() {
                        assert(r1 is Ok);
                        assert(r2 is Ok);
                        assert(d.store@[new_loc@.uri].bytes =~= enc_entry(dot@) + enc_entry(
                            dotdot@,
                        ));
                    }
                }
            }
            self.tick();
        } else {
            if self.stream_for(i, at) {
                match self.find_daemon(at) {
                    Some(j) => {
                        if self.online[j] {
                            proof {
                                assert(j != i);
                            }
                            let now = self.clock;
                            {
                                let od = &mut self.daemons[j];
                                let rr1 = od.handle_daemon_request(
                                    DaemonRequest::AppendDirectoryEntry(new_loc.uri.clone(), dot),
                                    None,
                                    0,
                                    now,
                                );
                                let rr2 = od.handle_daemon_request(
                                    DaemonRequest::AppendDirectoryEntry(
                                        new_loc.uri.clone(),
                                        dotdot,
                                    ),
                                    None,
                                    0,
                                    now,
                                );
                            }
                            self.tick();
                        }
                    },
                    None => {},
                }
            }
        }
    }
}

impl Cluster {
    /// Serve a client's `Find`: resolve the path from its daemon.
    pub fn client_find(&mut self, i: usize, path: &str) -> (r: Result<DirectoryEntry, VPFSError>)
        requires
            old(self).wf(),
            i < old(self).daemons@.len(),
            old(self).daemons@[i as int].cache_clean(),
        ensures
            final(self).wf(),
            final(self).daemons@.len() == old(self).daemons@.len(),
            final(self).online@ == old(self).online@,
            final(self).daemons@[i as int].cache_clean(),
            cluster_resolve_frame(*old(self), *final(self), i as int),
            (!has_slash(path@) && (old(self).daemons@[i as int].root matches Some(rn) && rn@
                == old(self).daemons@[i as int].local@)) ==> final(self).daemons == old(self).daemons && final(self).clock == old(self).clock
                && match Cluster::root_local_lookup(old(self).daemons@[i as int], path@) {
                Ok(ev) => r matches Ok(e) && e@ == ev,
                Err(u) => r matches Err(e) && e is DoesNotExist,
            },
            // on the root daemon everything its own files determine is
            // answered exactly, nested paths included
            (old(self).daemons@[i as int].root matches Some(rn) && rn@ == old(self).daemons@[i as int].local@) ==> match local_resolve(
                old(self).daemons@[i as int].store@,
                old(self).daemons@[i as int].local@,
                path@,
            ) {
                Ok(ev) => (r matches Ok(e) && e@ == ev) && final(self).daemons == old(self).daemons,
                Err(stop) => match stop {
                    ResolveStop::Missing => (r matches Err(e) && e is DoesNotExist) && final(self).daemons == old(self).daemons,
                    ResolveStop::NotDir => (r matches Err(e) && e is NotADirectory) && final(self).daemons == old(self).daemons,
                    ResolveStop::Offsite => true,
                },
            },
            // on a joined daemon a bare name is answered from the remote
            // root directory, exactly, when the root is connected, online,
            // holds its directory file, and no cached copy claims to be
            // newer
            (!has_slash(path@) && (old(self).daemons@[i as int].root matches Some(rn) && rn@
                != old(self).daemons@[i as int].local@) && old(self).owner_serves(
                i as int,
                (crate::messages::LocV {
                    node: old(self).daemons@[i as int].root->Some_0@,
                    uri: root_uri_spec(),
                }),
            ) && !old(self).cached_newer(
                i as int,
                (crate::messages::LocV {
                    node: old(self).daemons@[i as int].root->Some_0@,
                    uri: root_uri_spec(),
                }),
            )) ==> match r {
                Ok(e) => exists|j: int|
                    0 <= j < old(self).daemons@.len() && (#[trigger] old(self).daemons@[j]).local@
                        == old(self).daemons@[i as int].root->Some_0@ && find_in_dir(
                        old(self).daemons@[j].store@[root_uri_spec()].bytes,
                        path@,
                    ) == Some(e@),
                Err(err) => err is DoesNotExist && exists|j: int|
                    0 <= j < old(self).daemons@.len() && (#[trigger] old(self).daemons@[j]).local@
                        == old(self).daemons@[i as int].root->Some_0@ && find_in_dir(
                        old(self).daemons@[j].store@[root_uri_spec()].bytes,
                        path@,
                    ) is None,
            },
    {
        let r = self.recursive_find(i, path);
        proof {
            if !has_slash(path@) && (old(self).daemons@[i as int].root matches Some(rn) && rn@
                == old(self).daemons@[i as int].local@) {
                assert(self.daemons == old(self).daemons);
                assert(self.clock == old(self).clock);
            }
        }
        r
    }

    /// Serve a client's `Read`: a local location is read from this
    /// daemon's own files, a remote one through the cache-revalidating
    /// remote read.
    pub fn client_read(&mut self, i: usize, loc: &Location) -> (r: Result<Vec<u8>, VPFSError>)
        requires
            old(self).wf(),
            i < old(self).daemons@.len(),
            old(self).daemons@[i as int].cache_clean(),
        ensures
            final(self).wf(),
            final(self).daemons@.len() == old(self).daemons@.len(),
            final(self).online@ == old(self).online@,
            final(self).clock >= old(self).clock,
            final(self).daemons@[i as int].cache_clean(),
            forall|j: int|
                0 <= j < old(self).daemons@.len() ==> (#[trigger] final(self).daemons@[j]).local
                    == old(self).daemons@[j].local && final(self).daemons@[j].root == old(self).daemons@[j].root && final(self).daemons@[j].listening_addr == old(self).daemons@[j].listening_addr,
            // a connected, online owner that holds the file is never
            // refused
            (loc@.node != old(self).daemons@[i as int].local@ && old(self).owner_serves(
                i as int,
                loc@,
            )) ==> r is Ok,
            // ... and a strictly newer cached copy is revalidated and
            // handed back unchanged
            (loc@.node != old(self).daemons@[i as int].local@ && old(self).owner_serves(
                i as int,
                loc@,
            ) && old(self).cached_newer(i as int, loc@)) ==> (r matches Ok(b) && (exists|m: int|
                0 <= m < old(self).daemons@[i as int].cache.pairs().len() && (#[trigger] old(self).daemons@[i as int].cache.pairs()[m]).0 == loc_key(loc@) && old(self).daemons@[i as int].store@.contains_key(old(self).daemons@[i as int].cache.pairs()[m].1) && b@ == old(self).daemons@[i as int].store@[old(self).daemons@[i as int].cache.pairs()[m].1].bytes)
                && final(self).daemons@[i as int].store@ == old(self).daemons@[i as int].store@),
            // a local location is answered from this daemon's files
            loc@.node == old(self).daemons@[i as int].local@ ==> final(self).daemons
                == old(self).daemons && final(self).clock == old(self).clock && match r {
                Ok(b) => old(self).daemons@[i as int].store@.contains_key(loc@.uri) && b@ == old(self).daemons@[i as int].store@[loc@.uri].bytes,
                Err(e) => e is DoesNotExist && !old(self).daemons@[i as int].store@.contains_key(
                    loc@.uri,
                ),
            },
            // a remote one is the owner's file or the cached copy
            loc@.node != old(self).daemons@[i as int].local@ ==> match r {
                Ok(b) => exists|j: int|
                    0 <= j < old(self).daemons@.len() && (#[trigger] old(self).daemons@[j]).local@
                        == loc@.node && ((old(self).daemons@[j].store@.contains_key(loc@.uri)
                        && b@ == old(self).daemons@[j].store@[loc@.uri].bytes) || (exists|m: int|
                        0 <= m < old(self).daemons@[i as int].cache.pairs().len() && (
                        #[trigger] old(self).daemons@[i as int].cache.pairs()[m]).0 == loc_key(
                            loc@,
                        ) && old(self).daemons@[i as int].store@.contains_key(
                            old(self).daemons@[i as int].cache.pairs()[m].1,
                        ) && b@ == old(self).daemons@[i as int].store@[old(self).daemons@[i as int].cache.pairs()[m].1].bytes
                        && old(self).daemons@[j].store@.contains_key(loc@.uri) && old(self).daemons@[j].store@[loc@.uri].mtime < old(self).daemons@[i as int].store@[old(self).daemons@[i as int].cache.pairs()[m].1].mtime
                        && final(self).daemons@[i as int].store@ == old(self).daemons@[i as int].store@)),
                Err(e) => !(e is NotModified),
            },
            // an unreachable owner: the cached copy's location or nothing
            (loc@.node != old(self).daemons@[i as int].local@ && !old(self).can_reach(
                i as int,
                loc@.node,
            )) ==> if exists|m: int|
                0 <= m < old(self).daemons@[i as int].cache.pairs().len() && (#[trigger] old(self).daemons@[i as int].cache.pairs()[m]).0 == loc_key(loc@) {
                r matches Err(e) && e matches VPFSError::OnlyInCache(l) && l@.node == old(self).daemons@[i as int].local@ && exists|m: int|
                    0 <= m < old(self).daemons@[i as int].cache.pairs().len() && (#[trigger] old(self).daemons@[i as int].cache.pairs()[m]) == (loc_key(loc@), l@.uri)
            } else {
                r matches Err(e) && e is NotAccessible
            },
    {
        if string_eq(&loc.node.name, &self.daemons[i].local.name) {
            match self.daemons[i].read_local(loc.uri.as_str()) {
                Some(b) => Ok(b),
                None => Err(VPFSError::DoesNotExist),
            }
        } else {
            self.read_remote(i, loc)
        }
    }

    /// Serve a client's `Write`: overwrite a pre-existing file, locally
    /// or at its remote owner; a location never placed is refused with
    /// `DoesNotExist`.
    pub fn client_write(&mut self, i: usize, loc: &Location, data: Vec<u8>) -> (r: Result<
        usize,
        VPFSError,
    >)
        requires
            old(self).wf(),
            i < old(self).daemons@.len(),
        ensures
            final(self).wf(),
            final(self).daemons@.len() == old(self).daemons@.len(),
            final(self).online@ == old(self).online@,
            final(self).clock >= old(self).clock,
            forall|j: int|
                0 <= j < old(self).daemons@.len() ==> (#[trigger] final(self).daemons@[j]).local
                    == old(self).daemons@[j].local && final(self).daemons@[j].root == old(self).daemons@[j].root && final(self).daemons@[j].listening_addr == old(self).daemons@[j].listening_addr,
            // a local write: exactly the one file replaced, or refused
            loc@.node == old(self).daemons@[i as int].local@ ==> match r {
                Ok(n) => old(self).daemons@[i as int].store@.contains_key(loc@.uri) && n
                    == data@.len() && exists|t: u64|
                    final(self).daemons@[i as int].store@ == old(self).daemons@[i as int].store@.insert(
                        loc@.uri,
                        crate::store::FileV { bytes: data@, mtime: t },
                    ),
                Err(e) => e is DoesNotExist && !old(self).daemons@[i as int].store@.contains_key(
                    loc@.uri,
                ) && final(self).daemons@[i as int].store@ == old(self).daemons@[i as int].store@,
            },
            // a remote write lands exactly at the owner, stamped with the
            // clock at the time of the write
            (loc@.node != old(self).daemons@[i as int].local@ && old(self).connected(
                i as int,
                loc@.node,
            ) && old(self).deliverable(loc@.node) && (exists|j: int|
                0 <= j < old(self).daemons@.len() && (#[trigger] old(self).daemons@[j]).local@
                    == loc@.node && old(self).daemons@[j].store@.contains_key(loc@.uri)))
                ==> (r matches Ok(n) && n == data@.len() && forall|j: int|
                0 <= j < old(self).daemons@.len() && (#[trigger] old(self).daemons@[j]).local@
                    == loc@.node ==> final(self).daemons@[j].store@ == old(self).daemons@[j].store@.insert(
                    loc@.uri,
                    crate::store::FileV { bytes: data@, mtime: old(self).clock },
                )),
            // an unreachable owner is answered with exactly that
            (loc@.node != old(self).daemons@[i as int].local@ && !old(self).can_reach(
                i as int,
                loc@.node,
            )) ==> (r matches Err(e) && e is NotAccessible),
            // a connected, online owner that lacks the file relays its
            // refusal: exactly `DoesNotExist`
            (loc@.node != old(self).daemons@[i as int].local@ && old(self).connected(
                i as int,
                loc@.node,
            ) && old(self).deliverable(loc@.node) && (forall|j: int|
                0 <= j < old(self).daemons@.len() && (#[trigger] old(self).daemons@[j]).local@
                    == loc@.node ==> !old(self).daemons@[j].store@.contains_key(loc@.uri)))
                ==> (r matches Err(e) && e is DoesNotExist),
            // a remote owner's refusal is relayed verbatim: only an absent
            // file is ever refused
            r matches Err(e) ==> (loc@.node != old(self).daemons@[i as int].local@ ==> (
            e is NotAccessible || (e is DoesNotExist && exists|j: int|
                0 <= j < old(self).daemons@.len() && (#[trigger] old(self).daemons@[j]).local@
                    == loc@.node && !old(self).daemons@[j].store@.contains_key(loc@.uri)))),
            // the cache of the writing daemon is untouched
            final(self).daemons@[i as int].cache == old(self).daemons@[i as int].cache,
            old(self).daemons@[i as int].cache_clean() && !old(self).daemons@[i as int].cache.is_backing(loc@.uri) ==> final(self).daemons@[i as int].cache_clean(),
            // a served remote write leaves the stream to the owner up
            (loc@.node != old(self).daemons@[i as int].local@ && r is Ok) ==> final(self).connected(i as int, loc@.node),
    {
        let ghost c0 = *old(self);
        if string_eq(&loc.node.name, &self.daemons[i].local.name) {
            let now = self.clock;
            let n = data.len();
            let res = {
                let d = &mut self.daemons[i];
                d.write_local(loc.uri.as_str(), data, now)
            };
            self.tick();
            res
        } else {
            if !self.stream_for(i, &loc.node) {
                return Err(VPFSError::NotAccessible);
            }
            proof {
                assert(forall|x: int|
                    0 <= x < self.daemons@.len() ==> (#[trigger] self.daemons@[x]).local@
                        == c0.daemons@[x].local@);
            }
            let j = match self.find_daemon(&loc.node) {
                Some(j) => j,
                None => {
                    proof {
                        if c0.deliverable(loc@.node) {
                            let j2 = choose|j2: int|
                                0 <= j2 < c0.daemons@.len() && (#[trigger] c0.daemons@[j2]).local@
                                    == loc@.node && c0.online@[j2];
                            assert(self.daemons@[j2].local@ == loc@.node);
                            assert(false);
                        }
                    }
                    return Err(VPFSError::NotAccessible);
                },
            };
            if !self.online[j] {
                proof {
                    if c0.deliverable(loc@.node) {
                        let j2 = choose|j2: int|
                            0 <= j2 < c0.daemons@.len() && (#[trigger] c0.daemons@[j2]).local@
                                == loc@.node && c0.online@[j2];
                        assert(self.daemons@[j2].local@ == loc@.node);
                        assert(j2 == j as int);
                        assert(false);
                    }
                }
                return Err(VPFSError::NotAccessible);
            }
            proof {
                assert(j != i);
                assert(daemon_quiet(c0.daemons@[j as int], self.daemons@[j as int]));
            }
            let now = self.clock;
            let n = data.len();
            let ghost dv = data@;
            let (resp, resp_body) = {
                let od = &mut self.daemons[j];
                od.handle_daemon_request(
                    DaemonRequest::Write(loc.uri.clone(), n),
                    Some(data),
                    0,
                    now,
                )
            };
            self.tick();
            match resp {
                DaemonResponse::Write(res) => {
                    proof {
                        if res is Ok {
                            assert forall|x: int|
                                0 <= x < c0.daemons@.len() && (#[trigger] c0.daemons@[x]).local@
                                    == loc@.node implies self.daemons@[x].store@
                                == c0.daemons@[x].store@.insert(
                                loc@.uri,
                                crate::store::FileV { bytes: dv, mtime: now },
                            ) by {
                                if x != j as int {
                                    assert(c0.daemons@[x].local@ == c0.daemons@[
                                        j as int].local@);
                                    assert(false);
                                }
                            }
                        }
                    }
                    res
                },
                _ => {
                    proof {
                        assert(false);
                    }
                    Err(VPFSError::NotAccessible)
                },
            }
        }
    }
}

impl Cluster {
    /// Serve a client's `Place`: a plain file.
    pub fn client_place(&mut self, i: usize, path: &str, at: &Node) -> (r: Result<
        Location,
        VPFSError,
    >)
        requires
            old(self).wf(),
            i < old(self).daemons@.len(),
            old(self).daemons@[i as int].cache_clean(),
        ensures
            final(self).wf(),
            final(self).daemons@.len() == old(self).daemons@.len(),
            final(self).online@ == old(self).online@,
            final(self).clock >= old(self).clock,
            ((!has_slash(path@) && at@ == old(self).daemons@[i as int].local@ && (old(self).daemons@[i as int].root matches Some(rn) && rn@ == old(self).daemons@[i as int].local@)) || r is Err) ==> final(self).daemons@[i as int].cache_clean(),
            forall|j: int|
                0 <= j < old(self).daemons@.len() ==> (#[trigger] final(self).daemons@[j]).local == old(self).daemons@[j].local && final(self).daemons@[j].root == old(self).daemons@[j].root && final(self).daemons@[j].listening_addr == old(self).daemons@[j].listening_addr,
            (!has_slash(path@) && at@ == old(self).daemons@[i as int].local@ && (old(self).daemons@[i as int].root matches Some(rn) && rn@ == old(self).daemons@[i as int].local@)) ==> match r {
                Ok(l) => {
                    &&& find_in_dir(
                        old(self).daemons@[i as int].store@[root_uri_spec()].bytes,
                        path@,
                    ) is None
                    &&& l@.node == old(self).daemons@[i as int].local@
                    &&& !old(self).daemons@[i as int].store@.contains_key(l@.uri)
                    &&& final(self).daemons@[i as int].store@.contains_key(root_uri_spec())
                    &&& final(self).daemons@[i as int].store@[root_uri_spec()].bytes == old(self).daemons@[i as int].store@[root_uri_spec()].bytes + enc_entry(
                        crate::messages::EntryV { loc: l@, name: path@, is_dir: false },
                    )
                    &&& final(self).daemons@[i as int].store@.contains_key(l@.uri)
                },
                Err(e) => match e {
                    VPFSError::AlreadyExists(existing) => find_in_dir(
                        old(self).daemons@[i as int].store@[root_uri_spec()].bytes,
                        path@,
                    ) == Some(existing@) && final(self).daemons@[i as int].store@ == old(self).daemons@[i as int].store@,
                    VPFSError::DoesNotExist => !old(self).daemons@[i as int].store@.contains_key(
                        root_uri_spec(),
                    ),
                    VPFSError::NotAccessible => exists|k: Seq<char>|
                        old(self).daemons@[i as int].store@.contains_key(k) && k.len()
                            >= usize::MAX,
                    _ => false,
                },
            },
            // a nested path placed by the root daemon at itself, with a
            // locally resolving parent directory: the parent file gains
            // exactly the new entry, a duplicate is refused with the
            // existing entry, and nothing else can go wrong
            (has_slash(path@) && at@ == old(self).daemons@[i as int].local@ && (old(self).daemons@[i as int].root matches Some(rn) && rn@ == old(self).daemons@[i as int].local@)
                && local_resolve(
                old(self).daemons@[i as int].store@,
                old(self).daemons@[i as int].local@,
                parent_of(path@),
            ) is Ok && local_resolve(
                old(self).daemons@[i as int].store@,
                old(self).daemons@[i as int].local@,
                parent_of(path@),
            )->Ok_0.is_dir && local_resolve(
                old(self).daemons@[i as int].store@,
                old(self).daemons@[i as int].local@,
                parent_of(path@),
            )->Ok_0.loc.node == old(self).daemons@[i as int].local@ && old(self).daemons@[i as int].store@.contains_key(
                local_resolve(
                    old(self).daemons@[i as int].store@,
                    old(self).daemons@[i as int].local@,
                    parent_of(path@),
                )->Ok_0.loc.uri,
            )) ==> (local_resolve(
                old(self).daemons@[i as int].store@,
                old(self).daemons@[i as int].local@,
                parent_of(path@),
            ) matches Ok(pe) ==> match r {
                Ok(l) => {
                    &&& find_in_dir(
                        old(self).daemons@[i as int].store@[pe.loc.uri].bytes,
                        base_of(path@),
                    ) is None
                    &&& l@.node == old(self).daemons@[i as int].local@
                    &&& !old(self).daemons@[i as int].store@.contains_key(l@.uri)
                    &&& final(self).daemons@[i as int].store@.contains_key(pe.loc.uri)
                    &&& final(self).daemons@[i as int].store@[pe.loc.uri].bytes == old(self).daemons@[i as int].store@[pe.loc.uri].bytes + enc_entry(
                        crate::messages::EntryV { loc: l@, name: base_of(path@), is_dir: false },
                    )
                    &&& final(self).daemons@[i as int].store@.contains_key(l@.uri)
                    &&& final(self).daemons@[i as int].store@[l@.uri].bytes
                        == Seq::<u8>::empty()
                },
                Err(e) => match e {
                    VPFSError::AlreadyExists(existing) => find_in_dir(
                        old(self).daemons@[i as int].store@[pe.loc.uri].bytes,
                        base_of(path@),
                    ) == Some(existing@) && final(self).daemons@[i as int].store@ == old(self).daemons@[i as int].store@,
                    VPFSError::NotAccessible => exists|k: Seq<char>|
                        old(self).daemons@[i as int].store@.contains_key(k) && k.len()
                            >= usize::MAX,
                    _ => false,
                },
            }),
            // a bare file name placed at the remote root by a joined
            // daemon: the root's directory gains exactly the new entry
            // beside the fresh empty file, or the duplicate is refused and
            // the allocation rolled back
            (!has_slash(path@) && (old(self).daemons@[i as int].root matches Some(rn) && rn@
                != old(self).daemons@[i as int].local@ && at@ == rn@) && old(self).can_reach(
                i as int,
                at@,
            ) && old(self).deliverable(at@) && (forall|j: int|
                0 <= j < old(self).daemons@.len() && (#[trigger] old(self).daemons@[j]).local@
                    == at@ ==> old(self).daemons@[j].store@.contains_key(root_uri_spec()))
                && (forall|j: int, k: Seq<char>|
                0 <= j < old(self).daemons@.len() && old(self).daemons@[j].local@ == at@
                    && #[trigger] old(self).daemons@[j].store@.contains_key(k) ==> k.len()
                    < usize::MAX)) ==> match r {
                Ok(l) => l@.node == at@ && final(self).connected(i as int, at@) && forall|j: int|
                    0 <= j < old(self).daemons@.len() && (#[trigger] old(self).daemons@[j]).local@
                        == at@ ==> {
                        &&& find_in_dir(
                            old(self).daemons@[j].store@[root_uri_spec()].bytes,
                            path@,
                        ) is None
                        &&& !old(self).daemons@[j].store@.contains_key(l@.uri)
                        &&& final(self).daemons@[j].store@.contains_key(root_uri_spec())
                        &&& final(self).daemons@[j].store@[root_uri_spec()].bytes == old(self).daemons@[j].store@[root_uri_spec()].bytes + enc_entry(
                            crate::messages::EntryV { loc: l@, name: path@, is_dir: false },
                        )
                        &&& final(self).daemons@[j].store@.contains_key(l@.uri)
                        &&& final(self).daemons@[j].store@[l@.uri].bytes == Seq::<u8>::empty()
                    },
                Err(e) => match e {
                    VPFSError::AlreadyExists(existing) => forall|j: int|
                        0 <= j < old(self).daemons@.len() && (#[trigger] old(self).daemons@[j]).local@ == at@ ==> find_in_dir(
                            old(self).daemons@[j].store@[root_uri_spec()].bytes,
                            path@,
                        ) == Some(existing@) && final(self).daemons@[j].store@ == old(self).daemons@[j].store@,
                    _ => false,
                },
            },
    {
        self.place_file(i, path, at, false)
    }

    /// Serve a client's `Mkdir`: a directory, seeded with `.` and `..`.
    pub fn client_mkdir(&mut self, i: usize, path: &str, at: &Node) -> (r: Result<
        Location,
        VPFSError,
    >)
        requires
            old(self).wf(),
            i < old(self).daemons@.len(),
            old(self).daemons@[i as int].cache_clean(),
        ensures
            final(self).wf(),
            final(self).daemons@.len() == old(self).daemons@.len(),
            final(self).online@ == old(self).online@,
            final(self).clock >= old(self).clock,
            ((!has_slash(path@) && at@ == old(self).daemons@[i as int].local@ && (old(self).daemons@[i as int].root matches Some(rn) && rn@ == old(self).daemons@[i as int].local@)) || r is Err) ==> final(self).daemons@[i as int].cache_clean(),
            forall|j: int|
                0 <= j < old(self).daemons@.len() ==> (#[trigger] final(self).daemons@[j]).local == old(self).daemons@[j].local && final(self).daemons@[j].root == old(self).daemons@[j].root && final(self).daemons@[j].listening_addr == old(self).daemons@[j].listening_addr,
            (!has_slash(path@) && at@ == old(self).daemons@[i as int].local@ && (old(self).daemons@[i as int].root matches Some(rn) && rn@ == old(self).daemons@[i as int].local@)) ==> match r {
                Ok(l) => {
                    &&& find_in_dir(
                        old(self).daemons@[i as int].store@[root_uri_spec()].bytes,
                        path@,
                    ) is None
                    &&& l@.node == old(self).daemons@[i as int].local@
                    &&& final(self).daemons@[i as int].store@.contains_key(root_uri_spec())
                    &&& final(self).daemons@[i as int].store@[root_uri_spec()].bytes == old(self).daemons@[i as int].store@[root_uri_spec()].bytes + enc_entry(
                        crate::messages::EntryV { loc: l@, name: path@, is_dir: true },
                    )
                    &&& final(self).daemons@[i as int].store@.contains_key(l@.uri)
                    &&& wf_dir(final(self).daemons@[i as int].store@[l@.uri].bytes)
                    &&& dir_seq(final(self).daemons@[i as int].store@[l@.uri].bytes) =~= seq![
                        crate::messages::EntryV { loc: l@, name: "."@, is_dir: true },
                        crate::messages::EntryV {
                            loc: crate::messages::LocV {
                                node: old(self).daemons@[i as int].local@,
                                uri: root_uri_spec(),
                            },
                            name: ".."@,
                            is_dir: true,
                        },
                    ]
                },
                Err(e) => match e {
                    VPFSError::AlreadyExists(existing) => find_in_dir(
                        old(self).daemons@[i as int].store@[root_uri_spec()].bytes,
                        path@,
                    ) == Some(existing@) && final(self).daemons@[i as int].store@ == old(self).daemons@[i as int].store@,
                    VPFSError::DoesNotExist => !old(self).daemons@[i as int].store@.contains_key(
                        root_uri_spec(),
                    ),
                    VPFSError::NotAccessible => exists|k: Seq<char>|
                        old(self).daemons@[i as int].store@.contains_key(k) && k.len()
                            >= usize::MAX,
                    _ => false,
                },
            },
            // a nested directory made by the root daemon at itself, with
            // a locally resolving parent: the parent file gains exactly
            // the new entry and the fresh directory is seeded
            (has_slash(path@) && at@ == old(self).daemons@[i as int].local@ && (old(self).daemons@[i as int].root matches Some(rn) && rn@ == old(self).daemons@[i as int].local@)
                && local_resolve(
                old(self).daemons@[i as int].store@,
                old(self).daemons@[i as int].local@,
                parent_of(path@),
            ) is Ok && local_resolve(
                old(self).daemons@[i as int].store@,
                old(self).daemons@[i as int].local@,
                parent_of(path@),
            )->Ok_0.is_dir && local_resolve(
                old(self).daemons@[i as int].store@,
                old(self).daemons@[i as int].local@,
                parent_of(path@),
            )->Ok_0.loc.node == old(self).daemons@[i as int].local@ && old(self).daemons@[i as int].store@.contains_key(
                local_resolve(
                    old(self).daemons@[i as int].store@,
                    old(self).daemons@[i as int].local@,
                    parent_of(path@),
                )->Ok_0.loc.uri,
            )) ==> (local_resolve(
                old(self).daemons@[i as int].store@,
                old(self).daemons@[i as int].local@,
                parent_of(path@),
            ) matches Ok(pe) ==> match r {
                Ok(l) => {
                    &&& find_in_dir(
                        old(self).daemons@[i as int].store@[pe.loc.uri].bytes,
                        base_of(path@),
                    ) is None
                    &&& l@.node == old(self).daemons@[i as int].local@
                    &&& !old(self).daemons@[i as int].store@.contains_key(l@.uri)
                    &&& final(self).daemons@[i as int].store@.contains_key(pe.loc.uri)
                    &&& final(self).daemons@[i as int].store@[pe.loc.uri].bytes == old(self).daemons@[i as int].store@[pe.loc.uri].bytes + enc_entry(
                        crate::messages::EntryV { loc: l@, name: base_of(path@), is_dir: true },
                    )
                    &&& final(self).daemons@[i as int].store@.contains_key(l@.uri)
                    &&& wf_dir(final(self).daemons@[i as int].store@[l@.uri].bytes)
                    &&& dir_seq(final(self).daemons@[i as int].store@[l@.uri].bytes) =~= seq![
                        crate::messages::EntryV { loc: l@, name: "."@, is_dir: true },
                        crate::messages::EntryV { loc: pe.loc, name: ".."@, is_dir: true },
                    ]
                },
                Err(e) => match e {
                    VPFSError::AlreadyExists(existing) => find_in_dir(
                        old(self).daemons@[i as int].store@[pe.loc.uri].bytes,
                        base_of(path@),
                    ) == Some(existing@) && final(self).daemons@[i as int].store@ == old(self).daemons@[i as int].store@,
                    VPFSError::NotAccessible => exists|k: Seq<char>|
                        old(self).daemons@[i as int].store@.contains_key(k) && k.len()
                            >= usize::MAX,
                    _ => false,
                },
            }),
    {
        self.place_file(i, path, at, true)
    }

    /// The client library's `store`: place the name, or on a duplicate
    /// take the existing entry's location, then write the bytes there.
    /// On the root daemon a bare name ends up resolvable to a local file
    /// holding exactly the bytes, whether the name was fresh or taken.
    #[verifier::rlimit(100)]
    pub fn client_store(&mut self, i: usize, path: &str, data: Vec<u8>) -> (r: Result<
        usize,
        VPFSError,
    >)
        requires
            old(self).wf(),
            i < old(self).daemons@.len(),
            old(self).daemons@[i as int].cache_clean(),
        ensures
            final(self).wf(),
            final(self).daemons@.len() == old(self).daemons@.len(),
            final(self).online@ == old(self).online@,
            final(self).clock >= old(self).clock,
            forall|j: int|
                0 <= j < old(self).daemons@.len() ==> (#[trigger] final(self).daemons@[j]).local
                    == old(self).daemons@[j].local && final(self).daemons@[j].root == old(self).daemons@[j].root && final(self).daemons@[j].listening_addr == old(self).daemons@[j].listening_addr,
            (!has_slash(path@) && (old(self).daemons@[i as int].root matches Some(rn) && rn@
                == old(self).daemons@[i as int].local@) && old(self).daemons@[i as int].store@.contains_key(root_uri_spec()) && wf_dir(
                old(self).daemons@[i as int].store@[root_uri_spec()].bytes,
            )) ==> match Cluster::root_local_lookup(old(self).daemons@[i as int], path@) {
                Err(u) => (r matches Ok(n) && n == data@.len() && (exists|uv: Seq<char>|
                    !old(self).daemons@[i as int].store@.contains_key(uv)
                        && Cluster::root_local_lookup(final(self).daemons@[i as int], path@)
                        == Ok::<crate::messages::EntryV, ()>(
                        crate::messages::EntryV {
                            loc: crate::messages::LocV {
                                node: old(self).daemons@[i as int].local@,
                                uri: uv,
                            },
                            name: path@,
                            is_dir: false,
                        },
                    ) && final(self).daemons@[i as int].store@.contains_key(uv) && final(self).daemons@[i as int].store@[uv].bytes == data@)) || (r matches Err(e)
                    && e is NotAccessible && exists|k: Seq<char>|
                    old(self).daemons@[i as int].store@.contains_key(k) && k.len() >= usize::MAX),
                Ok(ev) => (ev.loc.node == old(self).daemons@[i as int].local@ && ev.loc.uri
                    != root_uri_spec() && old(self).daemons@[i as int].store@.contains_key(
                    ev.loc.uri,
                )) ==> ((r matches Ok(n) && n == data@.len()
                    && Cluster::root_local_lookup(final(self).daemons@[i as int], path@)
                    == Ok::<crate::messages::EntryV, ()>(ev)
                    && final(self).daemons@[i as int].store@.contains_key(ev.loc.uri) && final(self).daemons@[i as int].store@[ev.loc.uri].bytes == data@) || (r matches Err(e)
                    && e is NotAccessible && exists|k: Seq<char>|
                    old(self).daemons@[i as int].store@.contains_key(k) && k.len()
                        >= usize::MAX)),
            },
    {
        let ghost c0 = *old(self);
        let ghost rl = !has_slash(path@) && (c0.daemons@[i as int].root matches Some(rn) && rn@
            == c0.daemons@[i as int].local@) && c0.daemons@[i as int].store@.contains_key(
            root_uri_spec(),
        ) && wf_dir(c0.daemons@[i as int].store@[root_uri_spec()].bytes);
        let at = self.daemons[i].local.clone();
        let place_result = self.place_file(i, path, &at, false);
        let ghost c1 = *self;
        let loc = match place_result {
            Ok(loc) => {
                proof {
                    if rl {
                        crate::codec::lemma_dir_append(
                            c0.daemons@[i as int].store@[root_uri_spec()].bytes,
                            crate::messages::EntryV {
                                loc: loc@,
                                name: path@,
                                is_dir: false,
                            },
                        );
                    }
                }
                loc
            },
            Err(VPFSError::AlreadyExists(existing)) => existing.location,
            Err(e) => {
                return Err(e);
            },
        };
        let n = data.len();
        let write_result = self.client_write(i, &loc, data);
        proof {
            if rl {
                assert(at@ == c0.daemons@[i as int].local@);
                match Cluster::root_local_lookup(c0.daemons@[i as int], path@) {
                    Err(u) => {
                        // the name was fresh: placement succeeded and the
                        // write landed on the fresh file
                        assert(loc@.uri != root_uri_spec());
                        if write_result is Ok {
                            assert(self.daemons@[i as int].store@.contains_key(root_uri_spec()));
                            assert(self.daemons@[i as int].store@[root_uri_spec()]
                                == c1.daemons@[i as int].store@[root_uri_spec()]);
                        } else {
                            assert(false);
                        }
                    },
                    Ok(ev) => {
                        if ev.loc.node == c0.daemons@[i as int].local@ && ev.loc.uri
                            != root_uri_spec() && c0.daemons@[i as int].store@.contains_key(
                            ev.loc.uri,
                        ) {
                            assert(loc@ == ev.loc);
                            if write_result is Ok {
                                assert(self.daemons@[i as int].store@.contains_key(
                                    root_uri_spec(),
                                ));
                                assert(self.daemons@[i as int].store@[root_uri_spec()]
                                    == c1.daemons@[i as int].store@[root_uri_spec()]);
                            } else {
                                assert(false);
                            }
                        }
                    },
                }
            }
        }
        write_result
    }

    /// The client library's `fetch`: resolve the name, then read what the
    /// entry points at.  On the root daemon a bare name whose entry names
    /// a local file yields exactly that file's bytes.
    pub fn client_fetch(&mut self, i: usize, path: &str) -> (r: Result<Vec<u8>, VPFSError>)
        requires
            old(self).wf(),
            i < old(self).daemons@.len(),
            old(self).daemons@[i as int].cache_clean(),
        ensures
            final(self).wf(),
            final(self).daemons@.len() == old(self).daemons@.len(),
            final(self).online@ == old(self).online@,
            final(self).clock >= old(self).clock,
            final(self).daemons@[i as int].cache_clean(),
            forall|j: int|
                0 <= j < old(self).daemons@.len() ==> (#[trigger] final(self).daemons@[j]).local
                    == old(self).daemons@[j].local && final(self).daemons@[j].root == old(self).daemons@[j].root && final(self).daemons@[j].listening_addr == old(self).daemons@[j].listening_addr,
            (!has_slash(path@) && (old(self).daemons@[i as int].root matches Some(rn) && rn@
                == old(self).daemons@[i as int].local@)) ==> match Cluster::root_local_lookup(
                old(self).daemons@[i as int],
                path@,
            ) {
                Ok(ev) => (ev.loc.node == old(self).daemons@[i as int].local@ && old(self).daemons@[i as int].store@.contains_key(ev.loc.uri)) ==> (r matches Ok(b) && b@
                    == old(self).daemons@[i as int].store@[ev.loc.uri].bytes),
                Err(u) => r matches Err(e) && e is DoesNotExist,
            },
            // on the root daemon a nested path whose walk stays local is
            // fetched exactly: the resolved entry's file is read
            (old(self).daemons@[i as int].root matches Some(rn) && rn@ == old(self).daemons@[i as int].local@) ==> match local_resolve(
                old(self).daemons@[i as int].store@,
                old(self).daemons@[i as int].local@,
                path@,
            ) {
                Ok(ev) => (ev.loc.node == old(self).daemons@[i as int].local@ && old(self).daemons@[i as int].store@.contains_key(ev.loc.uri)) ==> (r matches Ok(b) && b@
                    == old(self).daemons@[i as int].store@[ev.loc.uri].bytes),
                Err(stop) => match stop {
                    ResolveStop::Missing => r matches Err(e) && e is DoesNotExist,
                    ResolveStop::NotDir => r matches Err(e) && e is NotADirectory,
                    ResolveStop::Offsite => true,
                },
            },
    {
        let entry = match self.recursive_find(i, path) {
            Ok(entry) => entry,
            Err(e) => {
                return Err(e);
            },
        };
        self.client_read(i, &entry.location)
    }

    /// The per-connection dispatcher: serve one client request with one
    /// response; a read's bytes ride along after the response, a write's
    /// arrive with the request.
    pub fn handle_client_request(&mut self, i: usize, req: ClientRequest, body: Option<Vec<u8>>)
        -> (r: (ClientResponse, Option<Vec<u8>>))
        requires
            old(self).wf(),
            i < old(self).daemons@.len(),
            old(self).daemons@[i as int].cache_clean(),
        ensures
            final(self).wf(),
            final(self).daemons@.len() == old(self).daemons@.len(),
            final(self).online@ == old(self).online@,
            req is Find ==> r.0 is Find && r.1 is None,
            req is Place ==> r.0 is Place && r.1 is None,
            req is Mkdir ==> r.0 is Mkdir && r.1 is None,
            req is Read ==> r.0 is Read && (r.0 matches ClientResponse::Read(res)
                ==> ((res is Ok) == (r.1 is Some))),
            req is Write ==> r.0 is Write && r.1 is None,
            // a successful read announces exactly the carried body's length
            r.0 matches ClientResponse::Read(res) ==> (res matches Ok(n) ==> (r.1 matches Some(b)
                && b@.len() == n)),
            // the resolver's root-local answer passes through the wire
            req matches ClientRequest::Find(p) ==> ((!has_slash(p@) && (old(self).daemons@[i as int].root matches Some(rn) && rn@ == old(self).daemons@[i as int].local@))
                ==> (r.0 matches ClientResponse::Find(res) && match Cluster::root_local_lookup(
                old(self).daemons@[i as int],
                p@,
            ) {
                Ok(ev) => res matches Ok(e) && e@ == ev,
                Err(u) => res matches Err(e) && e is DoesNotExist,
            })),
            // so does a root-local placement
            req matches ClientRequest::Place(p, at) ==> ((!has_slash(p@) && at@ == old(self).daemons@[i as int].local@ && (old(self).daemons@[i as int].root matches Some(rn)
                && rn@ == old(self).daemons@[i as int].local@)) ==> (r.0 matches ClientResponse::Place(res) && match res {
                Ok(l) => find_in_dir(
                    old(self).daemons@[i as int].store@[root_uri_spec()].bytes,
                    p@,
                ) is None && l@.node == old(self).daemons@[i as int].local@ && final(self).daemons@[i as int].store@.contains_key(root_uri_spec()) && final(self).daemons@[i as int].store@[root_uri_spec()].bytes == old(self).daemons@[i as int].store@[root_uri_spec()].bytes + enc_entry(
                    crate::messages::EntryV { loc: l@, name: p@, is_dir: false },
                ),
                Err(e) => match e {
                    VPFSError::AlreadyExists(existing) => find_in_dir(
                        old(self).daemons@[i as int].store@[root_uri_spec()].bytes,
                        p@,
                    ) == Some(existing@),
                    VPFSError::DoesNotExist => !old(self).daemons@[i as int].store@.contains_key(
                        root_uri_spec(),
                    ),
                    VPFSError::NotAccessible => exists|k: Seq<char>|
                        old(self).daemons@[i as int].store@.contains_key(k) && k.len()
                            >= usize::MAX,
                    _ => false,
                },
            })),
    {
        match req {
            ClientRequest::Find(path) => {
                (ClientResponse::Find(self.client_find(i, path.as_str())), None)
            },
            ClientRequest::Place(path, at) => {
                let res = self.client_place(i, path.as_str(), &at);
                (ClientResponse::Place(res), None)
            },
            ClientRequest::Mkdir(path, at) => {
                (ClientResponse::Mkdir(self.client_mkdir(i, path.as_str(), &at)), None)
            },
            ClientRequest::Read(loc) => {
                match self.client_read(i, &loc) {
                    Ok(b) => {
                        let n = b.len();
                        (ClientResponse::Read(Ok(n)), Some(b))
                    },
                    Err(e) => (ClientResponse::Read(Err(e)), None),
                }
            },
            ClientRequest::Write(loc, len) => {
                match body {
                    Some(b) => {
                        match self.client_write(i, &loc, b) {
                            Ok(n) => (ClientResponse::Write(Ok(n)), None),
                            Err(e) => (ClientResponse::Write(Err(e)), None),
                        }
                    },
                    None => {
                        let msg = String::new();
                        (ClientResponse::Write(Err(VPFSError::Other(msg))), None)
                    },
                }
            },
        }
    }

    /// An empty cluster.
    pub fn new() -> (r: Cluster)
        ensures
            r.wf(),
            r.daemons@.len() == 0,
    {
        Cluster { daemons: Vec::new(), online: Vec::new(), clock: 0 }
    }

    /// Start the root daemon: it restores any persisted cache, owns the
    /// known-hosts table, and makes the root directory file with its `.`
    /// and `..` entries.  Returns its position.
    pub fn add_root_daemon(&mut self, name: String, addr: String, cache_size: u64) -> (r: usize)
        requires
            old(self).wf(),
            forall|j: int|
                0 <= j < old(self).daemons@.len() ==> (#[trigger] old(self).daemons@[j]).local@
                    != name@,
        ensures
            final(self).wf(),
            final(self).daemons@.len() == old(self).daemons@.len() + 1,
            r == old(self).daemons@.len(),
            final(self).online@[r as int],
            final(self).online@ == old(self).online@.push(true),
            final(self).daemons@[r as int].local@ == name@,
            final(self).daemons@[r as int].root matches Some(rn) && rn@ == name@,
            final(self).daemons@[r as int].cache_clean(),
            final(self).daemons@[r as int].store@.contains_key(root_uri_spec()),
            // the fresh daemon listens at the given address, owns the
            // hosts table, and starts with no connections and an empty
            // cache
            final(self).daemons@[r as int].listening_addr@ == addr@,
            final(self).daemons@[r as int].known_hosts is Some,
            final(self).daemons@[r as int].connections@.len() == 0,
            final(self).daemons@[r as int].cache.pairs().len() == 0,
            final(self).daemons@[r as int].cache.used == 0,
            final(self).daemons@[r as int].cache.max == cache_size,
            // the fresh root directory holds exactly its self and parent
            // entries, both naming the root itself
            wf_dir(final(self).daemons@[r as int].store@[root_uri_spec()].bytes),
            dir_seq(final(self).daemons@[r as int].store@[root_uri_spec()].bytes) =~= seq![
                crate::messages::EntryV {
                    loc: crate::messages::LocV { node: name@, uri: root_uri_spec() },
                    name: "."@,
                    is_dir: true,
                },
                crate::messages::EntryV {
                    loc: crate::messages::LocV { node: name@, uri: root_uri_spec() },
                    name: ".."@,
                    is_dir: true,
                },
            ],
            forall|j: int|
                0 <= j < old(self).daemons@.len() ==> final(self).daemons@[j] == old(self).daemons@[j],
    {
        let node = Node { name };
        let root_copy = node.clone();
        let mut d = Daemon::new(node, Some(root_copy), addr, cache_size);
        let restored = d.restore_cache(cache_size);
        proof {
            assert(!restored);
        }
        d.known_hosts = Some(Vec::new());
        let now = self.clock;
        d.init_root(now);
        proof {
            assert(d.cache_clean());
        }
        let r = self.daemons.len();
        let ghost dv = d;
        self.daemons.push(d);
        self.online.push(true);
        proof {
            assert(forall|x: int| 0 <= x < r ==> self.daemons@[x] == old(self).daemons@[x]);
            assert(self.daemons@[r as int] == dv);
            assert forall|a: int, b: int|
                0 <= a < b < self.daemons@.len() implies (#[trigger] self.daemons@[a]).local@ != (
            #[trigger] self.daemons@[b]).local@ by {
                if b == r as int {
                    assert(old(self).daemons@[a].local@ != dv.local@);
                }
            }
            assert forall|x: int, u: Seq<char>|
                0 <= x < self.daemons@.len() && #[trigger] self.daemons@[x].store@.contains_key(
                    u,
                ) implies self.daemons@[x].store@[u].mtime <= self.clock by {
                if x == r as int {
                    assert(dv.store@[u].mtime == now);
                }
            }
        }
        self.tick();
        r
    }

    /// Start a joining daemon: it restores any persisted cache, dials the
    /// root, greets it with its own identity and listening address, and
    /// takes over the root identity and known-hosts table from the
    /// answer.  Returns its position, or `None` when no online daemon
    /// answers at the root address or the answerer is not a root.
    pub fn add_peer_daemon(
        &mut self,
        name: String,
        addr: String,
        root_addr: String,
        cache_size: u64,
    ) -> (r: Option<usize>)
        requires
            old(self).wf(),
            forall|j: int|
                0 <= j < old(self).daemons@.len() ==> (#[trigger] old(self).daemons@[j]).local@
                    != name@,
        ensures
            final(self).wf(),
            r matches Some(x) ==> {
                &&& final(self).daemons@.len() == old(self).daemons@.len() + 1
                &&& x == old(self).daemons@.len()
                &&& final(self).online@[x as int]
                &&& final(self).online@ == old(self).online@.push(true)
                &&& final(self).daemons@[x as int].local@ == name@
                &&& final(self).daemons@[x as int].cache_clean()
                &&& final(self).daemons@[x as int].root is Some
                &&& final(self).daemons@[x as int].listening_addr@ == addr@
                &&& final(self).daemons@[x as int].known_hosts is Some
                &&& final(self).daemons@[x as int].connections@.len() == 0
                &&& final(self).daemons@[x as int].store@ == Map::<Seq<char>, FileV>::empty()
                &&& final(self).daemons@[x as int].cache.pairs().len() == 0
            },
            r is None ==> final(self).daemons == old(self).daemons && final(self).online@
                == old(self).online@ && final(self).clock == old(self).clock,
            // every prior daemon keeps its identity, files, cache and
            // connections; only the greeted root's known-hosts table may
            // have learned the joiner
            forall|j: int|
                0 <= j < old(self).daemons@.len() ==> (#[trigger] final(self).daemons@[j]).local
                    == old(self).daemons@[j].local && final(self).daemons@[j].root == old(self).daemons@[j].root && final(self).daemons@[j].listening_addr == old(self).daemons@[j].listening_addr && final(self).daemons@[j].store@ == old(self).daemons@[j].store@
                    && final(self).daemons@[j].cache == old(self).daemons@[j].cache && final(self).daemons@[j].connections == old(self).daemons@[j].connections,
            // when every online daemon at the root address is a live root
            // (holding its identity and a hosts table), the join succeeds,
            // the joiner takes over exactly that root identity, and it can
            // reach the root it just joined
            (old(self).dialable(root_addr@) && (forall|j: int|
                0 <= j < old(self).daemons@.len() && (#[trigger] old(self).daemons@[j]).listening_addr@ == root_addr@ && old(self).online@[j] ==> old(self).daemons@[j].known_hosts is Some && old(self).daemons@[j].root is Some))
                ==> (r is Some && exists|j: int|
                0 <= j < old(self).daemons@.len() && (#[trigger] old(self).daemons@[j]).listening_addr@ == root_addr@ && old(self).online@[j] && final(self).daemons@[old(self).daemons@.len() as int].root->Some_0@ == old(self).daemons@[j].root->Some_0@
                    && hosts_entry(
                    final(self).daemons@[old(self).daemons@.len() as int].known_hosts,
                    old(self).daemons@[j].root->Some_0@,
                    root_addr@,
                )) && final(self).can_reach(
                old(self).daemons@.len() as int,
                final(self).daemons@[old(self).daemons@.len() as int].root->Some_0@,
            ),
    {
        let node = Node { name };
        let mut d = Daemon::new(node.clone(), None, addr.clone(), cache_size);
        let restored = d.restore_cache(cache_size);
        proof {
            assert(!restored);
        }
        let j = match self.dial(&root_addr) {
            Some(j) => j,
            None => {
                return None;
            },
        };
        match &self.daemons[j].known_hosts {
            Some(h) => {},
            None => {
                return None;
            },
        }
        match &self.daemons[j].root {
            Some(rn) => {},
            None => {
                return None;
            },
        }
        let (root_node, hosts) = {
            let rd = &mut self.daemons[j];
            match rd.handle_hello(Hello::RootHello(node, addr)) {
                HelloResponse::RootHello(root_node, hosts) => (root_node, hosts),
                _ => {
                    proof {
                        assert(false);
                    }
                    return None;
                },
            }
        };
        proof {
            assert(hosts_wf(hosts@)) by {
                assert(hosts_view(hosts@) == hosts_view(
                    self.daemons@[j as int].known_hosts->Some_0@,
                ));
            }
        }
        d.apply_root_hello(root_node, hosts, root_addr);
        let r = self.daemons.len();
        proof {
            assert(forall|x: int|
                0 <= x < self.daemons@.len() ==> (#[trigger] self.daemons@[x]).local@ == old(self).daemons@[x].local@);
        }
        self.daemons.push(d);
        self.online.push(true);
        self.tick();
        proof {
            // the joiner can reach the root: its fresh table names the
            // root under the address that answered, and the root still
            // listens there
            let rn = self.daemons@[r as int].root->Some_0@;
            assert(hosts_entry(self.daemons@[r as int].known_hosts, rn, root_addr@));
            assert(!hosts_no_entry(self.daemons@[r as int].known_hosts, rn)) by {
                match self.daemons@[r as int].known_hosts {
                    Some(h) => {
                        let m = choose|m: int|
                            0 <= m < hosts_view(h@).len() && #[trigger] hosts_view(h@)[m] == (
                                rn,
                                root_addr@,
                            );
                        assert(hosts_view(h@)[m].0 == rn);
                    },
                    None => {
                        assert(false);
                    },
                }
            }
            assert(!self.connected(r as int, rn)) by {
                assert(self.daemons@[r as int].connections@.len() == 0);
            }
            assert(self.daemons@[j as int].listening_addr@ == root_addr@ && self.online@[
                j as int]);
            assert(self.dialable(root_addr@));
            assert(self.can_reach(r as int, rn));
        }
        Some(r)
    }

    /// Flip a daemon's reachability, as a crash or a network cut would.
    pub fn set_online(&mut self, i: usize, up: bool)
        requires
            old(self).wf(),
            i < old(self).daemons@.len(),
        ensures
            final(self).wf(),
            final(self).daemons == old(self).daemons,
            final(self).online@ == old(self).online@.update(i as int, up),
            final(self).clock == old(self).clock,
    {
        self.online[i] = up;
    }

    /// Restart a daemon: its files survive on disk, its in-memory state
    /// is rebuilt, and the cache index and root identity come back from
    /// the `cache` file, in the persisted least-recently-used order.
    pub fn restart_daemon(&mut self, i: usize, cache_size: u64)
        requires
            old(self).wf(),
            i < old(self).daemons@.len(),
        ensures
            final(self).wf(),
            final(self).daemons@.len() == old(self).daemons@.len(),
            final(self).online@ == old(self).online@,
            final(self).clock == old(self).clock,
            final(self).daemons@[i as int].local == old(self).daemons@[i as int].local,
            final(self).daemons@[i as int].listening_addr == old(self).daemons@[i as int].listening_addr,
            final(self).daemons@[i as int].store@ == old(self).daemons@[i as int].store@,
            // the restart drops the held streams and the learned hosts
            final(self).daemons@[i as int].connections@.len() == 0,
            final(self).daemons@[i as int].known_hosts is None,
            final(self).daemons@[i as int].cache.max == cache_size,
            forall|j: int|
                0 <= j < old(self).daemons@.len() && j != i ==> final(self).daemons@[j] == old(self).daemons@[j],
            // without a persisted index the daemon comes back with its
            // old root identity and an empty cache
            !old(self).daemons@[i as int].store@.contains_key(Daemon::cache_file_spec()) ==> final(self).daemons@[i as int].root == old(self).daemons@[i as int].root && final(self).daemons@[i as int].cache.pairs().len() == 0 && final(self).daemons@[i as int].cache.used == 0,
            // restored records with allocated (hex) backing names leave
            // the daemon fit for further reads
            (forall|m: int|
                0 <= m < final(self).daemons@[i as int].cache.pairs().len()
                    ==> crate::store::uri_hexy(
                    (#[trigger] final(self).daemons@[i as int].cache.pairs()[m]).1,
                )) ==> final(self).daemons@[i as int].cache_clean(),
            // the persisted index comes back whole when its records are
            // intact: same pairs, same order, same counter, same root
            old(self).daemons@[i as int].store@.contains_key(Daemon::cache_file_spec())
                ==> match crate::cache::dec_cache_index(
                old(self).daemons@[i as int].store@[Daemon::cache_file_spec()].bytes,
            ) {
                Some((rootv, used, ps)) => used <= u64::MAX ==> final(self).daemons@[i as int].cache.used == used && crate::cache::opt_node_view(
                    &final(self).daemons@[i as int].root,
                ) == rootv && (crate::cache::pairs_restorable(
                    ps,
                    old(self).daemons@[i as int].store@,
                ) ==> final(self).daemons@[i as int].cache.pairs() == ps),
                None => final(self).daemons@[i as int].cache.pairs().len() == 0,
            },
    {
        let old_d = self.daemons.remove(i);
        let mut d = Daemon::new(
            old_d.local,
            old_d.root,
            old_d.listening_addr,
            cache_size,
        );
        d.store = old_d.store;
        let restored = d.restore_cache(cache_size);
        self.daemons.insert(i, d);
        proof {
            assert(forall|x: int|
                0 <= x < self.daemons@.len() && x != i ==> self.daemons@[x] == old(self).daemons@[x]);
        }
    }
}


impl Cluster {
    /// The owner cannot be asked: answer with the cached copy's local
    /// location when one exists, else with `NotAccessible`.
    fn cache_fallback(
        &mut self,
        i: usize,
        loc: &Location,
        got: Option<CacheEntry>,
        ps0: Ghost<Seq<((Seq<char>, Seq<char>), Seq<char>)>>,
    ) -> (r: Result<Vec<u8>, VPFSError>)
        requires
            old(self).wf(),
            i < old(self).daemons@.len(),
            match got {
                Some(entry) => exists|m: int|
                    0 <= m < ps0@.len() && ps0@[m] == (loc_key(loc@), entry@),
                None => forall|m: int| 0 <= m < ps0@.len() ==> (#[trigger] ps0@[m]).0 != loc_key(
                    loc@,
                ),
            },
        ensures
            *final(self) == *old(self),
            match r {
                Ok(b) => false,
                Err(e) => !(e is NotModified) && !(e is CacheNeededForTraversal),
            },
            if exists|m: int| 0 <= m < ps0@.len() && (#[trigger] ps0@[m]).0 == loc_key(loc@) {
                r matches Err(e) && e matches VPFSError::OnlyInCache(l) && l@.node == old(self).daemons@[i as int].local@ && exists|m: int|
                    0 <= m < ps0@.len() && (#[trigger] ps0@[m]) == (loc_key(loc@), l@.uri)
            } else {
                r matches Err(e) && e is NotAccessible
            },
    {
        match got {
            Some(entry) => {
                let l = Location { node: self.daemons[i].local.clone(), uri: entry.uri };
                proof {
                    let m = choose|m: int| 0 <= m < ps0@.len() && ps0@[m] == (loc_key(loc@), l.uri@);
                    assert(ps0@[m] == (loc_key(loc@), l@.uri));
                    assert(ps0@[m].0 == loc_key(loc@));
                }
                Err(VPFSError::OnlyInCache(l))
            },
            None => {
                proof {
                    if exists|m: int| 0 <= m < ps0@.len() && (#[trigger] ps0@[m]).0 == loc_key(
                        loc@,
                    ) {
                        let m = choose|m: int|
                            0 <= m < ps0@.len() && (#[trigger] ps0@[m]).0 == loc_key(loc@);
                        assert(false);
                    }
                }
                Err(VPFSError::NotAccessible)
            },
        }
    }
}

} // verus!
