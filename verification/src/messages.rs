//! The data model and the wire messages.
//!
//! A `Node` names one daemon; a `Location` pairs the owning node with a
//! node-local URI; a `DirectoryEntry` is one record of a directory file.
//! The request and response enums are the messages exchanged between a
//! client and its daemon and between peer daemons.  Modification times
//! travel on the wire as plain seconds (`u64`), and the known-hosts table
//! as a vector of pairs with pairwise distinct node names.

use vstd::prelude::*;

verus! {

/// Mathematical view of a `Location`: the owning node's name and the URI.
pub ghost struct LocV {
    pub node: Seq<char>,
    pub uri: Seq<char>,
}

/// Mathematical view of a `DirectoryEntry`.
pub ghost struct EntryV {
    pub loc: LocV,
    pub name: Seq<char>,
    pub is_dir: bool,
}

/// Identity of one daemon in the cluster: a human-readable name.
/// Two nodes are equal iff their names are equal.
#[derive(Debug, Eq, Hash)]
pub struct Node {
    pub name: String,
}

/// Authoritative storage of one file object: the owning node and an
/// opaque node-local URI.
#[derive(Debug, Eq, Hash)]
pub struct Location {
    pub node: Node,
    pub uri: String,
}

/// One record of a directory file: where the object lives, its name in
/// this directory, and whether it is itself a directory.
#[derive(Debug, Eq, Hash)]
pub struct DirectoryEntry {
    pub location: Location,
    pub name: String,
    pub is_dir: bool,
}

/// The node-local URI of a file holding a cached copy of some remote
/// location's contents.
#[derive(Debug, Eq, Hash)]
pub struct CacheEntry {
    pub uri: String,
}

impl View for Node {
    type V = Seq<char>;

    open spec fn view(&self) -> Seq<char> {
        self.name@
    }
}

impl View for Location {
    type V = LocV;

    open spec fn view(&self) -> LocV {
        LocV { node: self.node@, uri: self.uri@ }
    }
}

impl View for DirectoryEntry {
    type V = EntryV;

    open spec fn view(&self) -> EntryV {
        EntryV { loc: self.location@, name: self.name@, is_dir: self.is_dir }
    }
}

impl View for CacheEntry {
    type V = Seq<char>;

    open spec fn view(&self) -> Seq<char> {
        self.uri@
    }
}

impl Clone for Node {
    fn clone(&self) -> (r: Self)
        ensures
            r == *self,
    {
        Node { name: self.name.clone() }
    }
}

impl Clone for Location {
    fn clone(&self) -> (r: Self)
        ensures
            r == *self,
    {
        Location { node: self.node.clone(), uri: self.uri.clone() }
    }
}

impl Clone for DirectoryEntry {
    fn clone(&self) -> (r: Self)
        ensures
            r == *self,
    {
        DirectoryEntry {
            location: self.location.clone(),
            name: self.name.clone(),
            is_dir: self.is_dir,
        }
    }
}

impl Clone for CacheEntry {
    fn clone(&self) -> (r: Self)
        ensures
            r == *self,
    {
        CacheEntry { uri: self.uri.clone() }
    }
}

impl PartialEq for Node {
    fn eq(&self, o: &Self) -> (r: bool)
    {
        self.name == o.name
    }
}

impl vstd::std_specs::cmp::PartialEqSpecImpl for Node {
    open spec fn obeys_eq_spec() -> bool {
        true
    }

    open spec fn eq_spec(&self, o: &Self) -> bool {
        self@ == o@
    }
}

impl PartialEq for Location {
    fn eq(&self, o: &Self) -> (r: bool)
    {
        self.node == o.node && self.uri == o.uri
    }
}

impl vstd::std_specs::cmp::PartialEqSpecImpl for Location {
    open spec fn obeys_eq_spec() -> bool {
        true
    }

    open spec fn eq_spec(&self, o: &Self) -> bool {
        self@ == o@
    }
}

impl PartialEq for DirectoryEntry {
    fn eq(&self, o: &Self) -> (r: bool)
    {
        self.location == o.location && self.name == o.name && self.is_dir == o.is_dir
    }
}

impl vstd::std_specs::cmp::PartialEqSpecImpl for DirectoryEntry {
    open spec fn obeys_eq_spec() -> bool {
        true
    }

    open spec fn eq_spec(&self, o: &Self) -> bool {
        self@ == o@
    }
}

impl PartialEq for CacheEntry {
    fn eq(&self, o: &Self) -> (r: bool)
    {
        self.uri == o.uri
    }
}

impl vstd::std_specs::cmp::PartialEqSpecImpl for CacheEntry {
    open spec fn obeys_eq_spec() -> bool {
        true
    }

    open spec fn eq_spec(&self, o: &Self) -> bool {
        self@ == o@
    }
}

/// The error kinds observable by clients and peers.
#[derive(Debug)]
pub enum VPFSError {
    /// Remote owner unreachable; a cached copy is available at the given
    /// local location.
    OnlyInCache(Location),
    /// The answer required trusting a cached directory; the resolved entry
    /// is returned all the same.
    CacheNeededForTraversal(DirectoryEntry),
    /// Peer reports that the requester's cached copy is current (used only
    /// on the peer `Read` exchange; never surfaces to clients).
    NotModified,
    /// Target confirmed absent.
    DoesNotExist,
    /// Target not found; existence not verifiable.
    NotFound,
    /// Cannot reach a node required to satisfy the request.
    NotAccessible,
    /// An intermediate path component is not a directory.
    NotADirectory,
    /// Directory append rejected; the existing entry is returned.
    AlreadyExists(DirectoryEntry),
    /// Wire and decoding miscellany.
    Other(String),
}

/// Mathematical view of a `VPFSError`.
pub ghost enum ErrV {
    OnlyInCache(LocV),
    CacheNeededForTraversal(EntryV),
    NotModified,
    DoesNotExist,
    NotFound,
    NotAccessible,
    NotADirectory,
    AlreadyExists(EntryV),
    Other(Seq<char>),
}

impl View for VPFSError {
    type V = ErrV;

    open spec fn view(&self) -> ErrV {
        match self {
            VPFSError::OnlyInCache(l) => ErrV::OnlyInCache(l@),
            VPFSError::CacheNeededForTraversal(e) => ErrV::CacheNeededForTraversal(e@),
            VPFSError::NotModified => ErrV::NotModified,
            VPFSError::DoesNotExist => ErrV::DoesNotExist,
            VPFSError::NotFound => ErrV::NotFound,
            VPFSError::NotAccessible => ErrV::NotAccessible,
            VPFSError::NotADirectory => ErrV::NotADirectory,
            VPFSError::AlreadyExists(e) => ErrV::AlreadyExists(e@),
            VPFSError::Other(s) => ErrV::Other(s@),
        }
    }
}

/// First message on each accepted connection.
pub enum Hello {
    /// A local user process.
    ClientHello,
    /// A peer daemon already known to this one.
    DaemonHello,
    /// A peer daemon joining the cluster through this (root) daemon: its
    /// identity and the externally reachable address it listens on.
    RootHello(Node, String),
}

/// Reply to a `Hello`.
pub enum HelloResponse {
    /// Tells the client which node it sits on.
    ClientHello(Node),
    /// Acknowledgement between peers.
    DaemonHello,
    /// Root tells the joiner who the root is and hands over the current
    /// known-hosts table (node, address), names pairwise distinct.
    RootHello(Node, Vec<(Node, String)>),
}

/// A request from one daemon to a peer daemon.
pub enum DaemonRequest {
    /// Allocate a fresh file on the receiver; the response carries its URI.
    Place,
    /// Read the file at the URI.  The second field carries the modification
    /// time (seconds) of the requester's cached copy, if it has one.
    Read(String, Option<u64>),
    /// Overwrite the file at the URI with the `usize` bytes that follow.
    Write(String, usize),
    /// Remove the file at the URI (internal cleanup hook).
    Remove(String),
    /// Append the entry to the directory file at the URI.
    AppendDirectoryEntry(String, DirectoryEntry),
    /// Ask the root for the address of the given node.
    AddressFor(Node),
}

/// A reply from a peer daemon, one per request.
pub enum DaemonResponse {
    Place(String),
    /// On success the body of that many bytes follows in the same stream.
    Read(Result<usize, VPFSError>),
    Write(Result<usize, VPFSError>),
    Remove(Result<(), VPFSError>),
    AppendDirectoryEntry(Result<(), VPFSError>),
    AddressFor(Option<String>),
}

/// A request from a local user process to its daemon.
pub enum ClientRequest {
    Find(String),
    Place(String, Node),
    Mkdir(String, Node),
    /// On a successful reply the body follows the response.
    Read(Location),
    /// The body of that many bytes follows the request.
    Write(Location, usize),
}

/// A reply from the daemon to its local user process, one per request.
pub enum ClientResponse {
    Find(Result<DirectoryEntry, VPFSError>),
    Place(Result<Location, VPFSError>),
    Mkdir(Result<Location, VPFSError>),
    Read(Result<usize, VPFSError>),
    Write(Result<usize, VPFSError>),
}

} // verus!
