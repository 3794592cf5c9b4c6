//! The cache: boundary reads, eviction within capacity, backing files on
//! disk, and the persistence round trip across a daemon restart.

use vpfs::cluster::Cluster;
use vpfs::messages::{Node, Location, VPFSError};


const REMOTE_NAME: &str = "iroh";
const LOCAL_NAME: &str = "local";
const ROOT_ADDR: &str = "10.0.0.1:8080";
const PEER_ADDR: &str = "10.0.0.2:8080";

fn cluster_with_cache(cache_size: u64) -> (Cluster, usize, usize) {
    let mut c = Cluster::new();
    let iroh = c.add_root_daemon(REMOTE_NAME.to_string(), ROOT_ADDR.to_string(), cache_size);
    let local = c
        .add_peer_daemon(
            LOCAL_NAME.to_string(),
            PEER_ADDR.to_string(),
            ROOT_ADDR.to_string(),
            cache_size,
        )
        .unwrap();
    (c, iroh, local)
}

fn remote_file(c: &mut Cluster, local: usize, name: &str, data: &[u8]) -> Location {
    let root_node = Node { name: REMOTE_NAME.to_string() };
    let loc = c.client_place(local, name, &root_node).unwrap();
    c.client_write(local, &loc, data.to_vec()).unwrap();
    loc
}

#[test]
fn read_of_nonexistent_local_uri_is_does_not_exist() {
    let (mut c, _iroh, local) = cluster_with_cache(65536);
    let loc = Location {
        node: Node { name: LOCAL_NAME.to_string() },
        uri: "0123456789abcdef".to_string(),
    };
    let r = c.client_read(local, &loc);
    assert!(matches!(r, Err(VPFSError::DoesNotExist)));
}

#[test]
fn write_to_unplaced_location_is_does_not_exist() {
    let (mut c, _iroh, local) = cluster_with_cache(65536);
    let loc = Location {
        node: Node { name: LOCAL_NAME.to_string() },
        uri: "0123456789abcdef".to_string(),
    };
    let r = c.client_write(local, &loc, b"data".to_vec());
    assert!(matches!(r, Err(VPFSError::DoesNotExist)));
}

#[test]
fn unreachable_owner_without_cache_is_not_accessible() {
    let (mut c, iroh, local) = cluster_with_cache(65536);
    let loc = remote_file(&mut c, local, "far", b"far away");
    c.set_online(iroh, false);
    let r = c.client_read(local, &loc);
    assert!(matches!(r, Err(VPFSError::NotAccessible)));
}

#[test]
fn unreachable_owner_with_cache_is_only_in_cache() {
    let (mut c, iroh, local) = cluster_with_cache(65536);
    let loc = remote_file(&mut c, local, "near", b"cached bytes");
    // a successful remote read fills the cache
    assert_eq!(c.client_read(local, &loc).unwrap(), b"cached bytes".to_vec());
    c.set_online(iroh, false);
    match c.client_read(local, &loc) {
        Err(VPFSError::OnlyInCache(cache_loc)) => {
            assert_eq!(cache_loc.node.name, LOCAL_NAME.to_string());
            // the cached copy holds the bytes
            let cached = c.client_read(local, &cache_loc).unwrap();
            assert_eq!(cached, b"cached bytes".to_vec());
        },
        other => panic!("expected the cached copy, got {:?}", other.map(|b| b.len())),
    }
}

#[test]
fn eviction_keeps_the_cache_within_capacity() {
    let (mut c, _iroh, local) = cluster_with_cache(64);
    for k in 0..6 {
        let name = format!("bulk{}", k);
        let loc = remote_file(&mut c, local, &name, &[k as u8; 30]);
        c.client_read(local, &loc).unwrap();
        let d = &c.daemons[local];
        assert!(d.cache.used <= d.cache.max || d.cache.entries().is_empty());
        // the counter is exactly the true usage
        let mut total: u64 = 0;
        for (_, entry) in d.cache.entries() {
            total += d.store.size_of(entry.uri.as_str()).unwrap() as u64;
        }
        assert_eq!(total, d.cache.used);
    }
}

#[test]
fn a_refresh_accounts_the_length_difference_not_the_sum() {
    let (mut c, _iroh, local) = cluster_with_cache(65536);
    let loc = remote_file(&mut c, local, "delta", &[7u8; 40]);
    c.client_read(local, &loc).unwrap();
    assert_eq!(c.daemons[local].cache.used, 40);
    // the owner's copy changes size; re-reading refreshes the cached copy
    c.client_write(local, &loc, vec![8u8; 10]).unwrap();
    assert_eq!(c.client_read(local, &loc).unwrap(), vec![8u8; 10]);
    // the counter moved by the delta: it is the new size, not the sum
    assert_eq!(c.daemons[local].cache.used, 10);
    assert_eq!(c.daemons[local].cache.entries().len(), 1);
}

#[test]
fn a_current_cached_copy_is_revalidated_not_refetched() {
    let (mut c, _iroh, local) = cluster_with_cache(65536);
    let loc = remote_file(&mut c, local, "fresh", b"same bytes");
    // the first read fills the cache; its backing file is stamped after
    // the owner's write, so the next read revalidates and keeps it
    assert_eq!(c.client_read(local, &loc).unwrap(), b"same bytes".to_vec());
    let backing_before: Vec<String> = c.daemons[local]
        .cache
        .entries()
        .into_iter()
        .map(|(_, e)| e.uri)
        .collect();
    assert_eq!(c.client_read(local, &loc).unwrap(), b"same bytes".to_vec());
    let backing_after: Vec<String> = c.daemons[local]
        .cache
        .entries()
        .into_iter()
        .map(|(_, e)| e.uri)
        .collect();
    assert_eq!(backing_before, backing_after);
}

#[test]
fn a_nested_path_through_local_directories_resolves_exactly() {
    // driven from the root daemon itself, so every step of the walk
    // stays on its own files
    let (mut c, iroh, _local) = cluster_with_cache(65536);
    let root_node = c.daemons[iroh].local.clone();
    c.client_mkdir(iroh, "outer", &root_node).unwrap();
    c.client_mkdir(iroh, "outer/inner", &root_node).unwrap();
    let loc = c.client_place(iroh, "outer/inner/leaf", &root_node).unwrap();
    c.client_write(iroh, &loc, b"deep".to_vec()).unwrap();
    let entry = c.client_find(iroh, "outer/inner/leaf").unwrap();
    assert_eq!(entry.location, loc);
    assert!(!entry.is_dir);
    assert_eq!(c.client_fetch(iroh, "outer/inner/leaf").unwrap(), b"deep".to_vec());
    // the duplicate is refused with the first entry
    match c.client_place(iroh, "outer/inner/leaf", &root_node) {
        Err(VPFSError::AlreadyExists(existing)) => assert_eq!(existing.location, loc),
        other => panic!("expected the duplicate to be rejected, got {:?}", other),
    }
    // a path through a plain file is refused at any depth
    assert!(matches!(
        c.client_find(iroh, "outer/inner/leaf/below"),
        Err(VPFSError::NotADirectory)
    ));
}

#[test]
fn every_cache_entry_has_its_backing_file() {
    let (mut c, _iroh, local) = cluster_with_cache(256);
    for k in 0..5 {
        let name = format!("file{}", k);
        let loc = remote_file(&mut c, local, &name, &[k as u8; 40]);
        c.client_read(local, &loc).unwrap();
        let d = &c.daemons[local];
        for (_, entry) in d.cache.entries() {
            assert!(d.store.exists_file(entry.uri.as_str()));
        }
    }
}

#[test]
fn restart_restores_the_cache_index_and_its_order() {
    let (mut c, _iroh, local) = cluster_with_cache(65536);
    let loc_a = remote_file(&mut c, local, "a", b"alpha");
    let loc_b = remote_file(&mut c, local, "b", b"beta");
    c.client_read(local, &loc_a).unwrap();
    c.client_read(local, &loc_b).unwrap();
    let before: Vec<(Location, String)> = c.daemons[local].cache.entries()
        .into_iter()
        .map(|(k, v)| (k, v.uri))
        .collect();
    let used_before = c.daemons[local].cache.used;
    assert_eq!(before.len(), 2);

    c.restart_daemon(local, 65536);

    let after: Vec<(Location, String)> = c.daemons[local].cache.entries()
        .into_iter()
        .map(|(k, v)| (k, v.uri))
        .collect();
    assert_eq!(before, after);
    assert_eq!(c.daemons[local].cache.used, used_before);
}

#[test]
fn a_read_that_hit_cache_still_hits_it_after_a_restart() {
    let (mut c, iroh, local) = cluster_with_cache(65536);
    let loc = remote_file(&mut c, local, "sticky", b"still here");
    assert_eq!(c.client_read(local, &loc).unwrap(), b"still here".to_vec());

    c.restart_daemon(local, 65536);
    c.set_online(iroh, false);

    match c.client_read(local, &loc) {
        Err(VPFSError::OnlyInCache(cache_loc)) => {
            let cached = c.client_read(local, &cache_loc).unwrap();
            assert_eq!(cached, b"still here".to_vec());
        },
        other => panic!("expected the cached copy, got {:?}", other.map(|b| b.len())),
    }
}

#[test]
fn second_place_of_a_name_returns_the_first_location() {
    let (mut c, _iroh, local) = cluster_with_cache(65536);
    let local_node = c.daemons[local].local.clone();
    let first = c.client_place(local, "twice", &local_node).unwrap();
    match c.client_place(local, "twice", &local_node) {
        Err(VPFSError::AlreadyExists(existing)) => {
            assert_eq!(existing.location, first);
        },
        other => panic!("expected the duplicate to be rejected, got {:?}", other),
    }
}

#[test]
fn storing_twice_overwrites_and_fetch_sees_the_second_bytes() {
    let (mut c, _iroh, local) = cluster_with_cache(65536);
    c.client_store(local, "again", b"one".to_vec()).unwrap();
    c.client_store(local, "again", b"two".to_vec()).unwrap();
    assert_eq!(c.client_fetch(local, "again").unwrap(), b"two".to_vec());
}

#[test]
fn a_file_behind_an_unreachable_parent_directory_resolves_via_cache() {
    let (mut c, iroh, local) = cluster_with_cache(65536);
    let root_node = Node { name: REMOTE_NAME.to_string() };
    c.client_mkdir(local, "dirx", &root_node).unwrap();
    let loc = c.client_place(local, "dirx/filex", &root_node).unwrap();
    c.client_write(local, &loc, b"beyond".to_vec()).unwrap();
    // walk once online, caching the remote directories
    assert_eq!(c.client_fetch(local, "dirx/filex").unwrap(), b"beyond".to_vec());
    c.set_online(iroh, false);
    match c.client_find(local, "dirx/filex") {
        Err(VPFSError::CacheNeededForTraversal(entry)) => {
            assert_eq!(entry.location, loc);
        },
        other => panic!("expected a cache-assisted resolution, got {:?}", other),
    }
}

#[test]
fn a_path_through_a_plain_file_is_not_a_directory() {
    let (mut c, _iroh, local) = cluster_with_cache(65536);
    let local_node = c.daemons[local].local.clone();
    c.client_place(local, "plain", &local_node).unwrap();
    let r = c.client_find(local, "plain/below");
    assert!(matches!(r, Err(VPFSError::NotADirectory)));
}

#[test]
fn finding_an_absent_name_is_does_not_exist() {
    let (mut c, _iroh, local) = cluster_with_cache(65536);
    let r = c.client_find(local, "nowhere");
    assert!(matches!(r, Err(VPFSError::DoesNotExist)));
}

#[test]
fn the_root_directory_seeds_itself() {
    let (mut c, _iroh, local) = cluster_with_cache(65536);
    let dot = c.client_find(local, ".").unwrap();
    assert!(dot.is_dir);
    assert_eq!(dot.location.uri, "root".to_string());
    let dotdot = c.client_find(local, "..").unwrap();
    assert!(dotdot.is_dir);
    assert_eq!(dotdot.location.uri, "root".to_string());
}

#[test]
fn the_persisted_index_decodes_to_the_live_one() {
    let (mut c, _iroh, local) = cluster_with_cache(65536);
    let loc_a = remote_file(&mut c, local, "pa", b"one");
    let loc_b = remote_file(&mut c, local, "pb", b"two");
    c.client_read(local, &loc_a).unwrap();
    c.client_read(local, &loc_b).unwrap();
    let d = &c.daemons[local];
    let bytes = vpfs::cache::persist_index(&d.cache, &d.root);
    let (root, used, pairs) = vpfs::cache::decode_cache_index(&bytes).unwrap();
    assert_eq!(root.unwrap().name, REMOTE_NAME.to_string());
    assert_eq!(used, d.cache.used);
    let live = d.cache.entries();
    assert_eq!(pairs.len(), live.len());
    for (got, want) in pairs.iter().zip(live.iter()) {
        assert_eq!(got.0, want.0);
        assert_eq!(got.1.uri, want.1.uri);
    }
}


#[test]
fn the_on_disk_index_always_matches_the_live_one() {
    let (mut c, _iroh, local) = cluster_with_cache(96);
    for k in 0..5 {
        let name = format!("sync{}", k);
        let loc = remote_file(&mut c, local, &name, &[k as u8; 40]);
        c.client_read(local, &loc).unwrap();
        let d = &c.daemons[local];
        let bytes = d.store.read("cache").unwrap();
        let (_root, used, pairs) = vpfs::cache::decode_cache_index(&bytes).unwrap();
        assert_eq!(used, d.cache.used);
        let live = d.cache.entries();
        assert_eq!(pairs.len(), live.len());
        for (got, want) in pairs.iter().zip(live.iter()) {
            assert_eq!(got.0, want.0);
            assert_eq!(got.1.uri, want.1.uri);
        }
    }
}
