//! The end-to-end scenarios: a two-daemon cluster, the root named after
//! the remote and a local peer joined through it, driven through the
//! client operations.

use vpfs::cluster::Cluster;
use vpfs::messages::{ClientRequest, ClientResponse, Node, VPFSError};

const REMOTE_NAME: &str = "iroh";
const LOCAL_NAME: &str = "local";
const ROOT_ADDR: &str = "10.0.0.1:8080";
const PEER_ADDR: &str = "10.0.0.2:8080";
const CACHE_SIZE: u64 = 65536;

fn two_daemon_cluster() -> (Cluster, usize, usize) {
    let mut c = Cluster::new();
    let iroh = c.add_root_daemon(REMOTE_NAME.to_string(), ROOT_ADDR.to_string(), CACHE_SIZE);
    let local = c
        .add_peer_daemon(
            LOCAL_NAME.to_string(),
            PEER_ADDR.to_string(),
            ROOT_ADDR.to_string(),
            CACHE_SIZE,
        )
        .unwrap();
    (c, iroh, local)
}

#[test]
fn find_and_place_root_directory_remote() {
    let file_name = "test0";
    let root_node = Node { name: REMOTE_NAME.to_string() };

    let (mut vpfs, _iroh, local) = two_daemon_cluster();

    let place_ret = vpfs.client_place(local, file_name, &root_node);
    assert!(place_ret.is_ok());
    let find_ret = vpfs.client_find(local, file_name);
    assert!(find_ret.is_ok());
    assert_eq!(place_ret.unwrap(), find_ret.unwrap().location);
}

#[test]
fn find_and_place_root_directory_local() {
    let file_name = "test1";

    let (mut vpfs, _iroh, local) = two_daemon_cluster();
    let local_node = vpfs.daemons[local].local.clone();

    let place_ret = vpfs.client_place(local, file_name, &local_node);
    assert!(place_ret.is_ok());
    let find_ret = vpfs.client_find(local, file_name);
    assert!(find_ret.is_ok());
    assert_eq!(place_ret.unwrap(), find_ret.unwrap().location);
}

#[test]
fn read_and_write_root_directory_remote() {
    let file_name = "test2";
    let data = "Hello world 2".as_bytes();
    let root_node = Node { name: REMOTE_NAME.to_string() };

    let (mut vpfs, _iroh, local) = two_daemon_cluster();

    let location = vpfs.client_place(local, file_name, &root_node).unwrap();

    vpfs.client_write(local, &location, data.to_vec()).unwrap();
    assert_eq!(vpfs.client_read(local, &location).unwrap(), data.to_vec());
}

#[test]
fn read_and_write_root_directory_local() {
    let file_name = "test3";
    let data = "Hello world 3".as_bytes();

    let (mut vpfs, _iroh, local) = two_daemon_cluster();
    let local_node = vpfs.daemons[local].local.clone();

    let location = vpfs.client_place(local, file_name, &local_node).unwrap();

    vpfs.client_write(local, &location, data.to_vec()).unwrap();
    assert_eq!(vpfs.client_read(local, &location).unwrap(), data.to_vec());
}

#[test]
fn store_root_directory_local() {
    let file_name = "test4";
    let data = "Hello world 4".as_bytes();

    let (mut vpfs, _iroh, local) = two_daemon_cluster();

    vpfs.client_store(local, file_name, data.to_vec()).unwrap();
    let location = vpfs.client_find(local, file_name);
    assert!(location.is_ok());
    assert_eq!(
        vpfs.client_read(local, &location.unwrap().location).unwrap(),
        data.to_vec()
    );
}

#[test]
fn fetch_root_directory_local() {
    let file_name = "test5";
    let data = "Hello world 5".as_bytes();

    let (mut vpfs, _iroh, local) = two_daemon_cluster();

    vpfs.client_store(local, file_name, data.to_vec()).unwrap();
    assert_eq!(vpfs.client_fetch(local, file_name).unwrap(), data.to_vec());
}

#[test]
fn fetch_root_directory_remote() {
    let file_name = "test6";
    let data = "Hello world 6".as_bytes();
    let root_node = Node { name: REMOTE_NAME.to_string() };

    let (mut vpfs, _iroh, local) = two_daemon_cluster();

    let location = vpfs.client_place(local, file_name, &root_node).unwrap();
    vpfs.client_write(local, &location, data.to_vec()).unwrap();
    assert_eq!(vpfs.client_fetch(local, file_name).unwrap(), data.to_vec());
}

#[test]
fn find_and_place_non_root_directory_remote() {
    let dir_name = "dir7";
    let file_name = &format!("{dir_name}/test7");
    let root_node = Node { name: REMOTE_NAME.to_string() };

    let (mut vpfs, _iroh, local) = two_daemon_cluster();

    let mkdir_ret = vpfs.client_mkdir(local, dir_name, &root_node);
    assert!(mkdir_ret.is_ok());
    let place_ret = vpfs.client_place(local, file_name, &root_node);
    assert!(place_ret.is_ok());
    let find_ret = vpfs.client_find(local, file_name);
    assert!(find_ret.is_ok());
    assert_eq!(place_ret.unwrap(), find_ret.unwrap().location);
}

#[test]
fn find_and_place_non_root_directory_local() {
    let dir_name = "dir8";
    let file_name = &format!("{dir_name}/test8");

    let (mut vpfs, _iroh, local) = two_daemon_cluster();
    let local_node = vpfs.daemons[local].local.clone();

    let mkdir_ret = vpfs.client_mkdir(local, dir_name, &local_node);
    assert!(mkdir_ret.is_ok());
    let place_ret = vpfs.client_place(local, file_name, &local_node);
    assert!(place_ret.is_ok());
    let find_ret = vpfs.client_find(local, file_name);
    assert!(find_ret.is_ok());
    assert_eq!(place_ret.unwrap(), find_ret.unwrap().location);
}

#[test]
fn read_and_write_non_root_directory_remote() {
    let dir_name = "dir9";
    let file_name = &format!("{dir_name}/test9");
    let data = "Hello world 9".as_bytes();
    let root_node = Node { name: REMOTE_NAME.to_string() };

    let (mut vpfs, _iroh, local) = two_daemon_cluster();

    let mkdir_ret = vpfs.client_mkdir(local, dir_name, &root_node);
    assert!(mkdir_ret.is_ok());
    let location = vpfs.client_place(local, file_name, &root_node).unwrap();

    vpfs.client_write(local, &location, data.to_vec()).unwrap();
    assert_eq!(vpfs.client_read(local, &location).unwrap(), data.to_vec());
}

#[test]
fn read_and_write_non_root_directory_local() {
    let dir_name = "dir10";
    let file_name = &format!("{dir_name}/test10");
    let data = "Hello world 10".as_bytes();

    let (mut vpfs, _iroh, local) = two_daemon_cluster();
    let local_node = vpfs.daemons[local].local.clone();

    let mkdir_ret = vpfs.client_mkdir(local, dir_name, &local_node);
    assert!(mkdir_ret.is_ok());
    let location = vpfs.client_place(local, file_name, &local_node).unwrap();

    vpfs.client_write(local, &location, data.to_vec()).unwrap();
    assert_eq!(vpfs.client_read(local, &location).unwrap(), data.to_vec());
}

#[test]
fn store_non_root_directory_remote() {
    let dir_name = "dir11";
    let file_name = &format!("{dir_name}/test11");
    let data = "Hello world 11".as_bytes();
    let root_node = Node { name: REMOTE_NAME.to_string() };

    let (mut vpfs, _iroh, local) = two_daemon_cluster();

    let mkdir_ret = vpfs.client_mkdir(local, dir_name, &root_node);
    assert!(mkdir_ret.is_ok());
    vpfs.client_store(local, file_name, data.to_vec()).unwrap();
    let location = vpfs.client_find(local, file_name);
    assert!(location.is_ok());
    assert_eq!(
        vpfs.client_read(local, &location.unwrap().location).unwrap(),
        data.to_vec()
    );
}

#[test]
fn fetch_non_root_directory_local() {
    let dir_name = "dir12";
    let file_name = &format!("{dir_name}/test12");
    let data = "Hello world 12".as_bytes();
    let root_node = Node { name: REMOTE_NAME.to_string() };

    let (mut vpfs, _iroh, local) = two_daemon_cluster();

    let mkdir_ret = vpfs.client_mkdir(local, dir_name, &root_node);
    assert!(mkdir_ret.is_ok());
    vpfs.client_store(local, file_name, data.to_vec()).unwrap();
    assert_eq!(vpfs.client_fetch(local, file_name).unwrap(), data.to_vec());
}

#[test]
fn fetch_non_root_directory_remote() {
    let dir_name = "dir13";
    let file_name = &format!("{dir_name}/test13");
    let data = "Hello world 13".as_bytes();
    let root_node = Node { name: REMOTE_NAME.to_string() };

    let (mut vpfs, _iroh, local) = two_daemon_cluster();

    let mkdir_ret = vpfs.client_mkdir(local, dir_name, &root_node);
    assert!(mkdir_ret.is_ok());
    let location = vpfs.client_place(local, file_name, &root_node).unwrap();
    vpfs.client_write(local, &location, data.to_vec()).unwrap();
    assert_eq!(vpfs.client_fetch(local, file_name).unwrap(), data.to_vec());
}

#[test]
fn multiple_nested_directories() {
    let dir_name1 = "dir14";
    let dir_name2 = &format!("{dir_name1}/dir14");
    let dir_name3 = &format!("{dir_name2}/dir14");
    let file_name1 = &format!("{dir_name2}/test14");
    let file_name2 = &format!("{dir_name3}/test14");
    let file_data1 = "First file data".as_bytes();
    let file_data2 = "Second file data".as_bytes();
    let root_node = Node { name: REMOTE_NAME.to_string() };

    let (mut vpfs, _iroh, local) = two_daemon_cluster();
    let local_node = vpfs.daemons[local].local.clone();

    let mkdir_ret = vpfs.client_mkdir(local, dir_name1, &local_node);
    assert!(mkdir_ret.is_ok());
    let mkdir_ret = vpfs.client_mkdir(local, dir_name2, &root_node);
    assert!(mkdir_ret.is_ok());
    let mkdir_ret = vpfs.client_mkdir(local, dir_name3, &local_node);
    assert!(mkdir_ret.is_ok());

    vpfs.client_store(local, file_name1, file_data1.to_vec()).unwrap();
    assert_eq!(vpfs.client_fetch(local, file_name1).unwrap(), file_data1.to_vec());

    let location = vpfs.client_place(local, file_name2, &root_node).unwrap();
    vpfs.client_write(local, &location, file_data2.to_vec()).unwrap();
    assert_eq!(vpfs.client_read(local, &location).unwrap(), file_data2.to_vec());
}

#[test]
fn a_peer_learns_another_peers_address_from_the_root() {
    let mut c = Cluster::new();
    let _iroh = c.add_root_daemon(REMOTE_NAME.to_string(), ROOT_ADDR.to_string(), CACHE_SIZE);
    // the second peer joins before the third exists, so its known-hosts
    // table has no entry for it and the root must be asked
    let b = c
        .add_peer_daemon(
            "b".to_string(),
            "10.0.0.3:8080".to_string(),
            ROOT_ADDR.to_string(),
            CACHE_SIZE,
        )
        .unwrap();
    let _a = c
        .add_peer_daemon(
            "a".to_string(),
            "10.0.0.4:8080".to_string(),
            ROOT_ADDR.to_string(),
            CACHE_SIZE,
        )
        .unwrap();
    // any root-directory operation gives b a stream to the root
    assert!(matches!(
        c.client_find(b, "nothing-here"),
        Err(VPFSError::DoesNotExist)
    ));
    // placing at the unknown peer makes b ask the root for the address
    let a_node = Node { name: "a".to_string() };
    let place_ret = c.client_place(b, "via-root", &a_node);
    assert!(place_ret.is_ok());
    let loc = place_ret.unwrap();
    assert_eq!(loc.node.name, "a".to_string());
    c.client_write(b, &loc, b"routed".to_vec()).unwrap();
    assert_eq!(c.client_read(b, &loc).unwrap(), b"routed".to_vec());
}

#[test]
fn the_dispatcher_answers_one_response_per_request() {
    let (mut c, _iroh, local) = two_daemon_cluster();
    let local_node = c.daemons[local].local.clone();

    let (resp, body) = c.handle_client_request(
        local,
        ClientRequest::Place("dispatched".to_string(), local_node),
        None,
    );
    let loc = match resp {
        ClientResponse::Place(Ok(loc)) => loc,
        other => panic!("wrong response kind: {:?}", matches!(other, ClientResponse::Find(_))),
    };
    assert!(body.is_none());

    let (resp, body) = c.handle_client_request(
        local,
        ClientRequest::Write(loc.clone(), 5),
        Some(b"hello".to_vec()),
    );
    assert!(matches!(resp, ClientResponse::Write(Ok(5))));
    assert!(body.is_none());

    let (resp, body) = c.handle_client_request(local, ClientRequest::Read(loc), None);
    assert!(matches!(resp, ClientResponse::Read(Ok(5))));
    assert_eq!(body.unwrap(), b"hello".to_vec());

    let (resp, body) = c.handle_client_request(
        local,
        ClientRequest::Find("dispatched".to_string()),
        None,
    );
    assert!(matches!(resp, ClientResponse::Find(Ok(_))));
    assert!(body.is_none());
}
