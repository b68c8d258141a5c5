use virtualfs::bencode::find_stop;
use virtualfs::rpc::{AppError, RemoteFileEntry};
use virtualfs::torrent_rpc::{
    contents_of, downloaded_rows, find_entry, list_level, normalize_internal_path, parse_torrent,
    peer_rows, read_peer, FileDetail, Metainfo, TorrentContents, TorrentEntry,
    TorrentFileSystemRpc, TorrentView,
};
use virtualfs::torrent_session::{Engine, PeerRow};

fn entries(paths: &[(&str, u64)]) -> Vec<TorrentEntry> {
    paths
        .iter()
        .enumerate()
        .map(|(id, (p, s))| TorrentEntry {
            id,
            path: (*p).to_string(),
            size: *s,
        })
        .collect()
}

fn peer(addr: &str, fetched_bytes: u64) -> PeerRow {
    PeerRow {
        addr: addr.to_string(),
        state: "live".to_string(),
        fetched_bytes,
        pieces: 3,
        errors: 1,
    }
}

fn names(rows: &[RemoteFileEntry]) -> Vec<&str> {
    rows.iter().map(|r| r.name.as_str()).collect()
}

#[test]
fn a_single_file_torrent_lists_that_file_at_the_root() {
    let e = entries(&[("ubuntu.iso", 4096)]);
    let listing = list_level(&e, "");
    assert_eq!(listing.len(), 1);
    assert_eq!(listing[0].name, "ubuntu.iso");
    assert!(!listing[0].is_dir);
    assert_eq!(listing[0].size, 4096);
}

#[test]
fn nested_paths_become_directories_at_the_level_above() {
    let e = entries(&[("disc/track1.flac", 10), ("disc/track2.flac", 20), ("readme.txt", 5)]);
    let listing = list_level(&e, "");
    let names: Vec<&str> = listing.iter().map(|r| r.name.as_str()).collect();
    assert_eq!(names, vec!["disc", "readme.txt"]);
    assert!(listing[0].is_dir);
    assert_eq!(listing[0].size, 0);
}

#[test]
fn descending_into_a_directory_lists_its_own_children() {
    let e = entries(&[("disc/track1.flac", 10), ("disc/art/cover.jpg", 7)]);
    let listing = list_level(&e, "disc");
    let names: Vec<&str> = listing.iter().map(|r| r.name.as_str()).collect();
    assert_eq!(names, vec!["art", "track1.flac"]);
    assert!(listing[0].is_dir);
    assert!(!listing[1].is_dir);
    assert_eq!(listing[1].size, 10);
}

#[test]
fn a_deeper_level_is_reached_through_its_full_prefix() {
    let e = entries(&[("disc/art/cover.jpg", 7), ("disc/art/back.jpg", 9)]);
    let listing = list_level(&e, "disc/art");
    let names: Vec<&str> = listing.iter().map(|r| r.name.as_str()).collect();
    assert_eq!(names, vec!["back.jpg", "cover.jpg"]);
}

#[test]
fn a_sibling_directory_does_not_leak_into_the_listing() {
    let e = entries(&[("a/one.bin", 1), ("ab/two.bin", 2)]);
    let listing = list_level(&e, "a");
    let names: Vec<&str> = listing.iter().map(|r| r.name.as_str()).collect();
    assert_eq!(names, vec!["one.bin"]);
}

#[test]
fn a_path_is_normalized_before_it_is_matched() {
    let e = entries(&[("disc/track1.flac", 10)]);
    assert_eq!(list_level(&e, "/disc/").len(), 1);
    assert_eq!(list_level(&e, "\\disc").len(), 1);
}

#[test]
fn an_unknown_directory_lists_nothing() {
    let e = entries(&[("disc/track1.flac", 10)]);
    assert!(list_level(&e, "missing").is_empty());
}

#[test]
fn garbage_is_not_mistaken_for_a_torrent() {
    assert!(parse_torrent(b"not a torrent at all").is_err());
    assert!(parse_torrent(b"").is_err());
}

fn single_file_torrent_bytes() -> Vec<u8> {
    let mut v = Vec::new();
    v.extend_from_slice(b"d8:announce3:abc4:infod6:lengthi1024e4:name8:test.bin12:piece lengthi16384e6:pieces20:");
    v.extend_from_slice(&[0u8; 20]);
    v.extend_from_slice(b"ee");
    v
}

fn multi_file_torrent_bytes() -> Vec<u8> {
    let mut v = Vec::new();
    v.extend_from_slice(b"d8:announce3:abc4:infod5:filesld6:lengthi10e4:pathl4:disc11:track1.flaceed6:lengthi20e4:pathl9:cover.jpgeee4:name5:album12:piece lengthi16384e6:pieces20:");
    v.extend_from_slice(&[0u8; 20]);
    v.extend_from_slice(b"ee");
    v
}

#[test]
fn a_real_single_file_torrent_parses_to_one_entry() {
    let c = parse_torrent(&single_file_torrent_bytes()).unwrap();
    assert_eq!(c.name, "test.bin");
    assert_eq!(
        c.entries,
        vec![TorrentEntry {
            id: 0,
            path: "test.bin".to_string(),
            size: 1024
        }]
    );
}

#[test]
fn a_real_multi_file_torrent_keeps_its_directory_structure() {
    let c = parse_torrent(&multi_file_torrent_bytes()).unwrap();
    assert_eq!(c.name, "album");
    assert_eq!(c.entries.len(), 2);
    assert_eq!(c.entries[0].path, "disc/track1.flac");
    assert_eq!(c.entries[0].size, 10);
    assert_eq!(c.entries[1].path, "cover.jpg");
}

#[test]
fn a_parsed_multi_file_torrent_lists_like_a_directory_tree() {
    let c = parse_torrent(&multi_file_torrent_bytes()).unwrap();
    let root: Vec<String> = list_level(&c.entries, "")
        .into_iter()
        .map(|r| r.name)
        .collect();
    assert_eq!(root, vec!["cover.jpg".to_string(), "disc".to_string()]);
    let inner = list_level(&c.entries, "disc");
    assert_eq!(inner.len(), 1);
    assert_eq!(inner[0].name, "track1.flac");
    assert_eq!(inner[0].size, 10);
}

fn torrent_with_a_padding_file_bytes() -> Vec<u8> {
    let mut v = Vec::new();
    v.extend_from_slice(b"d8:announce3:abc4:infod5:filesl");
    v.extend_from_slice(b"d6:lengthi10e4:pathl4:disc11:track1.flacee");
    v.extend_from_slice(b"d4:attr1:p6:lengthi5e4:pathl6:.pad_5ee");
    v.extend_from_slice(b"d6:lengthi20e4:pathl9:cover.jpgee");
    v.extend_from_slice(b"e4:name5:album12:piece lengthi16384e6:pieces20:");
    v.extend_from_slice(&[0u8; 20]);
    v.extend_from_slice(b"ee");
    v
}

#[test]
fn a_padding_file_is_hidden_but_still_consumes_its_index() {
    let c = parse_torrent(&torrent_with_a_padding_file_bytes()).unwrap();
    assert_eq!(c.entries.len(), 2);
    assert_eq!(c.entries[0].path, "disc/track1.flac");
    assert_eq!(c.entries[0].id, 0);
    assert_eq!(c.entries[1].path, "cover.jpg");
    assert_eq!(
        c.entries[1].id, 2,
        "the padding file at index 1 must keep its slot, or only_files would select the wrong file"
    );
}

#[test]
fn a_torrent_file_that_is_none_is_told_of() {
    let error = parse_torrent(b"not a torrent at all").unwrap_err();
    assert!(error.message().starts_with("not a valid torrent file: "));
}

#[test]
fn a_torrent_with_neither_length_nor_files_is_unusable() {
    let mut v = b"d4:infod4:name5:album12:piece lengthi16384e6:pieces20:".to_vec();
    v.extend_from_slice(&[0u8; 20]);
    v.extend_from_slice(b"ee");
    let error = parse_torrent(&v).unwrap_err();
    assert!(error.message().starts_with("torrent metadata is unusable: "));
}

#[test]
fn a_path_that_climbs_out_makes_a_torrent_unreadable() {
    let mut v = b"d4:infod5:filesld6:lengthi1e4:pathl2:..1:xeee4:name1:a12:piece lengthi16384e6:pieces20:".to_vec();
    v.extend_from_slice(&[0u8; 20]);
    v.extend_from_slice(b"ee");
    let error = parse_torrent(&v).unwrap_err();
    assert!(error.message().starts_with("torrent has an unreadable file name: "));
}

fn detail(padding: bool, parts: Result<Vec<&str>, &str>, len: u64) -> FileDetail {
    FileDetail {
        padding,
        parts: parts
            .map(|p| p.into_iter().map(|s| s.to_string()).collect())
            .map_err(|e| e.to_string()),
        len,
    }
}

#[test]
fn files_without_a_path_are_hidden_and_keep_their_place() {
    let meta = Metainfo {
        name: Some(vec![b'a', 0xff]),
        files: Ok(vec![
            detail(false, Ok(vec![]), 1),
            detail(true, Err("never looked at"), 2),
            detail(false, Ok(vec!["a", "b", "c"]), 3),
        ]),
    };
    let c = contents_of(&meta).unwrap();
    assert_eq!(c.name, "a\u{fffd}");
    assert_eq!(c.entries, vec![TorrentEntry { id: 2, path: "a/b/c".to_string(), size: 3 }]);
}

#[test]
fn the_first_unreadable_path_is_told_of() {
    let meta = Metainfo {
        name: None,
        files: Ok(vec![
            detail(false, Ok(vec!["fine"]), 1),
            detail(false, Err("first"), 2),
            detail(false, Err("second"), 3),
        ]),
    };
    assert_eq!(
        contents_of(&meta).unwrap_err(),
        AppError::Other("torrent has an unreadable file name: first".to_string())
    );
    let none = Metainfo { name: None, files: Err("no files".to_string()) };
    assert_eq!(
        contents_of(&none).unwrap_err(),
        AppError::Other("torrent metadata is unusable: no files".to_string())
    );
}

#[test]
fn normalizing_twice_is_normalizing_once() {
    assert_eq!(normalize_internal_path("\\a\\b//"), "a/b");
    assert_eq!(normalize_internal_path("a/b"), "a/b");
    assert_eq!(normalize_internal_path("//"), "");
}

#[test]
fn a_directory_of_a_torrent_wins_over_a_file_of_its_name() {
    let e = entries(&[("a", 1), ("a/b", 2), ("c", 3), ("c", 4), ("/d", 5)]);
    let rows = list_level(&e, "");
    assert_eq!(names(&rows), vec!["a", "c"]);
    assert!(rows[0].is_dir);
    assert_eq!(rows[0].permissions, Some(0o755));
    assert_eq!(rows[1].size, 3);
    assert_eq!(rows[1].permissions, None);
}

#[test]
fn only_complete_files_are_shown_as_downloaded_in_the_order_of_their_paths() {
    let e = entries(&[("z", 1), ("b/x", 2), ("a", 3), ("c", 4)]);
    let rows = downloaded_rows(&e, |id, size| id != 3 && size > 0);
    assert_eq!(names(&rows), vec!["a", "b/x", "z"]);
    assert_eq!(rows[1].size, 2);
    assert!(rows.iter().all(|r| !r.is_dir && r.permissions.is_none() && r.modified == 0));
}

#[test]
fn files_of_one_path_keep_their_order() {
    let e = entries(&[("same", 1), ("a", 2), ("same", 3)]);
    let rows = downloaded_rows(&e, |_, _| true);
    let sizes: Vec<u64> = rows.iter().map(|r| r.size).collect();
    assert_eq!(sizes, vec![2, 1, 3]);
}

#[test]
fn peers_are_shown_by_address_and_bytes() {
    let rows = peer_rows(&[peer("9.9.9.9:1", 5), peer("1.1.1.1:1", 6)]);
    assert_eq!(names(&rows), vec!["9.9.9.9:1", "1.1.1.1:1"]);
    assert_eq!(rows[0].size, 5);
    assert!(!rows[0].is_dir);
}

#[test]
fn a_peer_is_read_as_its_card() {
    let peers = [peer("1.1.1.1:1", 6)];
    assert_eq!(
        read_peer(&peers, "/1.1.1.1:1").unwrap(),
        b"address: 1.1.1.1:1\nstate: live\nfetched bytes: 6\nchecked pieces: 3\nerrors: 1\n"
    );
    assert_eq!(
        read_peer(&peers, "2.2.2.2:1").unwrap_err(),
        AppError::Other("this peer is no longer connected".to_string())
    );
}

#[test]
fn the_first_file_of_a_path_is_found() {
    let e = entries(&[("a", 1), ("b", 2), ("b", 3)]);
    assert_eq!(find_entry(&e, "\\b/").unwrap(), 1);
    assert_eq!(
        find_entry(&e, "c").unwrap_err(),
        AppError::Other("no such file in this torrent".to_string())
    );
}

#[test]
fn a_torrent_is_loaded_once() {
    let mut rpc = TorrentFileSystemRpc::new("/x/a.torrent".to_string());
    assert_eq!(rpc.torrent_path(), "/x/a.torrent");
    assert_eq!(rpc.torrent_name(), None);
    assert!(rpc.needs_loading());
    assert!(rpc.ensure_loaded(Ok(b"garbage".to_vec())).is_err());
    assert_eq!(
        rpc.ensure_loaded(Err(AppError::Io("gone".to_string()))).unwrap_err(),
        AppError::Io("gone".to_string())
    );
    assert_eq!(
        rpc.finish_loading(Err("cancelled".to_string())).unwrap_err(),
        AppError::Other("cancelled".to_string())
    );
    assert!(rpc.needs_loading());
    rpc.ensure_loaded(Ok(single_file_torrent_bytes())).unwrap();
    assert_eq!(rpc.torrent_name(), Some("test.bin".to_string()));
    rpc.ensure_loaded(Ok(multi_file_torrent_bytes())).unwrap();
    assert_eq!(rpc.torrent_name(), Some("test.bin".to_string()));
}

#[test]
fn the_view_decides_what_is_listed_and_read() {
    let engine = Engine::new();
    let mut rpc = TorrentFileSystemRpc::new("/x/a.torrent".to_string());
    rpc.contents =
        Some(TorrentContents { name: "n".to_string(), entries: entries(&[("a/b", 1)]) });
    assert_eq!(rpc.view(), TorrentView::default());
    assert_eq!(names(&rpc.list_dir(&engine, "/")), vec!["a"]);
    assert_eq!(rpc.read_peer_file(&engine, "a"), None);
    rpc.set_view(TorrentView::Downloaded);
    assert_eq!(rpc.view(), TorrentView::Downloaded);
    assert!(rpc.list_dir(&engine, "/").is_empty());
    rpc.set_view(TorrentView::Peers);
    assert!(rpc.list_dir(&engine, "/").is_empty());
    assert_eq!(
        rpc.read_peer_file(&engine, "1.1.1.1:1").unwrap().unwrap_err(),
        AppError::Other("this peer is no longer connected".to_string())
    );
}

#[test]
fn a_file_is_read_from_the_data_folder_once_it_has_arrived() {
    let engine = Engine::new();
    let mut rpc = TorrentFileSystemRpc::new("/x/a.torrent".to_string());
    let contents = TorrentContents { name: "n".to_string(), entries: entries(&[("a/b", 1)]) };
    rpc.contents = Some(contents.clone());
    assert_eq!(
        rpc.read_file(&engine, "/a/b").unwrap_err(),
        AppError::Other("this file has not been downloaded yet".to_string())
    );
    assert_eq!(
        rpc.read_file(&engine, "/a").unwrap_err(),
        AppError::Other("no such file in this torrent".to_string())
    );
    assert_eq!(
        rpc.read_entry(&contents.entries[0], true).unwrap(),
        "/x/a.torrent-data/a/b"
    );
    assert_eq!(
        rpc.read_entry(&contents.entries[0], false).unwrap_err(),
        AppError::Other("this file has not been downloaded yet".to_string())
    );
}

#[test]
fn a_torrent_cannot_be_changed() {
    let rpc = TorrentFileSystemRpc::new("/x/a.torrent".to_string());
    let refusal = AppError::Other("Torrent filesystem is read-only".to_string());
    assert!(rpc.is_read_only());
    assert!(!rpc.is_local());
    assert_eq!(rpc.get_icon("/"), "folder");
    assert_eq!(rpc.get_icon("/x"), "folder");
    assert_eq!(rpc.create_directory("/", "x", None).unwrap_err(), refusal);
    assert_eq!(rpc.delete_entries(&[]).unwrap_err(), refusal);
    assert_eq!(rpc.rename_entry("a", "b").unwrap_err(), refusal);
    assert_eq!(rpc.write_file("a", b"", Some(0)).unwrap_err(), refusal);
}

fn refused(data: &[u8]) -> String {
    match parse_torrent(data).unwrap_err() {
        AppError::Other(text) => text,
        other => panic!("{:?}", other),
    }
}

#[test]
fn a_torrent_file_that_is_cut_off_is_refused_wherever_it_ends() {
    for data in [
        &b"d13:announce-list"[..],
        b"d13:announce-listl",
        b"d13:announce-listlle",
        b"d4:infod5:files",
        b"d4:infod5:filesld4:path",
        b"d4:infod12:symlink path",
        b"d18446744073709551615:",
        b"d8:announce9:abc",
    ] {
        assert!(refused(data).starts_with("not a valid torrent file: "));
    }
    let whole = multi_file_torrent_bytes();
    for end in 0..whole.len() {
        assert!(refused(&whole[..end]).starts_with("not a valid torrent file: "));
    }
    assert!(parse_torrent(&whole).is_ok());
}

#[test]
fn a_refusal_gives_the_reason_of_the_parser() {
    for data in [&b"d8:announce"[..], b"d8:announce9:abc", b"di1e", b"d4:infod4:name", b"", b"x"] {
        let reason = librqbit::torrent_from_bytes::<librqbit::ByteBufOwned>(data).err().unwrap();
        assert_eq!(refused(data), format!("not a valid torrent file: {}", reason));
    }
    let whole = b"d13:announce-listll3:abc1:del1:fee8:announce3:abc4:infod5:filesld6:lengthi10e\
        4:pathl4:disc1:ae12:symlink pathl1:beed6:lengthi20e4:pathl1:ceee4:name5:album12:piece \
        lengthi16384e6:pieces20:aaaaaaaaaaaaaaaaaaaa12:symlink pathl1:xe1:yd1:zli1eeee7:comment1:qe";
    assert!(parse_torrent(whole).is_ok());
    let mut stops: usize = 0;
    for end in 0..whole.len() {
        let data = &whole[..end];
        if find_stop(data).is_some() {
            stops += 1;
            continue;
        }
        let reason = librqbit::torrent_from_bytes::<librqbit::ByteBufOwned>(data).err().unwrap();
        assert_eq!(refused(data), format!("not a valid torrent file: {}", reason));
    }
    assert_eq!(stops, 9);
}

#[test]
fn what_follows_a_torrent_file_does_not_matter() {
    let mut data = single_file_torrent_bytes();
    data.extend_from_slice(b"ld");
    assert_eq!(parse_torrent(&data).unwrap().name, "test.bin");
}

fn nested_torrent_bytes(lists: usize) -> Vec<u8> {
    let mut data = single_file_torrent_bytes();
    data.pop();
    data.extend_from_slice(b"1:x");
    data.extend(vec![b'l'; lists]);
    data.extend(vec![b'e'; lists]);
    data.push(b'e');
    data
}

#[test]
fn a_torrent_file_may_be_nested_to_any_depth() {
    for lists in [1, 127, 128, 1_000_000] {
        assert_eq!(parse_torrent(&nested_torrent_bytes(lists)).unwrap().name, "test.bin");
    }
    let mut unsound = nested_torrent_bytes(1000);
    unsound.truncate(unsound.len() - 500);
    assert!(refused(&unsound).starts_with("not a valid torrent file: "));
}
