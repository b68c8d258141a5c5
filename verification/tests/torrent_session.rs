use std::path::{Path, PathBuf};
use virtualfs::rpc::AppError;
use virtualfs::torrent_session::{
    acquire, activity, activity_of, adopt_session, cleanup_plan, close_unused, current_session,
    data_dir_for, downloaded_file_path, file_done, file_progress, finish_start, handles,
    is_active, is_file_complete, is_open, open_count, ordered_peers, peer_card, peers,
    progress_rows, release, resumed, runtime, seeding_enabled, selection_changed,
    selection_target, session_started, set_seeding_enabled, shutdown, start_plan,
    state_file_for, state_temp_file_for, stats, stats_are_active, stop_target, upload_disabled,
    AddOutcome, Engine, FileProgress, PeerRow, StartPlan, StopAction, StopAttempts,
    TorrentStats, TorrentStatsState, CLOSE_GRACE_SECS, STOP_ATTEMPTS,
};

#[test]
fn the_data_folder_sits_next_to_the_torrent() {
    assert_eq!(
        PathBuf::from(data_dir_for("/home/u/Downloads/Big Buck Bunny.torrent")),
        PathBuf::from("/home/u/Downloads/Big Buck Bunny.torrent-data")
    );
}

#[test]
fn the_state_file_sits_next_to_the_torrent_not_inside_the_folder() {
    let state = PathBuf::from(state_file_for("/home/u/Downloads/Big Buck Bunny.torrent"));
    assert_eq!(
        state,
        PathBuf::from("/home/u/Downloads/Big Buck Bunny.torrent-state.json")
    );
    assert_eq!(
        PathBuf::from(state_file_for("/x/Foo.TORRENT")),
        PathBuf::from("/x/Foo.TORRENT-state.json")
    );
    assert_eq!(state.parent(), Some(Path::new("/home/u/Downloads")));
    let data = PathBuf::from(data_dir_for("/home/u/Downloads/Big Buck Bunny.torrent"));
    assert!(!state.starts_with(&data));
}

#[test]
fn a_torrent_in_the_current_directory_still_resolves() {
    assert_eq!(PathBuf::from(data_dir_for("a.torrent")), PathBuf::from("a.torrent-data"));
    assert_eq!(
        PathBuf::from(state_file_for("a.torrent")),
        PathBuf::from("a.torrent-state.json")
    );
}

#[test]
fn a_new_state_is_written_beside_the_old_one() {
    let state = PathBuf::from(state_file_for("/x/a.torrent"));
    assert_eq!(
        PathBuf::from(state_temp_file_for("/x/a.torrent")),
        state.with_extension("json.tmp")
    );
}

#[test]
fn a_file_is_complete_only_when_every_byte_is_there() {
    let p = FileProgress {
        index: 0,
        done_bytes: 10,
        total_bytes: 10,
    };
    assert!(p.is_complete());
    let p = FileProgress {
        index: 0,
        done_bytes: 9,
        total_bytes: 10,
    };
    assert!(!p.is_complete());
}

#[test]
fn a_torrent_that_never_started_reports_nothing() {
    let engine = Engine::new();
    assert!(!is_open(&engine, "/nowhere/none.torrent"));
    assert!(!is_active(&engine, "/nowhere/none.torrent"));
    assert!(stats(&engine, "/nowhere/none.torrent").is_none());
    assert!(file_progress(&engine, "/nowhere/none.torrent", &[1, 2]).is_empty());
    assert!(!is_file_complete(&engine, "/nowhere/none.torrent", 0, 10));
}

#[test]
fn seeding_is_on_until_someone_turns_it_off() {
    let mut engine = Engine::new();
    assert!(seeding_enabled(&engine));
    assert!(!upload_disabled(&engine));
    set_seeding_enabled(&mut engine, false);
    assert!(!seeding_enabled(&engine));
    assert!(upload_disabled(&engine));
    set_seeding_enabled(&mut engine, true);
    assert!(seeding_enabled(&engine));
}

#[test]
fn opening_the_same_torrent_twice_keeps_it_alive_until_both_are_gone() {
    let mut engine = Engine::default();
    let key = "/tmp/refcount-probe.torrent";
    assert_eq!(open_count(&engine, key), 0);
    acquire(&mut engine, key);
    assert_eq!(open_count(&engine, key), 1);
    acquire(&mut engine, key);
    assert_eq!(open_count(&engine, key), 2);
    release(&mut engine, key);
    assert_eq!(open_count(&engine, key), 1);
    release(&mut engine, key);
    assert_eq!(open_count(&engine, key), 0);
}

#[test]
fn releasing_a_torrent_nobody_opened_is_harmless() {
    let mut engine = Engine::new();
    assert!(!release(&mut engine, "/tmp/never-opened.torrent"));
    assert_eq!(open_count(&engine, "/tmp/never-opened.torrent"), 0);
}

#[test]
fn two_torrents_count_independently() {
    let mut engine = Engine::new();
    let a = "/tmp/ref-a.torrent";
    let b = "/tmp/ref-b.torrent";
    acquire(&mut engine, a);
    acquire(&mut engine, b);
    acquire(&mut engine, b);
    release(&mut engine, a);
    assert_eq!(open_count(&engine, a), 0);
    assert_eq!(open_count(&engine, b), 2);
    release(&mut engine, b);
    release(&mut engine, b);
    assert_eq!(open_count(&engine, b), 0);
}

#[test]
fn nothing_open_means_no_activity_to_show() {
    assert!(activity(&Engine::new()).is_none());
}

#[test]
fn activity_counts_the_torrents_at_work() {
    let live = TorrentStatsState::Live;
    let paused = TorrentStatsState::Paused;
    assert_eq!(activity_of(&[]), None);
    assert_eq!(activity_of(&[paused, TorrentStatsState::Error]), None);
    assert_eq!(activity_of(&[live, paused, TorrentStatsState::Initializing, live]), Some(3));
}

fn some_stats(state: TorrentStatsState) -> TorrentStats {
    TorrentStats {
        state,
        file_progress: vec![],
        error: None,
        progress_bytes: 0,
        uploaded_bytes: 0,
        total_bytes: 0,
        finished: false,
    }
}

#[test]
fn a_torrent_is_at_work_while_it_is_live_or_getting_ready() {
    assert!(stats_are_active(&Some(some_stats(TorrentStatsState::Live))));
    assert!(stats_are_active(&Some(some_stats(TorrentStatsState::Initializing))));
    assert!(!stats_are_active(&Some(some_stats(TorrentStatsState::Paused))));
    assert!(!stats_are_active(&Some(some_stats(TorrentStatsState::Error))));
    assert!(!stats_are_active(&None));
}

#[test]
fn progress_is_shown_for_every_file_that_statistics_tell_of() {
    let rows = progress_rows(&[5, 6], &[10]);
    assert_eq!(rows.len(), 2);
    assert_eq!(rows[0], FileProgress { index: 0, done_bytes: 5, total_bytes: 10 });
    assert_eq!(rows[1], FileProgress { index: 1, done_bytes: 6, total_bytes: 0 });
    assert!(!rows[1].is_complete());
}

#[test]
fn a_file_is_done_when_its_bytes_reach_its_size() {
    assert!(file_done(&[3, 4], 1, 4));
    assert!(!file_done(&[3, 4], 1, 5));
    assert!(!file_done(&[3, 4], 2, 0));
    assert!(file_done(&[0], 0, 0));
}

#[test]
fn peers_stand_in_the_order_of_their_addresses() {
    let row = |addr: &str| PeerRow {
        addr: addr.to_string(),
        state: "live".to_string(),
        fetched_bytes: 1,
        pieces: 2,
        errors: 3,
    };
    let ordered = ordered_peers(vec![row("9.0.0.1:1"), row("10.0.0.1:1"), row("1.0.0.1:1")]);
    let addrs: Vec<&str> = ordered.iter().map(|p| p.addr.as_str()).collect();
    assert_eq!(addrs, vec!["1.0.0.1:1", "10.0.0.1:1", "9.0.0.1:1"]);
    assert_eq!(
        peer_card(&ordered[0]),
        "address: 1.0.0.1:1\nstate: live\nfetched bytes: 1\nchecked pieces: 2\nerrors: 3\n"
    );
}

#[test]
fn a_downloaded_file_lies_in_the_data_folder() {
    assert_eq!(
        PathBuf::from(downloaded_file_path("/x/a.torrent", "disc/1.flac")),
        PathBuf::from("/x/a.torrent-data").join("disc/1.flac")
    );
    assert_eq!(
        PathBuf::from(downloaded_file_path("/x/a.torrent", "/etc/hosts")),
        PathBuf::from("/x/a.torrent-data").join("/etc/hosts")
    );
}

#[test]
fn failures_of_a_session_name_their_reason() {
    let why = || Err::<(), String>("why".to_string());
    let told = |text: &str| AppError::Other(text.to_string());
    assert_eq!(session_started(why()), Err(told("could not start the torrent session: why")));
    assert_eq!(resumed(why()), Err(told("could not resume the torrent: why")));
    assert_eq!(selection_changed(why()), Err(told("could not change the file selection: why")));
    assert_eq!(resumed(Ok(())), Ok(()));
    assert_eq!(session_started(Ok(5)), Ok(5));
    assert_eq!(selection_changed(Ok(())), Ok(()));
}

#[test]
fn a_torrent_that_is_not_open_is_added_to_a_session() {
    let engine = Engine::new();
    match start_plan(&engine, "/x/a.torrent", Some(vec![0, 2])) {
        StartPlan::Add(settings) => {
            assert!(!settings.paused);
            assert!(settings.overwrite);
            assert_eq!(settings.only_files, Some(vec![0, 2]));
            assert_eq!(settings.output_folder, "/x/a.torrent-data");
        }
        _ => panic!("the torrent is not open"),
    }
}

#[test]
fn a_torrent_that_was_not_added_is_not_open() {
    let mut engine = Engine::new();
    let told = |text: &str| AppError::Other(text.to_string());
    assert_eq!(
        finish_start(&mut engine, "/x/a.torrent", None, AddOutcome::AlreadyManaged),
        Err(told("this torrent is already open somewhere else in the session"))
    );
    assert_eq!(
        finish_start(&mut engine, "/x/a.torrent", None, AddOutcome::ListOnly),
        Err(told("the torrent was not added"))
    );
    assert_eq!(
        finish_start(&mut engine, "/x/a.torrent", None, AddOutcome::Failed("no".to_string())),
        Err(told("could not add the torrent: no"))
    );
    assert!(!is_open(&engine, "/x/a.torrent"));
    assert!(stop_target(&engine, "/x/a.torrent").is_none());
    assert_eq!(
        selection_target(&engine, "/x/a.torrent").err(),
        Some(told("this torrent is not running"))
    );
}

#[test]
fn stopping_gives_up_after_the_last_attempt() {
    let mut attempts = StopAttempts::new();
    assert!(matches!(attempts.action(true), StopAction::Finished));
    for i in 0..STOP_ATTEMPTS {
        assert!(matches!(attempts.action(false), StopAction::Pause));
        attempts.note_failure(format!("reason {}", i));
    }
    match attempts.action(false) {
        StopAction::GiveUp(e) => assert_eq!(
            e.message(),
            format!("could not pause the torrent: reason {}", STOP_ATTEMPTS - 1)
        ),
        _ => panic!("there is no attempt left"),
    }
    let unknown = StopAttempts { failed: STOP_ATTEMPTS, last: None };
    match unknown.action(true) {
        StopAction::GiveUp(e) => {
            assert_eq!(e.message(), "could not pause the torrent: unknown reason")
        }
        _ => panic!("there is no attempt left"),
    }
}

#[test]
fn cleaning_up_removes_the_torrent_file_only_when_asked() {
    let mut engine = Engine::new();
    let plan = cleanup_plan(&mut engine, "/x/a.torrent", false);
    assert!(plan.delete.is_none());
    assert_eq!(plan.folder, "/x/a.torrent-data");
    assert_eq!(plan.files, vec!["/x/a.torrent-state.json"]);
    let plan = cleanup_plan(&mut engine, "/x/a.torrent", true);
    assert_eq!(plan.files, vec!["/x/a.torrent-state.json", "/x/a.torrent"]);
}

#[test]
fn an_engine_without_a_session_has_nothing_to_stop() {
    let mut engine = Engine::new();
    acquire(&mut engine, "/x/a.torrent");
    assert!(current_session(&engine).is_none());
    assert!(runtime(&engine).is_none());
    assert!(close_unused(&mut engine, "/x/a.torrent").is_none());
    assert!(shutdown(&mut engine).is_none());
    assert_eq!(open_count(&engine, "/x/a.torrent"), 0);
    assert_eq!(CLOSE_GRACE_SECS, 5);
}

fn offline_torrent_bytes() -> Vec<u8> {
    let mut v = Vec::new();
    v.extend_from_slice(b"d8:announce27:http://127.0.0.1:1/announce4:infod6:lengthi16384e4:name9:probe.bin12:piece lengthi16384e6:pieces20:");
    v.extend_from_slice(&[0u8; 20]);
    v.extend_from_slice(b"ee");
    v
}

async fn offline_session() -> std::sync::Arc<librqbit::Session> {
    let options = librqbit::SessionOptions {
        disable_dht: true,
        disable_dht_persistence: true,
        persistence: None,
        disable_upload: true,
        ..Default::default()
    };
    librqbit::Session::new_with_opts(PathBuf::from("/tmp"), options).await.unwrap()
}

async fn added(session: &std::sync::Arc<librqbit::Session>, folder: &str) -> AddOutcome {
    let options = librqbit::AddTorrentOptions {
        paused: true,
        overwrite: true,
        disable_trackers: true,
        output_folder: Some(folder.to_string()),
        ..Default::default()
    };
    let bytes = librqbit::AddTorrent::TorrentFileBytes(offline_torrent_bytes().into());
    match session.add_torrent(bytes, Some(options)).await.unwrap() {
        librqbit::AddTorrentResponse::Added(id, handle) => AddOutcome::Added(id, handle),
        librqbit::AddTorrentResponse::AlreadyManaged(..) => AddOutcome::AlreadyManaged,
        librqbit::AddTorrentResponse::ListOnly(_) => AddOutcome::ListOnly,
    }
}

#[test]
fn a_torrent_in_a_session_is_known_until_the_last_panel_leaves() {
    let rt = tokio::runtime::Runtime::new().unwrap();
    rt.block_on(async {
        let key = "/tmp/virtualfs-probe.torrent";
        let mut engine = Engine::new();
        let session = offline_session().await;
        let current = tokio::runtime::Handle::try_current().ok();
        adopt_session(&mut engine, session.clone(), current.clone());
        let again = adopt_session(&mut engine, offline_session().await, None);
        assert!(std::sync::Arc::ptr_eq(&session, &again));
        assert!(runtime(&engine).is_some());

        acquire(&mut engine, key);
        let outcome = added(&session, &data_dir_for(key)).await;
        let state = finish_start(&mut engine, key, Some(vec![0]), outcome).unwrap();
        assert_eq!(state.selected, vec![0]);
        assert_eq!(state.info_hash.len(), 40);
        assert!(state.info_hash.chars().all(|c| c.is_ascii_hexdigit() && !c.is_ascii_uppercase()));

        assert!(is_open(&engine, key));
        assert_eq!(handles(&engine).len(), 1);
        let known = stats(&engine, key).unwrap();
        assert_eq!(known.total_bytes, 16384);
        assert_eq!(known.progress_bytes, 0);
        assert!(!is_file_complete(&engine, key, 0, 16384));
        assert!(peers(&engine, key).is_empty());
        assert!(matches!(start_plan(&engine, key, None), StartPlan::Resume(..)));
        assert!(stop_target(&engine, key).is_some());
        assert!(selection_target(&engine, key).unwrap().is_some());

        acquire(&mut engine, key);
        assert!(!release(&mut engine, key));
        assert!(close_unused(&mut engine, key).is_none());
        assert!(is_open(&engine, key));
        assert!(release(&mut engine, key));
        let (id, pending) = close_unused(&mut engine, key).unwrap();
        assert!(!is_open(&engine, key));
        pending.delete(id.into(), true).await.unwrap();

        let left = shutdown(&mut engine).unwrap();
        left.stop().await;
    });
}

#[test]
fn a_paused_torrent_is_not_at_work() {
    let rt = tokio::runtime::Runtime::new().unwrap();
    rt.block_on(async {
        let key = "/tmp/virtualfs-paused-probe.torrent";
        let mut engine = Engine::new();
        let session = offline_session().await;
        adopt_session(&mut engine, session.clone(), None);
        let outcome = added(&session, &data_dir_for(key)).await;
        finish_start(&mut engine, key, None, outcome).unwrap();
        for _ in 0..40 {
            if !is_active(&engine, key) {
                break;
            }
            tokio::time::sleep(std::time::Duration::from_millis(100)).await;
        }
        assert!(!is_active(&engine, key));
        assert!(activity(&engine).is_none());
        let (_, handle) = stop_target(&engine, key).unwrap();
        assert!(matches!(StopAttempts::new().step(&handle), StopAction::Finished));
        assert_eq!(file_progress(&engine, key, &[16384]).len(), 1);
        let plan = cleanup_plan(&mut engine, key, false);
        let (id, pending) = plan.delete.unwrap();
        pending.delete(id.into(), true).await.unwrap();
        assert!(!is_open(&engine, key));
        pending.stop().await;
    });
}
