use virtualfs::rpc::AppError;
use virtualfs::webdav_rpc::{
    after_delete, first_delete, parse_date_str, DeleteStep, LocalWebDavRpc,
};

fn rpc() -> LocalWebDavRpc {
    LocalWebDavRpc {
        name: String::new(),
        url: "https://cloud.test/remote.php/dav".to_string(),
        user: Some("alice".to_string()),
        pass: Some("secret".to_string()),
        remote_path: None,
    }
}

#[test]
fn webdav_rpc_iso_date_with_seconds_parses_to_that_instant() {
    let ts = parse_date_str("2024-01-15 10:30:00");
    assert!(ts > 1_705_000_000 && ts < 1_705_500_000, "ts={}", ts);
}

#[test]
fn webdav_rpc_iso_date_without_seconds_parses_to_the_same_minute() {
    assert_eq!(
        parse_date_str("2024-01-15 10:30:00"),
        parse_date_str("2024-01-15 10:30")
    );
}

#[test]
fn format_emitted_by_the_listing_round_trips() {
    let dt = chrono::TimeZone::timestamp_opt(&chrono::Local, 1_718_452_800, 0).unwrap();
    let rendered = dt.format("%Y-%m-%d %H:%M:%S").to_string();
    assert_eq!(parse_date_str(&rendered), 1_718_452_800);
}

#[test]
fn raw_rfc2822_header_returns_zero() {
    assert_eq!(parse_date_str("Mon, 01 Jan 2024 00:00:00 GMT"), 0);
}

#[test]
fn empty_and_malformed_dates_return_zero() {
    assert_eq!(parse_date_str(""), 0);
    assert_eq!(parse_date_str("not a date"), 0);
    assert_eq!(parse_date_str("2024-06-31 00:00:00"), 0);
}

#[test]
fn later_date_has_larger_timestamp() {
    assert!(parse_date_str("2024-01-01 00:00:00") > parse_date_str("2023-01-01 00:00:00"));
}

#[test]
fn connection_id_carries_user_and_url() {
    assert_eq!(
        rpc().connection_id().unwrap(),
        "webdav://alice@https://cloud.test/remote.php/dav"
    );
}

#[test]
fn connection_id_without_a_user_leaves_the_name_empty() {
    let mut r = rpc();
    r.user = None;
    assert_eq!(
        r.connection_id().unwrap(),
        "webdav://@https://cloud.test/remote.php/dav"
    );
}

#[test]
fn two_users_on_one_server_get_different_connection_ids() {
    let mut other = rpc();
    other.user = Some("bob".to_string());
    assert_ne!(rpc().connection_id(), other.connection_id());
}

#[test]
fn display_name_falls_back_to_the_url_when_unnamed() {
    assert_eq!(
        rpc().display_name().unwrap(),
        "https://cloud.test/remote.php/dav"
    );
}

#[test]
fn webdav_rpc_display_name_prefers_the_configured_name() {
    let mut r = rpc();
    r.name = "Nextcloud".to_string();
    assert_eq!(r.display_name().unwrap(), "Nextcloud");
}

#[test]
fn root_gets_the_netdrive_icon_and_subdirs_the_folder_icon() {
    let r = rpc();
    assert!(r.get_icon("/").ends_with("/netdrive.svg"));
    assert!(r.get_icon("").ends_with("/netdrive.svg"));
    assert!(r.get_icon("\\").ends_with("/netdrive.svg"));
    assert!(r.get_icon("/docs").ends_with("/folder.svg"));
}

#[test]
fn the_month_by_its_name_is_not_read_here() {
    assert_eq!(parse_date_str("Jun 28 2021"), 0);
    assert_eq!(parse_date_str("Jun 28 14:12"), 0);
}

#[test]
fn what_a_webdav_server_lists_keeps_its_order() {
    let dirs = vec![("docs".to_string(), "2023-01-01 00:00:00".to_string())];
    let files = vec![("a.txt".to_string(), 9u64, String::new())];
    let rows = rpc().list_dir(Ok(Ok((dirs, files)))).unwrap();
    assert_eq!(rows.len(), 2);
    assert!(rows[0].is_dir && rows[0].modified == parse_date_str("2023-01-01 00:00:00"));
    assert_eq!((rows[1].name.as_str(), rows[1].size, rows[1].modified), ("a.txt", 9, 0));
}

#[test]
fn a_webdav_server_that_fails_is_a_remote_error() {
    let failed = rpc().list_dir(Ok(Err("401".to_string())));
    assert_eq!(failed.unwrap_err(), AppError::Remote("401".to_string()));
    let lost = rpc().list_dir(Err("cancelled".to_string()));
    assert_eq!(lost.unwrap_err(), AppError::Remote("cancelled".to_string()));
}

#[test]
fn paths_on_a_webdav_server() {
    assert_eq!(rpc().path_in("", "new"), "new");
    assert_eq!(rpc().path_in("/docs", "new"), "/docs/new");
    assert_eq!(rpc().download_name("/docs/x.odt"), "x.odt");
    assert_eq!(rpc().download_name(""), "downloaded_file");
}

#[test]
fn entries_are_deleted_one_after_another_until_one_fails() {
    assert!(matches!(first_delete(0), DeleteStep::Done));
    assert!(matches!(first_delete(2), DeleteStep::Delete(0)));
    assert!(matches!(after_delete(0, 2, Ok(())), DeleteStep::Delete(1)));
    assert!(matches!(after_delete(1, 2, Ok(())), DeleteStep::Done));
    match after_delete(0, 2, Err("locked".to_string())) {
        DeleteStep::Fail(e) => assert_eq!(e, AppError::Remote("locked".to_string())),
        _ => panic!("a failure does not end it"),
    }
}
