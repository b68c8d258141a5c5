use std::io::Read;
use virtualfs::ftp_rpc::{
    download_result, parse_date_str, LocalFtpRpc, Upload, UploadAction, UPLOAD_ATTEMPTS,
    WRITER_PANICKED,
};
use virtualfs::rpc::AppError;
use virtualfs::transfer::ProgressReader;

fn rpc(name: &str) -> LocalFtpRpc {
    LocalFtpRpc {
        name: name.to_string(),
        host: "example.test".to_string(),
        port: 2121,
        user: "alice".to_string(),
        pass: "secret".to_string(),
    }
}

struct Counted<R, F> {
    inner: R,
    progress_callback: F,
    progress: ProgressReader,
}

impl<R: Read, F: Fn(u64)> Read for Counted<R, F> {
    fn read(&mut self, buf: &mut [u8]) -> std::io::Result<usize> {
        let (outcome, total) = self.progress.read(self.inner.read(buf));
        if let Some(total) = total {
            (self.progress_callback)(total);
        }
        outcome
    }
}

#[test]
fn ftp_rpc_iso_date_with_seconds_parses_to_that_instant() {
    let ts = parse_date_str("2024-01-15 10:30:00");
    assert!(ts > 1_705_000_000 && ts < 1_705_500_000, "ts={}", ts);
}

#[test]
fn ftp_rpc_iso_date_without_seconds_parses_to_the_same_minute() {
    let with = parse_date_str("2024-01-15 10:30:00");
    let without = parse_date_str("2024-01-15 10:30");
    assert_eq!(with, without);
}

#[test]
fn iso_format_emitted_by_the_listing_round_trips() {
    let dt = chrono::TimeZone::timestamp_opt(&chrono::Local, 1_718_452_800, 0).unwrap();
    let rendered = dt.format("%Y-%m-%d %H:%M:%S").to_string();
    assert_eq!(parse_date_str(&rendered), 1_718_452_800);
}

#[test]
fn unix_ls_date_with_implied_year_parses() {
    assert!(parse_date_str("Jun 28 14:12") > 0);
    assert!(parse_date_str("Jun 1 14:12") > 0);
    assert!(parse_date_str("Jun  1 14:12") > 0);
}

#[test]
fn implied_year_dates_all_land_in_one_year() {
    let first = parse_date_str("Jan 1 00:00");
    let last = parse_date_str("Dec 31 23:59");
    assert!(first > 0 && last > 0);
    let span = last - first;
    assert!(span > 360 * 86_400 && span < 366 * 86_400, "span={}", span);
}

#[test]
fn implied_year_dates_are_ordered_within_the_year() {
    assert!(parse_date_str("Jun 28 14:12") > parse_date_str("Jan 1 00:00"));
    assert!(parse_date_str("Jun 28 14:12") < parse_date_str("Dec 31 23:59"));
}

#[test]
fn unix_ls_date_with_explicit_year_parses_to_that_year() {
    let ts = parse_date_str("Jun 28 2021");
    assert!(ts > 1_624_700_000 && ts < 1_624_950_000, "ts={}", ts);
}

#[test]
fn explicit_year_wins_over_the_implied_one() {
    assert!(parse_date_str("Jun 28 2021") < parse_date_str("Jun 28 14:12"));
}

#[test]
fn empty_date_returns_zero() {
    assert_eq!(parse_date_str(""), 0);
}

#[test]
fn unparseable_date_returns_zero() {
    assert_eq!(parse_date_str("not a date"), 0);
    assert_eq!(parse_date_str("Xyz 99 25:99"), 0);
    assert_eq!(parse_date_str("2024-13-01 00:00:00"), 0);
}

#[test]
fn later_iso_date_has_larger_timestamp() {
    assert!(parse_date_str("2024-01-01 00:00:00") > parse_date_str("2023-01-01 00:00:00"));
}

#[test]
fn progress_reader_reports_running_totals_not_chunk_sizes() {
    let seen = std::cell::RefCell::new(Vec::new());
    let mut reader = Counted {
        inner: std::io::Cursor::new(b"0123456789".to_vec()),
        progress_callback: |n: u64| seen.borrow_mut().push(n),
        progress: ProgressReader::new(),
    };
    let mut buf = [0u8; 4];
    while reader.read(&mut buf).unwrap() > 0 {}
    assert_eq!(*seen.borrow(), vec![4, 8, 10]);
}

#[test]
fn progress_reader_passes_the_bytes_through_unchanged() {
    let mut reader = Counted {
        inner: std::io::Cursor::new(b"payload".to_vec()),
        progress_callback: |_n: u64| {},
        progress: ProgressReader::new(),
    };
    let mut out = Vec::new();
    reader.read_to_end(&mut out).unwrap();
    assert_eq!(out, b"payload");
    assert_eq!(reader.progress.total_read, 7);
}

#[test]
fn progress_reader_stays_silent_on_end_of_stream() {
    let calls = std::cell::Cell::new(0u32);
    let mut reader = Counted {
        inner: std::io::Cursor::new(Vec::new()),
        progress_callback: |_n: u64| calls.set(calls.get() + 1),
        progress: ProgressReader::new(),
    };
    let mut buf = [0u8; 8];
    assert_eq!(reader.read(&mut buf).unwrap(), 0);
    assert_eq!(calls.get(), 0);
}

struct Failing;

impl Read for Failing {
    fn read(&mut self, _buf: &mut [u8]) -> std::io::Result<usize> {
        Err(std::io::Error::new(std::io::ErrorKind::BrokenPipe, "boom"))
    }
}

#[test]
fn progress_reader_propagates_errors_without_reporting_progress() {
    let calls = std::cell::Cell::new(0u32);
    let mut reader = Counted {
        inner: Failing,
        progress_callback: |_n: u64| calls.set(calls.get() + 1),
        progress: ProgressReader::new(),
    };
    let mut buf = [0u8; 8];
    let err = reader.read(&mut buf).unwrap_err();
    assert_eq!(err.kind(), std::io::ErrorKind::BrokenPipe);
    assert_eq!(calls.get(), 0);
}

#[test]
fn a_progress_reader_starts_over() {
    let mut progress = ProgressReader::new();
    assert_eq!(progress.read::<()>(Ok(3)), (Ok(3), Some(3)));
    progress.rewind();
    assert_eq!(progress.total_read, 0);
    assert_eq!(progress.read::<()>(Ok(2)), (Ok(2), Some(2)));
}

#[test]
fn connection_id_carries_user_host_and_port() {
    assert_eq!(
        rpc("").connection_id().unwrap(),
        "ftp://alice@example.test:2121"
    );
}

#[test]
fn two_ports_of_one_host_get_different_connection_ids() {
    let mut other = rpc("");
    other.port = 21;
    assert_ne!(rpc("").connection_id(), other.connection_id());
}

#[test]
fn display_name_falls_back_to_host_when_unnamed() {
    assert_eq!(rpc("").display_name().unwrap(), "example.test");
}

#[test]
fn ftp_rpc_display_name_prefers_the_configured_name() {
    assert_eq!(rpc("Backup box").display_name().unwrap(), "Backup box");
}

#[test]
fn root_gets_the_ftp_icon_and_subdirs_the_folder_icon() {
    let r = rpc("");
    assert!(r.get_icon("/").ends_with("/ftp.svg"));
    assert!(r.get_icon("").ends_with("/ftp.svg"));
    assert!(r.get_icon("/pub/incoming").ends_with("/folder.svg"));
}

#[test]
fn backslash_root_is_normalised_to_the_ftp_icon() {
    assert!(rpc("").get_icon("\\").ends_with("/ftp.svg"));
}

#[test]
fn what_an_ftp_server_lists_keeps_its_order() {
    let dirs = vec![("zdir".to_string(), "Jun 28 2021".to_string())];
    let files = vec![
        ("b".to_string(), 7u64, "nonsense".to_string()),
        ("a".to_string(), 8u64, "2024-01-15 10:30".to_string()),
    ];
    let rows = rpc("").list_dir(Ok(Ok((dirs, files)))).unwrap();
    let names: Vec<&str> = rows.iter().map(|r| r.name.as_str()).collect();
    assert_eq!(names, vec!["zdir", "b", "a"]);
    assert!(rows[0].is_dir && rows[0].size == 0 && rows[0].modified == parse_date_str("Jun 28 2021"));
    assert!(!rows[1].is_dir && rows[1].size == 7 && rows[1].modified == 0);
    assert_eq!(rows[2].modified, parse_date_str("2024-01-15 10:30:00"));
}

#[test]
fn an_ftp_server_that_fails_is_a_remote_error() {
    let failed = rpc("").list_dir(Ok(Err("550".to_string())));
    assert_eq!(failed.unwrap_err(), AppError::Remote("550".to_string()));
    let lost = rpc("").list_dir(Err("cancelled".to_string()));
    assert_eq!(lost.unwrap_err(), AppError::Remote("cancelled".to_string()));
}

#[test]
fn paths_on_an_ftp_server() {
    let r = rpc("");
    assert_eq!(r.path_in("/pub", "new"), "/pub/new");
    assert_eq!(r.path_in("/pub/", "new"), "/pub/new");
    assert_eq!(r.path_in("/pub", "/abs"), "/abs");
    assert_eq!(r.download_name("/pub/x.bin"), "x.bin");
    assert_eq!(r.download_name("/"), "downloaded_file");
    assert_eq!(r.download_name("/pub/.."), "downloaded_file");
}

#[test]
fn a_download_tells_the_first_thing_that_went_wrong() {
    let fine: Result<Result<(), String>, String> = Ok(Ok(()));
    assert_eq!(download_result(fine.clone(), Some(Ok(()))), Ok(()));
    assert_eq!(
        download_result(fine.clone(), Some(Err("disk full".to_string()))),
        Err("disk full".to_string())
    );
    assert_eq!(download_result(fine, None), Err(WRITER_PANICKED.to_string()));
    assert_eq!(
        download_result(Ok(Err("reset".to_string())), None),
        Err("reset".to_string())
    );
    assert_eq!(download_result(Err("lost".to_string()), Some(Ok(()))), Err("lost".to_string()));
}

#[test]
fn an_upload_connects_where_no_session_answers() {
    let upload = Upload::new();
    assert!(matches!(upload.begin(None), UploadAction::Connect));
    assert!(matches!(upload.begin(Some(false)), UploadAction::Connect));
    assert!(matches!(upload.begin(Some(true)), UploadAction::Send));
    assert!(matches!(upload.connected(Ok(())), UploadAction::Send));
    assert!(matches!(upload.connected(Err("no".to_string())), UploadAction::Fail(t) if t == "no"));
}

#[test]
fn an_upload_that_fails_twice_is_given_up() {
    let mut upload = Upload::new();
    assert!(matches!(upload.sent(Err("one".to_string())), UploadAction::Retry));
    assert!(matches!(upload.sent(Err("two".to_string())), UploadAction::Fail(t) if t == "two"));
    assert_eq!(upload.attempts, UPLOAD_ATTEMPTS);
    let mut upload = Upload::new();
    assert!(matches!(upload.sent(Err("one".to_string())), UploadAction::Retry));
    assert!(matches!(upload.sent(Ok(())), UploadAction::Done));
}
