use std::io::Write;
use virtualfs::archive_entry::ArchiveEntry;
use virtualfs::archive_rpc::{
    list_members, load_archive, read_file_from_archive_memory, scan_archive_from_memory,
    scan_tar_memory, scan_zip_memory, search_entries, ArchiveFileSystemRpc, Found, LoadedArchive,
};
use virtualfs::rpc::{AppError, RemoteFileEntry};
use virtualfs::tar_archive::{
    find_packing, is_bzip2_data, is_gzip_data, is_tar_format_from_name, list_packed_tar, Packing,
};
use virtualfs::tar_walk::{countable_length, find_overflow, size_in};
use virtualfs::zip_archive::{is_locked_data, zip_member_result, ZipMember, PASSWORD_REQUIRED};

fn names(rows: &[RemoteFileEntry]) -> Vec<String> {
    rows.iter().map(|r| r.name.clone()).collect()
}

fn entry(name: &str, is_dir: bool, size: u64) -> ArchiveEntry {
    ArchiveEntry { name: name.to_string(), is_dir, size, permissions: None, modified: 0 }
}

fn tar_with(files: &[(&str, &[u8])]) -> Vec<u8> {
    let mut buffer = Vec::new();
    {
        let mut builder = tar::Builder::new(&mut buffer);
        for (name, content) in files {
            let mut header = tar::Header::new_gnu();
            header.set_size(content.len() as u64);
            header.set_entry_type(tar::EntryType::Regular);
            header.set_mode(0o600);
            header.set_mtime(1_700_000_000);
            builder.append_data(&mut header, name, *content).unwrap();
        }
        builder.finish().unwrap();
    }
    buffer
}

fn gzipped(data: &[u8]) -> Vec<u8> {
    let mut encoder =
        flate2::write::GzEncoder::new(Vec::new(), flate2::Compression::default());
    encoder.write_all(data).unwrap();
    encoder.finish().unwrap()
}

fn bzipped(data: &[u8]) -> Vec<u8> {
    let mut encoder = bzip2::write::BzEncoder::new(Vec::new(), bzip2::Compression::default());
    encoder.write_all(data).unwrap();
    encoder.finish().unwrap()
}

struct Raw<'a> {
    name: &'a str,
    flags: u16,
    method: u16,
    extra: &'a [u8],
    content: &'a [u8],
    crc: u32,
}

fn raw(name: &str) -> Raw<'_> {
    Raw { name, flags: 0, method: 0, extra: &[], content: &[], crc: 0 }
}

fn raw_zip(members: &[Raw]) -> Vec<u8> {
    let mut out: Vec<u8> = Vec::new();
    let mut directory: Vec<u8> = Vec::new();
    for m in members {
        let start = out.len() as u32;
        let size = m.content.len() as u32;
        out.extend_from_slice(&0x04034b50u32.to_le_bytes());
        out.extend_from_slice(&20u16.to_le_bytes());
        out.extend_from_slice(&m.flags.to_le_bytes());
        out.extend_from_slice(&m.method.to_le_bytes());
        out.extend_from_slice(&[0; 4]);
        out.extend_from_slice(&m.crc.to_le_bytes());
        out.extend_from_slice(&size.to_le_bytes());
        out.extend_from_slice(&size.to_le_bytes());
        out.extend_from_slice(&(m.name.len() as u16).to_le_bytes());
        out.extend_from_slice(&0u16.to_le_bytes());
        out.extend_from_slice(m.name.as_bytes());
        out.extend_from_slice(m.content);
        directory.extend_from_slice(&0x02014b50u32.to_le_bytes());
        directory.extend_from_slice(&20u16.to_le_bytes());
        directory.extend_from_slice(&20u16.to_le_bytes());
        directory.extend_from_slice(&m.flags.to_le_bytes());
        directory.extend_from_slice(&m.method.to_le_bytes());
        directory.extend_from_slice(&[0; 4]);
        directory.extend_from_slice(&m.crc.to_le_bytes());
        directory.extend_from_slice(&size.to_le_bytes());
        directory.extend_from_slice(&size.to_le_bytes());
        directory.extend_from_slice(&(m.name.len() as u16).to_le_bytes());
        directory.extend_from_slice(&(m.extra.len() as u16).to_le_bytes());
        directory.extend_from_slice(&[0; 6]);
        directory.extend_from_slice(&0u32.to_le_bytes());
        directory.extend_from_slice(&start.to_le_bytes());
        directory.extend_from_slice(m.name.as_bytes());
        directory.extend_from_slice(m.extra);
    }
    let offset = out.len() as u32;
    out.extend_from_slice(&directory);
    out.extend_from_slice(&0x06054b50u32.to_le_bytes());
    out.extend_from_slice(&[0; 4]);
    out.extend_from_slice(&(members.len() as u16).to_le_bytes());
    out.extend_from_slice(&(members.len() as u16).to_le_bytes());
    out.extend_from_slice(&(directory.len() as u32).to_le_bytes());
    out.extend_from_slice(&offset.to_le_bytes());
    out.extend_from_slice(&0u16.to_le_bytes());
    out
}

#[test]
fn test_scan_and_read_zip_from_memory() {
    let mut buffer = Vec::new();
    {
        let cursor = std::io::Cursor::new(&mut buffer);
        let mut zip = zip::ZipWriter::new(cursor);
        let options = zip::write::FileOptions::default();

        zip.start_file("foo.txt", options).unwrap();
        zip.write_all(b"Hello in-memory zip!").unwrap();

        zip.add_directory("bar/", options).unwrap();

        zip.start_file("bar/baz.txt", options).unwrap();
        zip.write_all(b"Nested file content").unwrap();

        zip.finish().unwrap();
    }

    let entries = scan_archive_from_memory(&buffer, "test.zip", false).unwrap();
    assert_eq!(entries.len(), 3);

    let foo_entry = entries.iter().find(|e| e.name == "foo.txt").unwrap();
    assert!(!foo_entry.is_dir);
    assert_eq!(foo_entry.size, 20);

    let bar_entry = entries.iter().find(|e| e.name == "bar/").unwrap();
    assert!(bar_entry.is_dir);

    let baz_entry = entries.iter().find(|e| e.name == "bar/baz.txt").unwrap();
    assert!(!baz_entry.is_dir);
    assert_eq!(baz_entry.size, 19);

    let foo_content = read_file_from_archive_memory(&buffer, "foo.txt", false).unwrap();
    assert_eq!(foo_content, b"Hello in-memory zip!");

    let baz_content = read_file_from_archive_memory(&buffer, "/bar/baz.txt", false).unwrap();
    assert_eq!(baz_content, b"Nested file content");
}

#[test]
fn test_scan_and_read_tar_from_memory() {
    let mut buffer = Vec::new();
    {
        let mut tar_builder = tar::Builder::new(&mut buffer);

        let mut header = tar::Header::new_gnu();
        header.set_size(14);
        header.set_entry_type(tar::EntryType::Regular);
        header.set_mode(0o644);
        tar_builder
            .append_data(&mut header, "hello.txt", &b"Hello from TAR"[..])
            .unwrap();

        tar_builder.append_dir("my_folder/", ".").unwrap();
        tar_builder.finish().unwrap();
    }

    let entries = scan_archive_from_memory(&buffer, "test.tar", true).unwrap();
    assert_eq!(entries.len(), 2);

    let hello_entry = entries.iter().find(|e| e.name == "hello.txt").unwrap();
    assert!(!hello_entry.is_dir);
    assert_eq!(hello_entry.size, 14);
    assert_eq!(hello_entry.permissions, Some(0o644));

    let folder_entry = entries.iter().find(|e| e.name == "my_folder/").unwrap();
    assert!(folder_entry.is_dir);

    let hello_content = read_file_from_archive_memory(&buffer, "hello.txt", true).unwrap();
    assert_eq!(hello_content, b"Hello from TAR");
}

#[test]
fn tar_gz_is_tar_format() {
    assert!(is_tar_format_from_name("archive.tar.bz2"));
    assert!(is_tar_format_from_name("archive.tbz2"));
    assert!(is_tar_format_from_name("archive.tbz"));
    assert!(is_tar_format_from_name("archive.tar.gz"));
}

#[test]
fn tgz_is_tar_format() {
    assert!(is_tar_format_from_name("backup.tgz"));
}

#[test]
fn tar_is_tar_format() {
    assert!(is_tar_format_from_name("files.tar"));
}

#[test]
fn zip_is_not_tar_format() {
    assert!(!is_tar_format_from_name("archive.zip"));
}

#[test]
fn tar_format_check_is_case_insensitive() {
    assert!(is_tar_format_from_name("ARCHIVE.TAR.GZ"));
    assert!(is_tar_format_from_name("Backup.TGZ"));
}

#[test]
fn unknown_extension_is_not_tar() {
    assert!(!is_tar_format_from_name("file.7z"));
    assert!(!is_tar_format_from_name("file.rar"));
}

#[test]
fn read_directory_entry_from_zip_returns_error() {
    let mut buffer = Vec::new();
    {
        let cursor = std::io::Cursor::new(&mut buffer);
        let mut zip = zip::ZipWriter::new(cursor);
        let opts = zip::write::FileOptions::default();
        zip.add_directory("mydir/", opts).unwrap();
        zip.finish().unwrap();
    }
    let result = read_file_from_archive_memory(&buffer, "mydir/", false);
    assert!(result.is_err());
    assert_eq!(result.unwrap_err(), AppError::Other("Is a directory".to_string()));
}

#[test]
fn read_nonexistent_file_from_zip_returns_error() {
    let mut buffer = Vec::new();
    {
        let cursor = std::io::Cursor::new(&mut buffer);
        let mut zip = zip::ZipWriter::new(cursor);
        zip.start_file("real.txt", zip::write::FileOptions::default()).unwrap();
        zip.write_all(b"data").unwrap();
        zip.finish().unwrap();
    }
    let result = read_file_from_archive_memory(&buffer, "ghost.txt", false);
    assert!(result.is_err());
    assert_eq!(
        result.unwrap_err(),
        AppError::Other("File not found in archive: ghost.txt".to_string())
    );
}

#[test]
fn scan_zip_empty_archive_returns_empty() {
    let mut buffer = Vec::new();
    {
        let cursor = std::io::Cursor::new(&mut buffer);
        let mut zip = zip::ZipWriter::new(cursor);
        zip.finish().unwrap();
    }
    let entries = scan_zip_memory(&buffer).unwrap();
    assert!(entries.is_empty());
}

#[test]
fn scan_invalid_bytes_returns_error() {
    let result = scan_zip_memory(b"this is not a zip file");
    assert!(result.is_err());
    assert!(matches!(result, Err(AppError::Other(_))));
}

#[test]
fn bzip2_magic_needs_the_level_digit() {
    assert!(is_bzip2_data(b"BZh9somecompressedbytes"));
    assert!(is_bzip2_data(b"BZh1somecompressedbytes"));
    assert!(!is_bzip2_data(b"BZhistory.txt"));
    assert!(!is_bzip2_data(b"BZh0nope"));
    assert!(!is_bzip2_data(b"BZh"));
    assert!(!is_bzip2_data(b""));
}

#[test]
fn gzip_magic_is_recognised_and_not_confused_with_bzip2() {
    assert!(is_gzip_data(&[0x1f, 0x8b, 0x08, 0x00]));
    assert!(!is_gzip_data(b"BZh9"));
    assert!(!is_bzip2_data(&[0x1f, 0x8b, 0x08, 0x00]));
}

#[test]
fn bytes_tell_how_they_are_packed() {
    assert_eq!(find_packing(&gzipped(b"x")), Packing::Gzip);
    assert_eq!(find_packing(&bzipped(b"x")), Packing::Bzip2);
    assert_eq!(find_packing(b"plain"), Packing::Plain);
    assert_eq!(find_packing(b""), Packing::Plain);
}

#[test]
fn packed_tar_archives_are_scanned_and_read_as_they_are() {
    let plain = tar_with(&[("one.txt", b"first"), ("two.txt", b"second")]);
    for data in [plain.clone(), gzipped(&plain), bzipped(&plain)] {
        let entries = scan_tar_memory(&data).unwrap();
        let found: Vec<&str> = entries.iter().map(|e| e.name.as_str()).collect();
        assert_eq!(found, vec!["one.txt", "two.txt"]);
        assert_eq!(entries[0].permissions, Some(0o600));
        assert_eq!(entries[0].modified, 1_700_000_000);
        assert_eq!(entries[1].size, 6);
        assert_eq!(read_file_from_archive_memory(&data, "two.txt", true).unwrap(), b"second");
        assert_eq!(read_file_from_archive_memory(&data, "\\one.txt", true).unwrap(), b"first");
    }
}

#[test]
fn a_tar_archive_is_listed_up_to_where_it_breaks_off() {
    let mut data = tar_with(&[("one.txt", b"first"), ("two.txt", b"second")]);
    data[1024] = b'X';
    let listed = list_packed_tar(&data);
    assert_eq!(listed.len(), 2);
    assert!(listed[0].is_ok());
    let text = listed[1].as_ref().unwrap_err().clone();
    assert_eq!(scan_tar_memory(&data).unwrap().len(), 1);
    assert_eq!(read_file_from_archive_memory(&data, "one.txt", true).unwrap(), b"first");
    assert_eq!(
        read_file_from_archive_memory(&data, "two.txt", true).unwrap_err(),
        AppError::Io(text)
    );
}

#[test]
fn a_directory_of_a_tar_archive_is_refused_as_one() {
    let mut buffer = Vec::new();
    {
        let mut builder = tar::Builder::new(&mut buffer);
        builder.append_dir("dir/", ".").unwrap();
        builder.finish().unwrap();
    }
    assert_eq!(
        read_file_from_archive_memory(&buffer, "/dir/", true).unwrap_err(),
        AppError::Other("Is a directory".to_string())
    );
    assert_eq!(
        read_file_from_archive_memory(&buffer, "none", true).unwrap_err(),
        AppError::Other("File not found in archive: none".to_string())
    );
}

#[test]
fn the_first_of_two_members_of_one_name_is_read() {
    let data = tar_with(&[("same.txt", b"first"), ("same.txt", b"second")]);
    assert_eq!(read_file_from_archive_memory(&data, "same.txt", true).unwrap(), b"first");
}

#[test]
fn a_locked_member_is_left_out_and_refused_as_the_zip_crate_refuses_it() {
    let data = raw_zip(&[raw("open.txt"), Raw { flags: 1, ..raw("locked.txt") }, raw("last.txt")]);
    let found: Vec<String> =
        scan_zip_memory(&data).unwrap().into_iter().map(|e| e.name).collect();
    assert_eq!(found, vec!["open.txt", "last.txt"]);
    let mut archive = zip::ZipArchive::new(std::io::Cursor::new(&data)).unwrap();
    let refusal = archive.by_index(1).err().unwrap().to_string();
    assert_eq!(refusal, PASSWORD_REQUIRED);
    assert_eq!(read_file_from_archive_memory(&data, "open.txt", false).unwrap(), b"");
    assert_eq!(
        read_file_from_archive_memory(&data, "last.txt", false).unwrap_err(),
        AppError::Other(refusal)
    );
}

#[test]
fn a_member_with_aes_data_that_is_not_locked_cannot_be_read() {
    let aes = [0x01, 0x99, 7, 0, 2, 0, 0x41, 0x45, 3, 0, 0];
    let data = raw_zip(&[raw("a"), Raw { extra: &aes, ..raw("b") }]);
    let entries = scan_zip_memory(&data).unwrap();
    assert_eq!(entries.len(), 1);
    assert!(read_file_from_archive_memory(&data, "b", false).is_err());
}

#[test]
fn a_member_that_is_packed_in_an_unknown_way_is_left_out() {
    let data = raw_zip(&[Raw { method: 77, ..raw("odd") }, raw("plain")]);
    assert_eq!(scan_zip_memory(&data).unwrap().len(), 1);
    let mut archive = zip::ZipArchive::new(std::io::Cursor::new(&data)).unwrap();
    let refusal = archive.by_index(0).err().unwrap().to_string();
    assert_eq!(
        read_file_from_archive_memory(&data, "plain", false).unwrap_err(),
        AppError::Other(refusal)
    );
}

#[test]
fn a_member_whose_header_is_damaged_is_left_out() {
    let mut data = raw_zip(&[raw("first"), raw("second")]);
    data[0] = 0;
    assert_eq!(scan_zip_memory(&data).unwrap().len(), 1);
    let mut archive = zip::ZipArchive::new(std::io::Cursor::new(&data)).unwrap();
    let refusal = archive.by_index(0).err().unwrap().to_string();
    assert_eq!(
        read_file_from_archive_memory(&data, "second", false).unwrap_err(),
        AppError::Other(refusal)
    );
}

#[test]
fn a_damaged_locked_member_is_refused_as_locked() {
    let mut data = raw_zip(&[Raw { flags: 1, ..raw("first") }]);
    data[0] = 0;
    assert_eq!(
        read_file_from_archive_memory(&data, "first", false).unwrap_err(),
        AppError::Other(PASSWORD_REQUIRED.to_string())
    );
}

#[test]
fn content_that_does_not_match_its_checksum_is_an_error_of_reading() {
    let data = raw_zip(&[Raw { content: b"abc", crc: 1, ..raw("bad") }]);
    assert_eq!(scan_zip_memory(&data).unwrap()[0].size, 3);
    assert!(matches!(
        read_file_from_archive_memory(&data, "bad", false),
        Err(AppError::Io(_))
    ));
}

#[test]
fn the_lock_is_the_lowest_bit_of_the_flags() {
    assert!(!is_locked_data(&[0; 9], 0));
    assert!(is_locked_data(&[0, 0, 0, 0, 0, 0, 0, 0, 1], 0));
    assert!(is_locked_data(&[0, 0, 0, 0, 0, 0, 0, 0, 0, 9], 1));
    assert!(!is_locked_data(&[0, 0, 0, 0, 0, 0, 0, 0, 2], 0));
    assert!(!is_locked_data(&[1; 9], 1));
    assert!(!is_locked_data(&[1; 9], u64::MAX));
    assert!(!is_locked_data(&[], 0));
}

#[test]
fn backslashes_in_names_are_slashes_and_make_directories() {
    let data = raw_zip(&[raw("dir\\"), raw("dir\\file.txt")]);
    let entries = scan_zip_memory(&data).unwrap();
    assert_eq!(entries[0].name, "dir/");
    assert!(entries[0].is_dir);
    assert_eq!(entries[1].name, "dir/file.txt");
    assert!(!entries[1].is_dir);
    assert_eq!(read_file_from_archive_memory(&data, "dir/file.txt", false).unwrap(), b"");
}

#[test]
fn the_date_of_a_zip_member_is_a_local_time() {
    let mut buffer = Vec::new();
    {
        let mut zip = zip::ZipWriter::new(std::io::Cursor::new(&mut buffer));
        let date = zip::DateTime::from_date_and_time(2024, 1, 15, 10, 30, 20).unwrap();
        let options = zip::write::FileOptions::default()
            .last_modified_time(date)
            .unix_permissions(0o640);
        zip.start_file("dated", options).unwrap();
        zip.finish().unwrap();
    }
    let entries = scan_zip_memory(&buffer).unwrap();
    let naive = chrono::NaiveDate::from_ymd_opt(2024, 1, 15)
        .unwrap()
        .and_hms_opt(10, 30, 20)
        .unwrap();
    let local = chrono::TimeZone::from_local_datetime(&chrono::Local, &naive);
    let expected = local.single().map(|t| t.timestamp() as u64).unwrap_or(0);
    assert_eq!(entries[0].modified, expected);
    assert_eq!(entries[0].permissions.map(|m| m & 0o777), Some(0o640));
}

#[test]
fn a_date_that_the_calendar_does_not_have_is_zero() {
    let data = raw_zip(&[raw("undated")]);
    assert_eq!(scan_zip_memory(&data).unwrap()[0].modified, 0);
}

#[test]
fn a_search_tells_what_it_met() {
    let found = vec![
        Ok(entry("/a", false, 1)),
        Ok(entry("b", true, 0)),
        Err("broken".to_string()),
        Ok(entry("c", false, 1)),
    ];
    assert!(matches!(search_entries(&found, "a"), Found::At(0)));
    assert!(matches!(search_entries(&found, "b"), Found::Directory));
    assert!(matches!(search_entries(&found, "c"), Found::Unreadable(t) if t == "broken"));
    let others = vec![Ok(entry("x", false, 0)), Ok(entry("y/", true, 0))];
    assert!(matches!(search_entries(&others, "c"), Found::Missing));
}

#[test]
fn a_level_of_an_archive_shows_each_name_once_in_order() {
    let entries = vec![
        entry("zeta.txt", false, 3),
        entry("dir/", true, 0),
        entry("dir/inner/deep.txt", false, 4),
        entry("dir/file.txt", false, 5),
        entry("implied/x", false, 1),
        entry("/", true, 0),
    ];
    let root = list_members(&entries, "");
    assert_eq!(names(&root), vec!["dir", "implied", "zeta.txt"]);
    assert!(root[0].is_dir && root[1].is_dir && !root[2].is_dir);
    assert_eq!(root[1].permissions, Some(0o755));
    assert_eq!(root[2].size, 3);
    let inner = list_members(&entries, "\\dir\\");
    assert_eq!(names(&inner), vec!["file.txt", "inner"]);
    assert_eq!(names(&list_members(&entries, "dir/inner")), vec!["deep.txt"]);
    assert!(list_members(&entries, "di").is_empty());
}

#[test]
fn of_two_files_of_one_name_the_last_gives_the_size_and_the_first_the_rest() {
    let mut first = entry("a.txt", false, 1);
    first.permissions = Some(0o600);
    first.modified = 7;
    let mut last = entry("a.txt", false, 2);
    last.permissions = Some(0o644);
    last.modified = 9;
    let rows = list_members(&[first, last], "/");
    assert_eq!(rows.len(), 1);
    assert_eq!((rows[0].size, rows[0].modified, rows[0].permissions), (2, 7, Some(0o600)));
}

#[test]
fn a_directory_wins_over_a_file_of_its_name() {
    let mut dir = entry("a/", true, 0);
    dir.permissions = Some(0o700);
    dir.modified = 11;
    let rows = list_members(&[entry("a", false, 5), entry("a/b", false, 1), dir], "");
    assert_eq!(rows.len(), 1);
    assert!(rows[0].is_dir);
    assert_eq!(rows[0].size, 0);
    assert_eq!(rows[0].permissions, None);
}

#[test]
fn a_packed_tar_archive_is_kept_unpacked() {
    let plain = tar_with(&[("one.txt", b"first")]);
    let LoadedArchive { entries, data } = load_archive(gzipped(&plain), "x.tar.gz").unwrap();
    assert_eq!(data, plain);
    assert_eq!(entries.len(), 1);
    let LoadedArchive { data, .. } = load_archive(bzipped(&plain), "x.tbz").unwrap();
    assert_eq!(data, plain);
}

#[test]
fn a_packed_tar_archive_that_cannot_be_unpacked_is_an_error_of_reading() {
    let result = load_archive(vec![0x1f, 0x8b, 0x08, 0x00], "x.tgz");
    assert!(matches!(result, Err(AppError::Io(_))));
    let result = load_archive(b"BZh9nonsense".to_vec(), "x.tbz");
    assert!(matches!(result, Err(AppError::Io(_))));
}

#[test]
fn an_archive_is_loaded_once() {
    let mut rpc = ArchiveFileSystemRpc::new("dir/a.tar".to_string());
    assert!(rpc.needs_loading());
    assert_eq!(
        rpc.ensure_loaded(Err(AppError::Remote("gone".to_string()))).unwrap_err(),
        AppError::Remote("gone".to_string())
    );
    assert!(rpc.needs_loading());
    rpc.ensure_loaded(Ok(tar_with(&[("one.txt", b"first")]))).unwrap();
    assert!(!rpc.needs_loading());
    rpc.ensure_loaded(Ok(Vec::new())).unwrap();
    assert_eq!(rpc.read_file("one.txt").unwrap(), b"first");
    assert_eq!(names(&rpc.list_dir("/")), vec!["one.txt"]);
}

#[test]
fn a_task_that_did_not_load_an_archive_is_told_of() {
    let mut rpc = ArchiveFileSystemRpc::new("a.zip".to_string());
    assert_eq!(
        rpc.finish_loading(Err("cancelled".to_string())).unwrap_err(),
        AppError::Other("blocking task error: cancelled".to_string())
    );
    assert!(matches!(rpc.ensure_loaded(Ok(vec![1, 2, 3])), Err(AppError::Other(_))));
    assert!(rpc.needs_loading());
}

#[test]
fn an_archive_cannot_be_changed() {
    let rpc = ArchiveFileSystemRpc::new("a.zip".to_string());
    let refusal = AppError::Other("Archive filesystem is read-only".to_string());
    assert!(rpc.is_read_only());
    assert_eq!(rpc.create_directory("/", "x", None).unwrap_err(), refusal);
    assert_eq!(rpc.rename_entry("a", "b").unwrap_err(), refusal);
    assert_eq!(rpc.write_file("a", b"", None).unwrap_err(), refusal);
    assert_eq!(rpc.delete_entries(&["a".to_string()]).unwrap_err(), refusal);
}

#[test]
fn icons_and_labels_of_an_archive() {
    let rpc = ArchiveFileSystemRpc::new("dir.zip/Big.TAR.GZ".to_string());
    assert!(rpc.get_icon("").ends_with("/file.svg"));
    assert!(rpc.get_icon("\\").ends_with("/file.svg"));
    assert!(rpc.get_icon("/sub").ends_with("/folder.svg"));
    assert_eq!(rpc.icon_label("/"), Some("TAR".to_string()));
    assert_eq!(rpc.icon_label("/sub"), None);
    assert_eq!(
        ArchiveFileSystemRpc::new("x.tar/Y.ZIP".to_string()).icon_label(""),
        Some("ZIP".to_string())
    );
    assert_eq!(ArchiveFileSystemRpc::new("x.zip/y.rar".to_string()).icon_label(""), None);
}

#[test]
fn a_member_is_downloaded_under_its_own_name() {
    let rpc = ArchiveFileSystemRpc::new("a.zip".to_string());
    assert_eq!(rpc.download_name("/dir/file.txt"), "file.txt");
    assert_eq!(rpc.download_name("/"), "");
}

fn zip_member(name: &str, header_start: u64) -> ZipMember {
    ZipMember {
        name: name.to_string(),
        is_dir: false,
        mode: Some(0o644),
        date: (0, 0, 0),
        time: (0, 0, 0),
        size: 5,
        header_start,
    }
}

#[test]
fn a_locked_member_is_refused_whatever_it_is() {
    let locked = [0, 0, 0, 0, 0, 0, 0, 0, 1];
    let open = [0; 9];
    let listed = Ok(zip_member("a\\b", 0));
    let unreachable = Err("no header".to_string());
    let entry = zip_member_result(&open, &listed, None).unwrap();
    assert_eq!((entry.name.as_str(), entry.size, entry.modified), ("a/b", 5, 0));
    assert_eq!(entry.permissions, Some(0o644));
    assert_eq!(
        zip_member_result(&open, &listed, Some("odd packing".to_string())).unwrap_err(),
        "odd packing"
    );
    assert_eq!(zip_member_result(&locked, &listed, None).unwrap_err(), PASSWORD_REQUIRED);
    assert_eq!(
        zip_member_result(&locked, &listed, Some("x".to_string())).unwrap_err(),
        PASSWORD_REQUIRED
    );
    assert_eq!(
        zip_member_result(&open, &unreachable, Some("why".to_string())).unwrap_err(),
        "why"
    );
    assert_eq!(zip_member_result(&open, &unreachable, None).unwrap_err(), "no header");
}

fn sparse_header(size: u64, extended: u8) -> Vec<u8> {
    let mut header = tar::Header::new_gnu();
    header.set_path("holes.bin").unwrap();
    header.set_mode(0o600);
    header.set_uid(0);
    header.set_gid(0);
    header.set_mtime(0);
    header.set_entry_type(tar::EntryType::GNUSparse);
    header.set_size(size);
    let bytes = header.as_mut_bytes();
    bytes[482] = extended;
    bytes[483..495].copy_from_slice(b"00000000000\0");
    header.set_cksum();
    header.as_bytes().to_vec()
}

fn uncountable_tar() -> Vec<u8> {
    let mut data = tar_with(&[("one.txt", b"first")]);
    data.truncate(1024);
    data.extend(sparse_header(0xFFFF_FFFF_FFFF_F800, 1));
    data.extend(vec![0u8; 512]);
    data
}

#[test]
fn an_archive_ends_where_the_end_of_a_sparse_file_cannot_be_counted() {
    let data = uncountable_tar();
    assert_eq!(find_overflow(&data), Some(1536));
    assert_eq!(countable_length(&data), 1536);
    for packed in [data.clone(), gzipped(&data), bzipped(&data)] {
        let listed = list_packed_tar(&packed);
        assert_eq!(listed.len(), 2);
        assert_eq!(listed[0].as_ref().unwrap().path, b"one.txt");
        assert_eq!(listed[1].as_ref().unwrap_err(), "failed to read extension");
        assert_eq!(scan_tar_memory(&packed).unwrap().len(), 1);
        assert_eq!(read_file_from_archive_memory(&packed, "one.txt", true).unwrap(), b"first");
        assert_eq!(
            read_file_from_archive_memory(&packed, "holes.bin", true).unwrap_err(),
            AppError::Io("failed to read extension".to_string())
        );
    }
}

#[test]
fn only_headers_that_are_reached_count() {
    let inner = uncountable_tar();
    let text = b"28 size=18446744073709550592\n";
    let mut data = tar_with(&[("inner.tar", &inner), ("size.txt", text), ("two.txt", b"second")]);
    assert_eq!(find_overflow(&data), None);
    for packed in [data.clone(), gzipped(&data), bzipped(&data)] {
        assert_eq!(scan_tar_memory(&packed).unwrap().len(), 3);
        assert_eq!(read_file_from_archive_memory(&packed, "inner.tar", true).unwrap(), inner);
        assert_eq!(read_file_from_archive_memory(&packed, "two.txt", true).unwrap(), b"second");
    }
    data.extend(uncountable_tar());
    assert_eq!(find_overflow(&data), None);
    assert_eq!(scan_tar_memory(&data).unwrap().len(), 3);
    let mut unchecked = uncountable_tar();
    unchecked[1024] = b'X';
    assert_eq!(find_overflow(&unchecked), None);
}

fn pax_header(records: &[u8]) -> Vec<u8> {
    let mut header = tar::Header::new_ustar();
    header.set_path("pax").unwrap();
    header.set_mode(0);
    header.set_uid(0);
    header.set_gid(0);
    header.set_mtime(0);
    header.set_entry_type(tar::EntryType::XHeader);
    header.set_size(records.len() as u64);
    header.set_cksum();
    let mut block = header.as_bytes().to_vec();
    block.extend_from_slice(records);
    block.resize(1024, 0);
    block
}

#[test]
fn the_size_in_an_extended_header_counts_for_the_member_behind_it() {
    let mut data = pax_header(b"29 size=18446744073709549568\n");
    data.extend(sparse_header(0, 1));
    data.extend(vec![0u8; 512]);
    assert_eq!(find_overflow(&data), Some(1536));
    assert_eq!(list_packed_tar(&data).len(), 1);
    let mut data = pax_header(b"12 size=512\n");
    data.extend(sparse_header(0, 1));
    data.extend(vec![0u8; 512]);
    assert_eq!(find_overflow(&data), None);
}

#[test]
fn the_first_record_of_the_key_states_the_size() {
    let record = |key: &str, value: &str| Some((key.as_bytes().to_vec(), value.as_bytes().to_vec()));
    assert_eq!(size_in(&vec![record("path", "x"), record("size", "7"), record("size", "8")]), Some(7));
    assert_eq!(size_in(&vec![record("size", "+18446744073709551615")]), Some(u64::MAX));
    for value in ["", "+", "-1", "1x", "18446744073709551616"] {
        assert_eq!(size_in(&vec![record("size", value)]), None);
    }
    assert_eq!(size_in(&vec![None, record("size", "7")]), None);
    assert_eq!(size_in(&vec![]), None);
}

#[test]
fn a_sparse_file_that_goes_on_is_listed() {
    let mut data = sparse_header(0, 1);
    data.extend(vec![0u8; 1536]);
    assert_eq!(find_overflow(&data), None);
    assert_eq!(countable_length(&data), data.len());
    for packed in [data.clone(), gzipped(&data), bzipped(&data)] {
        let listed = list_packed_tar(&packed);
        assert_eq!(listed.len(), 1);
        assert_eq!(listed[0].as_ref().unwrap().path, b"holes.bin");
    }
    assert_eq!(find_overflow(&sparse_header(0xFFFF_FFFF_FFFF_FC00, 0)), None);
}

#[test]
fn a_packed_tar_archive_that_breaks_off_is_listed_as_far_as_it_goes() {
    let noise: Vec<u8> = (0u32..200_000).map(|i| (i.wrapping_mul(2_654_435_761) >> 13) as u8).collect();
    let plain = tar_with(&[("one.txt", b"first"), ("noise.bin", &noise), ("two.txt", b"second")]);
    let mut packed = gzipped(&plain);
    packed.truncate(packed.len() / 2);
    let entries = scan_tar_memory(&packed).unwrap();
    assert_eq!(entries[0].name, "one.txt");
    assert!(entries.len() < 3);
    assert_eq!(read_file_from_archive_memory(&packed, "one.txt", true).unwrap(), b"first");
}
