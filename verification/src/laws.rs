//! What the operations of the library are for, said of what is handed to them and what they hand
//! back.

use vstd::prelude::*;

use crate::archive_entry::ArchiveEntry;
use crate::archive_rpc::{
    a_member_is_listed_in_its_directory, attributes, list_members, member_child, member_children,
    read_file_from_archive_memory, search, tar_targets, zip_targets, Hit, Target,
};
use crate::dates::{
    is_current_year, is_iso, is_month_and_time, is_month_and_year, is_settled, CivilTime, DateStyle,
};
use crate::ftp_rpc::LocalFtpRpc;
use crate::listing::{level_prefix, shows};
use crate::rpc::{rows_of, AppError, RemoteFileEntry};
use crate::server_listing::{ListedDir, ListedFile};
use crate::tar_archive::{
    bzip2_bytes, bzip2_tar_content, bzip2_tar_listing, gzip_bytes, gzip_tar_content,
    gzip_tar_listing, packed_tar_content, packed_tar_listing, tar_content, tar_listing, TarModel,
};
use crate::tar_walk::loses_count;
use crate::text::{lossy_text, slash_form, trim_start, trimmed};
use crate::torrent_session::{
    file_done, file_progress, is_file_complete, reports, Engine, FileProgress, TorrentStats,
};
use crate::webdav_rpc::LocalWebDavRpc;
use crate::zip_archive::{
    is_locked, zip_content, zip_directory, zip_member_result, zip_opening, zip_outcome,
    zip_outcomes, ZipMember, ZipModel,
};

verus! {

proof fn lemma_search_finds(targets: Seq<Target>, wanted: Seq<char>, from: nat, to: nat)
    requires
        from <= to < targets.len(),
        forall|i: int|
            from <= i < to ==> ((#[trigger] targets[i]) matches Target::Member(name, _)
                && trim_start(name) != wanted),
        targets[to as int] matches Target::Member(name, is_dir) && trim_start(name) == wanted
            && !is_dir,
    ensures
        search(targets, wanted, from) == Hit::At(to),
    decreases to - from,
{
    if from < to {
        assert(targets[from as int] is Member);
        lemma_search_finds(targets, wanted, from + 1, to);
    }
}

/// Reading a file of a zip archive gives the whole of what stands at its place, byte for byte, and
/// where that cannot be read, the reason and not a part of it.
pub proof fn a_file_of_a_zip_archive_is_read_whole(
    data: &[u8],
    internal_file: &str,
    result: Result<Vec<u8>, AppError>,
    listed: Seq<Result<ZipModel, Seq<char>>>,
    k: int,
)
    requires
        call_ensures(read_file_from_archive_memory, (data, internal_file, false), result),
        zip_directory(data@) == Ok::<Seq<Result<ZipModel, Seq<char>>>, Seq<char>>(listed),
        0 <= k < listed.len(),
        forall|i: int|
            0 <= i <= k ==> ((#[trigger] listed[i]) matches Ok(m) && !is_locked(
                data@,
                m.header_start,
            ) && zip_opening(data@, i as nat) is None),
        forall|i: int|
            0 <= i < k ==> trim_start(slash_form((#[trigger] listed[i])->Ok_0.name)) != trim_start(
                slash_form(internal_file@),
            ),
        trim_start(slash_form(listed[k]->Ok_0.name)) == trim_start(slash_form(internal_file@)),
        !listed[k]->Ok_0.is_dir,
    ensures
        match zip_content(data@, k as nat) {
            Ok(bytes) => result matches Ok(read) && read@.len() == bytes.len() && forall|i: int|
                0 <= i < bytes.len() ==> (#[trigger] read@[i]) == bytes[i],
            Err(text) => result matches Err(AppError::Io(reason)) && reason@ == text,
        },
{
    let outcomes = zip_outcomes(data@, listed);
    let targets = zip_targets(outcomes);
    let wanted = trim_start(slash_form(internal_file@));
    assert forall|i: int| 0 <= i <= k implies (#[trigger] targets[i]) == Target::Member(
        slash_form(listed[i]->Ok_0.name),
        listed[i]->Ok_0.is_dir,
    ) by {
        assert(listed[i] is Ok);
        assert(outcomes[i] == zip_outcome(data@, listed[i], i as nat));
    }
    lemma_search_finds(targets, wanted, 0, k as nat);
}

/// Reading a file of a tar archive gives the whole of what stands at its place, byte for byte, and
/// where that cannot be read, the reason and not a part of it.
pub proof fn a_file_of_a_tar_archive_is_read_whole(
    data: &[u8],
    internal_file: &str,
    result: Result<Vec<u8>, AppError>,
    listed: Seq<Result<TarModel, Seq<char>>>,
    k: int,
)
    requires
        call_ensures(read_file_from_archive_memory, (data, internal_file, true), result),
        listed == packed_tar_listing(data@),
        0 <= k < listed.len(),
        forall|i: int| 0 <= i <= k ==> (#[trigger] listed[i]) is Ok,
        forall|i: int|
            0 <= i < k ==> trim_start(slash_form(lossy_text((#[trigger] listed[i])->Ok_0.path)))
                != trim_start(slash_form(internal_file@)),
        trim_start(slash_form(lossy_text(listed[k]->Ok_0.path))) == trim_start(
            slash_form(internal_file@),
        ),
        !listed[k]->Ok_0.is_dir,
    ensures
        match packed_tar_content(data@, k as nat) {
            Ok(bytes) => result matches Ok(read) && read@.len() == bytes.len() && forall|i: int|
                0 <= i < bytes.len() ==> (#[trigger] read@[i]) == bytes[i],
            Err(text) => result matches Err(AppError::Io(reason)) && reason@ == text,
        },
{
    let targets = tar_targets(listed);
    let wanted = trim_start(slash_form(internal_file@));
    assert forall|i: int| 0 <= i <= k implies (#[trigger] targets[i]) == Target::Member(
        slash_form(lossy_text(listed[i]->Ok_0.path)),
        listed[i]->Ok_0.is_dir,
    ) by {
        assert(listed[i] is Ok);
    }
    lemma_search_finds(targets, wanted, 0, k as nat);
}

/// A tar archive is listed and read through the decoder that its first bytes ask for, and as it
/// stands where they ask for none.
pub proof fn a_tar_archive_is_read_through_its_decoder(data: Seq<u8>, index: nat)
    ensures
        data.len() >= 2 && data[0] == 0x1f && data[1] == 0x8b && !loses_count(gzip_bytes(data)) ==> {
            &&& packed_tar_listing(data) == gzip_tar_listing(data)
            &&& packed_tar_content(data, index) == gzip_tar_content(data, index)
        },
        data.len() >= 4 && data[0] == 0x42 && data[1] == 0x5a && data[2] == 0x68 && 0x31 <= data[3]
            <= 0x39 && !loses_count(bzip2_bytes(data)) ==> {
            &&& packed_tar_listing(data) == bzip2_tar_listing(data)
            &&& packed_tar_content(data, index) == bzip2_tar_content(data, index)
        },
        !(data.len() >= 2 && data[0] == 0x1f && data[1] == 0x8b) && !(data.len() >= 4 && data[0]
            == 0x42 && data[1] == 0x5a && data[2] == 0x68 && 0x31 <= data[3] <= 0x39)
            && !loses_count(data) ==> {
            &&& packed_tar_listing(data) == tar_listing(data)
            &&& packed_tar_content(data, index) == tar_content(data, index)
        },
{
}

/// The path of a name in a directory of an archive; the root has no path of its own.
pub open spec fn path_below(dir: Seq<char>, name: Seq<char>) -> Seq<char> {
    if dir.len() == 0 {
        name
    } else {
        dir + seq!['/'] + name
    }
}

proof fn lemma_first_attributes(entries: Seq<ArchiveEntry>, path: Seq<char>, k: int)
    requires
        0 <= k < entries.len(),
        trimmed(entries[k].name@) == path,
        forall|j: int| 0 <= j < k ==> trimmed((#[trigger] entries[j]).name@) != path,
    ensures
        attributes(entries, path) == Some((entries[k].permissions, entries[k].modified)),
    decreases k,
{
    if k > 0 {
        assert(trimmed(entries[0].name@) != path);
        let rest = entries.drop_first();
        assert forall|j: int| 0 <= j < k - 1 implies trimmed((#[trigger] rest[j]).name@) != path by {
            assert(rest[j] == entries[j + 1]);
        }
        assert(rest[k - 1] == entries[k]);
        lemma_first_attributes(rest, path, k - 1);
    }
}

/// The path of a name begins with the prefix of its level.
pub(crate) proof fn lemma_path_below(dir: Seq<char>, name: Seq<char>)
    ensures
        path_below(dir, name) == level_prefix(dir) + name,
{
    assert(path_below(dir, name) =~= level_prefix(dir) + name);
}

/// In the listing of any directory of an archive, a member stands under its name with its own
/// permissions and date: those of the first member of its full path.
pub proof fn a_member_keeps_its_permissions_and_date(
    entries: &[ArchiveEntry],
    path: &str,
    rows: Vec<RemoteFileEntry>,
    dir: Seq<char>,
    name: Seq<char>,
    k: int,
)
    requires
        call_ensures(list_members, (entries, path), rows),
        dir == trimmed(slash_form(path@)),
        name.len() > 0,
        !name.contains('/'),
        0 <= k < entries@.len(),
        trimmed(entries@[k].name@) == path_below(dir, name),
        forall|j: int|
            0 <= j < k ==> trimmed((#[trigger] entries@[j]).name@) != path_below(dir, name),
    ensures
        exists|r: int|
            0 <= r < rows@.len() && (#[trigger] rows@[r]).name@ == name && rows@[r].permissions
                == entries@[k].permissions && rows@[r].modified == entries@[k].modified,
        forall|r: int|
            0 <= r < rows@.len() && (#[trigger] rows@[r]).name@ == name ==> rows@[r].permissions
                == entries@[k].permissions && rows@[r].modified == entries@[k].modified,
{
    let children = member_children(entries@, dir);
    lemma_path_below(dir, name);
    lemma_first_attributes(entries@, path_below(dir, name), k);
    a_member_is_listed_in_its_directory(entries@[k]@, dir, name);
    assert(children[k] == member_child(entries@[k]@, dir));
    assert(shows(children, name));
    let all = rows_of(rows@);
    let r = choose|r: int| 0 <= r < all.len() && (#[trigger] all[r]).name == name;
    assert(all[r] == rows@[r]@);
    assert(rows@[r].name@ == name);
    assert forall|q: int|
        0 <= q < rows@.len() && (#[trigger] rows@[q]).name@ == name implies rows@[q].permissions
        == entries@[k].permissions && rows@[q].modified == entries@[k].modified by {
        assert(all[q] == rows@[q]@);
    }
}

/// Whether a text of an FTP listing made in `year` writes a time: with all numbers, with the name
/// of the month and the year, or with the name of the month and a time of day in that year.
pub open spec fn ftp_writes(text: Seq<char>, time: CivilTime, year: i32) -> bool {
    ||| is_iso(text, time)
    ||| is_month_and_year(text, time)
    ||| is_month_and_time(text, time) && time.year == year
}

/// An FTP listing shows every directory and then every file in the order of the server, under its
/// name, a file with its size, and each of them, file or directory, with the instant that its date
/// writes.
pub proof fn an_ftp_listing_dates_directories_and_files_alike(
    rpc: &LocalFtpRpc,
    dirs: Vec<ListedDir>,
    files: Vec<ListedFile>,
    result: Result<Vec<RemoteFileEntry>, AppError>,
    year: i32,
)
    requires
        call_ensures(LocalFtpRpc::list_dir, (rpc, Ok(Ok((dirs, files)))), result),
        forall|y: i32| #[trigger] is_current_year(y) ==> y == year,
    ensures
        result matches Ok(rows) && rows@.len() == dirs@.len() + files@.len() && {
            &&& forall|i: int|
                #![trigger dirs@[i]]
                0 <= i < dirs@.len() ==> rows@[i].name@ == dirs@[i].0@ && rows@[i].is_dir
                    && rows@[i].size == 0 && rows@[i].permissions is None
            &&& forall|i: int|
                #![trigger files@[i]]
                0 <= i < files@.len() ==> rows@[dirs@.len() + i].name@ == files@[i].0@
                    && !rows@[dirs@.len() + i].is_dir && rows@[dirs@.len() + i].size == files@[i].1
                    && rows@[dirs@.len() + i].permissions is None
            &&& forall|i: int, time: CivilTime, instant: i64|
                #![trigger ftp_writes(dirs@[i].1@, time, year), is_settled(time, Some(instant))]
                0 <= i < dirs@.len() && ftp_writes(dirs@[i].1@, time, year) && is_settled(
                    time,
                    Some(instant),
                ) ==> rows@[i].modified == instant as u64
            &&& forall|i: int, time: CivilTime, instant: i64|
                #![trigger ftp_writes(files@[i].2@, time, year), is_settled(time, Some(instant))]
                0 <= i < files@.len() && ftp_writes(files@[i].2@, time, year) && is_settled(
                    time,
                    Some(instant),
                ) ==> rows@[dirs@.len() + i].modified == instant as u64
        },
{
    let rows = result->Ok_0;
    assert forall|i: int|
        #![trigger dirs@[i]]
        0 <= i < dirs@.len() implies rows@[i].name@ == dirs@[i].0@ && rows@[i].is_dir
        && rows@[i].size == 0 && rows@[i].permissions is None by {
        assert(crate::server_listing::is_dated_dir(rows@[i], dirs@[i], DateStyle::Listing));
    }
    assert forall|i: int|
        #![trigger files@[i]]
        0 <= i < files@.len() implies rows@[dirs@.len() + i].name@ == files@[i].0@
        && !rows@[dirs@.len() + i].is_dir && rows@[dirs@.len() + i].size == files@[i].1
        && rows@[dirs@.len() + i].permissions is None by {
        assert(crate::server_listing::is_dated_file(
            rows@[dirs@.len() + i],
            files@[i],
            DateStyle::Listing,
        ));
    }
    assert forall|i: int, time: CivilTime, instant: i64|
        #![trigger ftp_writes(dirs@[i].1@, time, year), is_settled(time, Some(instant))]
        0 <= i < dirs@.len() && ftp_writes(dirs@[i].1@, time, year) && is_settled(
            time,
            Some(instant),
        ) implies rows@[i].modified == instant as u64 by {
        assert(crate::server_listing::is_dated_dir(rows@[i], dirs@[i], DateStyle::Listing));
        lemma_ftp_date(dirs@[i].1@, time, year, instant, rows@[i].modified);
    }
    assert forall|i: int, time: CivilTime, instant: i64|
        #![trigger ftp_writes(files@[i].2@, time, year), is_settled(time, Some(instant))]
        0 <= i < files@.len() && ftp_writes(files@[i].2@, time, year) && is_settled(
            time,
            Some(instant),
        ) implies rows@[dirs@.len() + i].modified == instant as u64 by {
        assert(crate::server_listing::is_dated_file(
            rows@[dirs@.len() + i],
            files@[i],
            DateStyle::Listing,
        ));
        lemma_ftp_date(files@[i].2@, time, year, instant, rows@[dirs@.len() + i].modified);
    }
}

proof fn lemma_ftp_date(
    text: Seq<char>,
    time: CivilTime,
    year: i32,
    instant: i64,
    seconds: u64,
)
    requires
        crate::dates::is_date_stamp(DateStyle::Listing, seconds, text),
        forall|y: i32| #[trigger] is_current_year(y) ==> y == year,
        ftp_writes(text, time, year),
        is_settled(time, Some(instant)),
    ensures
        seconds == instant as u64,
{
    let y = choose|y: i32| #[trigger]
        is_current_year(y) && crate::dates::is_listing_stamp(seconds, text, y as int);
    assert(crate::dates::is_listed_as(text, y as int, time));
    assert(crate::dates::is_zone_stamp(seconds, time));
}

/// A WebDAV listing shows every directory and then every file in the order of the server, under
/// its name, a file with its size, and each of them, file or directory, with the instant that its
/// date writes.
pub proof fn a_webdav_listing_dates_directories_and_files_alike(
    rpc: &LocalWebDavRpc,
    dirs: Vec<ListedDir>,
    files: Vec<ListedFile>,
    result: Result<Vec<RemoteFileEntry>, AppError>,
)
    requires
        call_ensures(LocalWebDavRpc::list_dir, (rpc, Ok(Ok((dirs, files)))), result),
    ensures
        result matches Ok(rows) && rows@.len() == dirs@.len() + files@.len() && {
            &&& forall|i: int|
                #![trigger dirs@[i]]
                0 <= i < dirs@.len() ==> rows@[i].name@ == dirs@[i].0@ && rows@[i].is_dir
                    && rows@[i].size == 0 && rows@[i].permissions is None
            &&& forall|i: int|
                #![trigger files@[i]]
                0 <= i < files@.len() ==> rows@[dirs@.len() + i].name@ == files@[i].0@
                    && !rows@[dirs@.len() + i].is_dir && rows@[dirs@.len() + i].size == files@[i].1
                    && rows@[dirs@.len() + i].permissions is None
            &&& forall|i: int, time: CivilTime, instant: i64|
                #![trigger is_iso(dirs@[i].1@, time), is_settled(time, Some(instant))]
                0 <= i < dirs@.len() && is_iso(dirs@[i].1@, time) && is_settled(
                    time,
                    Some(instant),
                ) ==> rows@[i].modified == instant as u64
            &&& forall|i: int, time: CivilTime, instant: i64|
                #![trigger is_iso(files@[i].2@, time), is_settled(time, Some(instant))]
                0 <= i < files@.len() && is_iso(files@[i].2@, time) && is_settled(
                    time,
                    Some(instant),
                ) ==> rows@[dirs@.len() + i].modified == instant as u64
        },
{
    let rows = result->Ok_0;
    assert forall|i: int| #![trigger dirs@[i]] 0 <= i < dirs@.len() implies rows@[i].name@
        == dirs@[i].0@ && rows@[i].is_dir && rows@[i].size == 0 && rows@[i].permissions is None by {
        assert(crate::server_listing::is_dated_dir(rows@[i], dirs@[i], DateStyle::Numeric));
    }
    assert forall|i: int|
        #![trigger files@[i]]
        0 <= i < files@.len() implies rows@[dirs@.len() + i].name@ == files@[i].0@
        && !rows@[dirs@.len() + i].is_dir && rows@[dirs@.len() + i].size == files@[i].1
        && rows@[dirs@.len() + i].permissions is None by {
        assert(crate::server_listing::is_dated_file(
            rows@[dirs@.len() + i],
            files@[i],
            DateStyle::Numeric,
        ));
    }
    assert forall|i: int, time: CivilTime, instant: i64|
        #![trigger is_iso(dirs@[i].1@, time), is_settled(time, Some(instant))]
        0 <= i < dirs@.len() && is_iso(dirs@[i].1@, time) && is_settled(
            time,
            Some(instant),
        ) implies rows@[i].modified == instant as u64 by {
        assert(crate::server_listing::is_dated_dir(rows@[i], dirs@[i], DateStyle::Numeric));
        assert(crate::dates::is_zone_stamp(rows@[i].modified, time));
    }
    assert forall|i: int, time: CivilTime, instant: i64|
        #![trigger is_iso(files@[i].2@, time), is_settled(time, Some(instant))]
        0 <= i < files@.len() && is_iso(files@[i].2@, time) && is_settled(
            time,
            Some(instant),
        ) implies rows@[dirs@.len() + i].modified == instant as u64 by {
        assert(crate::server_listing::is_dated_file(
            rows@[dirs@.len() + i],
            files@[i],
            DateStyle::Numeric,
        ));
        assert(crate::dates::is_zone_stamp(rows@[dirs@.len() + i].modified, time));
    }
}

/// A file counts as downloaded when as many bytes as it has have arrived, and never before.
pub proof fn a_file_is_downloaded_when_its_last_byte_has_arrived(
    done: &[u64],
    index: usize,
    size: u64,
    downloaded: bool,
)
    requires
        call_ensures(file_done, (done, index, size), downloaded),
    ensures
        index >= done@.len() ==> !downloaded,
        index < done@.len() && done@[index as int] < size ==> !downloaded,
        index < done@.len() && done@[index as int] >= size ==> downloaded,
{
}

/// A progress row is complete when as many bytes as the file has have arrived, and never before.
pub proof fn a_row_is_complete_when_its_last_byte_has_arrived(row: &FileProgress, complete: bool)
    requires
        call_ensures(FileProgress::is_complete, (row,), complete),
    ensures
        row.done_bytes < row.total_bytes ==> !complete,
        row.done_bytes >= row.total_bytes && row.total_bytes > 0 ==> complete,
        row.total_bytes == 0 ==> !complete,
{
}

/// Whether a torrent that is asked never tells of as many bytes of a file as it has.
pub open spec fn never_whole(engine: &Engine, torrent: Seq<char>, index: usize, size: u64) -> bool {
    forall|s: TorrentStats| #[trigger]
        reports(engine@.torrents[torrent].handle, s) ==> index >= s.file_progress@.len()
            || s.file_progress@[index as int] < size
}

/// Whether a torrent that is asked always tells of as many bytes of a file as it has.
pub open spec fn always_whole(engine: &Engine, torrent: Seq<char>, index: usize, size: u64) -> bool {
    forall|s: TorrentStats| #[trigger]
        reports(engine@.torrents[torrent].handle, s) ==> index < s.file_progress@.len()
            && s.file_progress@[index as int] >= size
}

/// Whether a file is complete is what its torrent tells of its bytes; a torrent that is not open
/// tells nothing.
pub proof fn a_file_that_lacks_bytes_is_not_complete(
    engine: &Engine,
    torrent_path: &str,
    index: usize,
    size: u64,
    complete: bool,
)
    requires
        call_ensures(is_file_complete, (engine, torrent_path, index, size), complete),
    ensures
        !engine@.torrents.contains_key(torrent_path@) ==> !complete,
        never_whole(engine, torrent_path@, index, size) ==> !complete,
        engine@.torrents.contains_key(torrent_path@) && always_whole(
            engine,
            torrent_path@,
            index,
            size,
        ) ==> complete,
{
}

/// The rows of progress are those of one report of the torrent: for each file that it tells of,
/// in its order, the bytes that have arrived, and the size where that is known.
pub proof fn progress_is_shown_as_it_is_reported(
    engine: &Engine,
    torrent_path: &str,
    sizes: &[u64],
    rows: Vec<FileProgress>,
)
    requires
        call_ensures(file_progress, (engine, torrent_path, sizes), rows),
        engine@.torrents.contains_key(torrent_path@),
    ensures
        exists|s: TorrentStats| #[trigger]
            reports(engine@.torrents[torrent_path@].handle, s) && rows@.len()
                == s.file_progress@.len() && forall|i: int|
                0 <= i < rows@.len() ==> (#[trigger] rows@[i]).done_bytes == s.file_progress@[i]
                    && rows@[i].index == i && rows@[i].total_bytes == (if i < sizes@.len() {
                    sizes@[i]
                } else {
                    0
                }),
{
    let s = choose|s: TorrentStats| #[trigger]
        reports(engine@.torrents[torrent_path@].handle, s) && rows@
            == crate::torrent_session::progress_of(s.file_progress@, sizes@);
    assert(rows@.len() <= usize::MAX) by {
        assert(rows.len() == rows@.len());
    }
    assert(reports(engine@.torrents[torrent_path@].handle, s));
}

/// Whether a time is the one that a zip archive lists for a member.
pub open spec fn is_listed_time(member: ZipMember, time: CivilTime) -> bool {
    &&& time.year == member.date.0
    &&& time.month == member.date.1
    &&& time.day == member.date.2
    &&& time.hour == member.time.0
    &&& time.minute == member.time.1
    &&& time.second == member.time.2
}

/// An entry of a zip archive is dated with the instant at which the clock shows the listed year,
/// month, day, hour, minute and second, and has the listed size, permissions and name.
pub proof fn a_zip_entry_says_what_is_listed(
    data: &[u8],
    member: ZipMember,
    entry: ArchiveEntry,
    time: CivilTime,
    instant: i64,
)
    requires
        call_ensures(
            zip_member_result,
            (data, &Ok::<ZipMember, String>(member), None::<String>),
            Ok::<ArchiveEntry, String>(entry),
        ),
        is_listed_time(member, time),
        is_settled(time, Some(instant)),
    ensures
        entry.modified == instant as u64,
        instant >= 0 ==> entry.modified == instant,
        entry.size == member.size,
        entry.permissions == member.mode,
        entry.is_dir == member.is_dir,
        entry.name@ == slash_form(member.name@),
{
    let readings = seq![Some(time)];
    assert(member@.modified() == time);
    assert(crate::dates::is_stamp_of(entry.modified, readings));
    let instants = choose|instants: Seq<Option<i64>>|
        instants.len() == readings.len() && (forall|k: int|
            0 <= k < readings.len() ==> crate::dates::is_instant_of(
                readings[k],
                #[trigger] instants[k],
            )) && entry.modified == #[trigger] crate::dates::first_stamp(instants);
    assert(crate::dates::is_instant_of(readings[0], instants[0]));
    assert(instants[0] == Some(instant));
}

/// Of two members of one day, listed twelve hours apart in the same minute and second, the later
/// one is dated twelve hours later, where the time zone is as far off for both.
pub proof fn members_listed_twelve_hours_apart_are_dated_so(
    data: &[u8],
    morning: ZipMember,
    evening: ZipMember,
    early: ArchiveEntry,
    late: ArchiveEntry,
    early_time: CivilTime,
    late_time: CivilTime,
    early_instant: i64,
    late_instant: i64,
)
    requires
        call_ensures(
            zip_member_result,
            (data, &Ok::<ZipMember, String>(morning), None::<String>),
            Ok::<ArchiveEntry, String>(early),
        ),
        call_ensures(
            zip_member_result,
            (data, &Ok::<ZipMember, String>(evening), None::<String>),
            Ok::<ArchiveEntry, String>(late),
        ),
        morning.date == evening.date,
        morning.time.0 + 12 == evening.time.0,
        morning.time.1 == evening.time.1,
        morning.time.2 == evening.time.2,
        is_listed_time(morning, early_time),
        is_listed_time(evening, late_time),
        is_settled(early_time, Some(early_instant)),
        is_settled(late_time, Some(late_instant)),
        early_instant >= 0,
        late_instant >= 0,
    ensures
        late_time.unix_seconds() - early_time.unix_seconds() == 12 * 3600,
        early_instant - early_time.unix_seconds() == late_instant - late_time.unix_seconds()
            ==> late.modified - early.modified == 12 * 3600,
{
    a_zip_entry_says_what_is_listed(data, morning, early, early_time, early_instant);
    a_zip_entry_says_what_is_listed(data, evening, late, late_time, late_instant);
}

} // verus!
