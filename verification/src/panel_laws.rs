//! What holds of the paths, names, dates and numbers that panels show, whatever file system they
//! come from.

use vstd::prelude::*;
use vstd::string::*;

use crate::archive_laws::are_places_of;
use crate::archive_rpc::ArchiveFileSystemRpc;
use crate::dates::{
    first_stamp, is_current_year, is_instant_of, is_settled, is_stamp_of, listing_readings,
    numeric_readings, parsed_date, parsed_time, stamp_of, CivilTime, MONTH_NAME_AND_TIME,
    MONTH_NAME_AND_YEAR, WITHOUT_SECONDS, WITH_SECONDS,
};
use crate::decimal::{decimal, decimal_is_injective, decimal_text, digit, signed_decimal};
use crate::drives_root_rpc::{drive_rows, mounted_rows, shown_drives, Drive};
use crate::file_entry::{FileEntry, Property, PropertyValue};
use crate::ftp_rpc::{LocalFtpRpc, Upload, UploadAction};
use crate::rpc::{
    file_name_with, final_name, is_root, is_separator, join_path_with, last_part, last_part_start,
    lemma_last_part_start, lemma_trim_end, plain_row, rows_of, AppError, RemoteFileEntry,
};
use crate::server_listing::Listed;
use crate::tar_archive::has_tar_ending;
use crate::text::{lowercase, trim_end};
use crate::torrent_rpc::TorrentView;
use crate::torrent_toolbar::TorrentToolbar;
use crate::transfer::{concatenated, progress_due, sound, Arrived};
use crate::webdav_rpc::LocalWebDavRpc;

verus! {

/// Whether a path has one part more than another: the same path, then a slash where none stands
/// yet, then the part.
pub open spec fn has_one_part_more(base: Seq<char>, part: Seq<char>, path: Seq<char>) -> bool {
    &&& base.is_prefix_of(path)
    &&& part.is_suffix_of(path)
    &&& base.len() == 0 || base.last() == '/' ==> path.len() == base.len() + part.len()
    &&& base.len() > 0 && base.last() != '/' ==> path.len() == base.len() + 1 + part.len()
        && path[base.len() as int] == '/'
}

/// A part that is joined to a path stands behind it, with one slash in between and nothing else
/// added or lost; an absolute part stands alone.
pub proof fn a_part_is_joined_behind_a_path(base: &str, part: &str, path: String)
    requires
        call_ensures(join_path_with, ('/', base, part), path),
    ensures
        part@.len() > 0 && part@[0] == '/' ==> path@ == part@,
        !(part@.len() > 0 && part@[0] == '/') ==> has_one_part_more(base@, part@, path@),
{
    let n = path@.len() as int;
    let b = base@.len() as int;
    let p = part@.len() as int;
    if !(p > 0 && part@[0] == '/') {
        assert(path@.subrange(0, b) =~= base@);
        assert(path@.subrange(n - p, n) =~= part@);
    }
}

/// Whether a name is one that a file can have: not empty, without a slash, and neither the
/// directory itself nor the one above it.
pub open spec fn is_plain_name(name: Seq<char>) -> bool {
    &&& name.len() > 0
    &&& !name.contains('/')
    &&& name != seq!['.']
    &&& name != seq!['.', '.']
}

/// A path that ends with a name has that name, with and without slashes behind it, and so a file
/// that was joined to a directory is found under its own name again.
pub proof fn a_path_is_named_by_its_last_part(
    path: &str,
    found: Option<String>,
    base: Seq<char>,
    name: Seq<char>,
)
    requires
        call_ensures(file_name_with, ('/', path), found),
        is_plain_name(name),
        base.len() == 0 || base.last() == '/',
        path@ == base + name || path@ == base + name + seq!['/'],
    ensures
        found matches Some(text) && text@ == name,
{
    lemma_named(path@, base, name);
}

proof fn lemma_named(path: Seq<char>, base: Seq<char>, name: Seq<char>)
    requires
        is_plain_name(name),
        base.len() == 0 || base.last() == '/',
        path == base + name || path == base + name + seq!['/'],
    ensures
        final_name(path) == Some(name),
{
    let whole = base + name;
    assert forall|i: int| 0 <= i < name.len() implies name[i] != '/' by {
        assert(name.contains(name[i]));
    }
    assert(whole.last() == name.last());
    assert(trim_end(whole) == whole);
    if path == whole + seq!['/'] {
        assert(path.drop_last() =~= whole);
        assert(path.last() == '/');
        assert(trim_end(path) == trim_end(whole));
    }
    lemma_last_part_start(whole);
    let start = last_part_start(whole);
    if start < base.len() {
        assert(whole[base.len() - 1] == '/');
    }
    if start > base.len() {
        assert(whole[start - 1] == name[start - 1 - base.len()]);
    }
    assert(whole.skip(start) =~= name);
    assert(final_name(path) == Some(name));
}

/// A path that holds nothing but slashes, or that ends with the directory above, has no name.
pub proof fn a_path_without_a_last_part_has_no_name(path: &str, found: Option<String>)
    requires
        call_ensures(file_name_with, ('/', path), found),
    ensures
        (forall|i: int| 0 <= i < path@.len() ==> #[trigger] path@[i] == '/') ==> found is None,
        found matches Some(text) ==> text@.len() > 0 && !text@.contains('/') && text@ != seq!['.']
            && text@ != seq!['.', '.'],
{
    lemma_name_is_plain(path@);
    lemma_trim_end(path@);
    if forall|i: int| 0 <= i < path@.len() ==> #[trigger] path@[i] == '/' {
        let p = trim_end(path@);
        if p.len() > 0 {
            assert(p.last() == path@[p.len() - 1]);
        }
    }
}

proof fn lemma_name_is_plain(path: Seq<char>)
    ensures
        final_name(path) matches Some(name) ==> is_plain_name(name),
    decreases path.len(),
{
    let p = trim_end(path);
    let start = last_part_start(p);
    let last = p.skip(start);
    lemma_trim_end(path);
    lemma_last_part_start(p);
    if p.len() > 0 {
        if last == seq!['.'] {
            lemma_name_is_plain(p.take(start));
        } else if last != seq!['.', '.'] {
            if last.contains('/') {
                let i = choose|i: int| 0 <= i < last.len() && last[i] == '/';
                assert(p[start + i] == '/');
            }
            if last.len() == 0 {
                assert(p[start - 1] == p.last());
            }
        }
    }
}

/// What stands behind the last slash of a path is the rest of it: no slash is in it, and one stands
/// right before it, unless it is the whole path.
pub proof fn the_last_part_stands_behind_the_last_slash(path: &str, part: String)
    requires
        call_ensures(last_part, (path,), part),
    ensures
        part@.is_suffix_of(path@),
        !part@.contains('/'),
        part@.len() < path@.len() ==> path@[path@.len() - part@.len() - 1] == '/',
{
    lemma_last_part_start(path@);
    let start = last_part_start(path@);
    assert(path@.subrange(path@.len() - part@.len(), path@.len() as int) =~= part@);
    if part@.contains('/') {
        let i = choose|i: int| 0 <= i < part@.len() && part@[i] == '/';
        assert(path@[start + i] == '/');
    }
}

/// The root is the empty path or a single slash, either way it leans.
pub proof fn the_root_is_empty_or_a_slash(path: &str, root: bool)
    requires
        call_ensures(is_root, (path,), root),
    ensures
        root <==> path@.len() == 0 || (path@.len() == 1 && (path@[0] == '/' || path@[0] == '\\')),
{
    let slashed = crate::text::slash_form(path@);
    if path@.len() == 1 && (path@[0] == '/' || path@[0] == '\\') {
        assert(slashed =~= seq!['/']);
    }
    if slashed == seq!['/'] {
        assert(slashed.len() == 1);
        assert(slashed[0] == '/');
        assert(path@[0] == '/' || path@[0] == '\\');
    }
}

/// The number that digits stand for.
pub open spec fn value_of(digits: Seq<char>) -> int
    decreases digits.len(),
{
    if digits.len() == 0 {
        0
    } else {
        10 * value_of(digits.drop_last()) + (digits.last() as int - '0' as int)
    }
}

/// A number that is written out stands for itself, in digits alone, and without a zero in front.
pub proof fn a_written_number_is_its_value(n: u64, text: String)
    requires
        call_ensures(decimal_text, (n,), text),
    ensures
        value_of(text@) == n,
        text@.len() > 0,
        text@.len() > 1 ==> text@[0] != '0',
        forall|i: int| 0 <= i < text@.len() ==> '0' <= #[trigger] text@[i] <= '9',
{
    lemma_value(n as nat);
    crate::decimal::lemma_decimal_digits(n as nat);
}

proof fn lemma_value(n: nat)
    ensures
        value_of(decimal(n)) == n,
        decimal(n).len() > 0,
        n > 0 ==> decimal(n)[0] != '0',
        decimal(n).len() > 1 ==> decimal(n)[0] != '0',
    decreases n,
{
    if n < 10 {
        assert(decimal(n).drop_last() =~= Seq::<char>::empty());
        assert(decimal(n).last() == digit(n));
        assert(value_of(Seq::<char>::empty()) == 0);
        assert(digit(n) as int == 48 + n);
    } else {
        lemma_value(n / 10);
        assert(decimal(n).drop_last() =~= decimal(n / 10));
        assert(decimal(n).last() == digit(n % 10));
        assert(digit(n % 10) as int == 48 + n % 10);
    }
}

/// Connections to FTP servers that differ in one of the user, the host and the port alone are told
/// apart; the same user, host and port make the same connection.
pub proof fn ftp_connections_are_told_apart(
    a: &LocalFtpRpc,
    b: &LocalFtpRpc,
    first: String,
    second: String,
)
    requires
        call_ensures(LocalFtpRpc::connection_id, (a,), Some(first)),
        call_ensures(LocalFtpRpc::connection_id, (b,), Some(second)),
    ensures
        a.user@ == b.user@ && a.host@ == b.host@ ==> (first@ == second@ <==> a.port == b.port),
        a.user@ == b.user@ && a.port == b.port ==> (first@ == second@ <==> a.host@ == b.host@),
        a.host@ == b.host@ && a.port == b.port ==> (first@ == second@ <==> a.user@ == b.user@),
        ("ftp://"@ + a.user@ + "@"@ + a.host@ + ":"@).is_prefix_of(first@),
{
    let x = decimal(a.port as nat);
    let y = decimal(b.port as nat);
    let head_a = "ftp://"@ + a.user@ + "@"@ + a.host@ + ":"@;
    let head_b = "ftp://"@ + b.user@ + "@"@ + b.host@ + ":"@;
    assert(first@ == head_a + x);
    assert(second@ == head_b + y);
    assert(first@.subrange(0, head_a.len() as int) =~= head_a);
    if first@ == second@ {
        if a.user@ == b.user@ && a.host@ == b.host@ {
            assert(x =~= first@.skip(head_a.len() as int));
            assert(y =~= second@.skip(head_b.len() as int));
            decimal_is_injective(a.port as nat, b.port as nat);
        }
        if a.user@ == b.user@ && a.port == b.port {
            let from = ("ftp://"@ + a.user@ + "@"@).len() as int;
            let end = (":"@ + x).len() as int;
            assert(first@.len() == from + a.host@.len() + end);
            assert(second@.len() == from + b.host@.len() + end);
            assert(a.host@ =~= first@.subrange(from, from + a.host@.len()));
            assert(b.host@ =~= second@.subrange(from, from + b.host@.len()));
        }
        if a.host@ == b.host@ && a.port == b.port {
            let from = "ftp://"@.len() as int;
            let end = ("@"@ + a.host@ + ":"@ + x).len() as int;
            assert(first@.len() == from + a.user@.len() + end);
            assert(second@.len() == from + b.user@.len() + end);
            assert(a.user@ =~= first@.subrange(from, from + a.user@.len()));
            assert(b.user@ =~= second@.subrange(from, from + b.user@.len()));
        }
    }
}

/// Connections to WebDAV servers that differ in the user or the address alone are told apart; the
/// same user and address make the same connection, and one without a user is that of a user
/// without a name.
pub proof fn webdav_connections_are_told_apart(
    a: &LocalWebDavRpc,
    b: &LocalWebDavRpc,
    first: String,
    second: String,
    a_user: Seq<char>,
    b_user: Seq<char>,
)
    requires
        call_ensures(LocalWebDavRpc::connection_id, (a,), Some(first)),
        call_ensures(LocalWebDavRpc::connection_id, (b,), Some(second)),
        a.user matches Some(user) ==> a_user == user@,
        a.user is None ==> a_user.len() == 0,
        b.user matches Some(user) ==> b_user == user@,
        b.user is None ==> b_user.len() == 0,
    ensures
        a.url@ == b.url@ ==> (first@ == second@ <==> a_user == b_user),
        a_user == b_user ==> (first@ == second@ <==> a.url@ == b.url@),
        ("webdav://"@ + a_user + "@"@).is_prefix_of(first@),
        a.url@.is_suffix_of(first@),
{
    assert(a.user_name() =~= a_user);
    assert(b.user_name() =~= b_user);
    let head_a = "webdav://"@ + a_user + "@"@;
    let head_b = "webdav://"@ + b_user + "@"@;
    assert(first@ == head_a + a.url@);
    assert(second@ == head_b + b.url@);
    assert(first@.subrange(0, head_a.len() as int) =~= head_a);
    assert(first@.subrange(first@.len() - a.url@.len(), first@.len() as int) =~= a.url@);
    if first@ == second@ {
        if a.url@ == b.url@ {
            let from = "webdav://"@.len() as int;
            assert(a_user.len() == b_user.len());
            assert(a_user =~= first@.subrange(from, from + a_user.len()));
            assert(b_user =~= second@.subrange(from, from + b_user.len()));
        }
        if a_user == b_user {
            assert(a.url@ =~= first@.skip(head_a.len() as int));
            assert(b.url@ =~= second@.skip(head_b.len() as int));
        }
    }
}

/// A server that could not be listed gives its own words as a remote error, and so does a task
/// that did not come to an end.
pub proof fn a_server_that_fails_is_quoted(
    ftp: &LocalFtpRpc,
    webdav: &LocalWebDavRpc,
    listed: Listed,
    text: String,
    by_ftp: Result<Vec<RemoteFileEntry>, AppError>,
    by_webdav: Result<Vec<RemoteFileEntry>, AppError>,
)
    requires
        call_ensures(LocalFtpRpc::list_dir, (ftp, listed), by_ftp),
        call_ensures(LocalWebDavRpc::list_dir, (webdav, listed), by_webdav),
        listed matches Ok(Err(t)) && t == text || (listed matches Err(t) && t == text),
    ensures
        by_ftp matches Err(AppError::Remote(reason)) && reason@ == text@,
        by_webdav matches Err(AppError::Remote(reason)) && reason@ == text@,
{
}

/// Whether a reading of a date decides: it was read, and the time zone has one instant for it.
pub open spec fn decides(reading: Option<CivilTime>, instant: i64) -> bool {
    reading matches Some(time) && is_settled(time, Some(instant))
}

/// Whether a reading of a date is passed over: it was not read, or the time zone has no such time.
pub open spec fn is_passed_over(reading: Option<CivilTime>) -> bool {
    reading matches Some(time) ==> is_settled(time, None)
}

proof fn lemma_deciding(seconds: u64, readings: Seq<Option<CivilTime>>, k: int, instant: i64)
    requires
        is_stamp_of(seconds, readings),
        0 <= k < readings.len(),
        forall|j: int| 0 <= j < k ==> is_passed_over(#[trigger] readings[j]),
        decides(readings[k], instant),
    ensures
        seconds == instant as u64,
{
    let instants = choose|instants: Seq<Option<i64>>|
        instants.len() == readings.len() && (forall|j: int|
            0 <= j < readings.len() ==> is_instant_of(readings[j], #[trigger] instants[j]))
            && seconds == #[trigger] first_stamp(instants);
    assert(is_instant_of(readings[k], instants[k]));
    assert(instants[k] == Some(instant));
    assert forall|j: int| 0 <= j < k implies (#[trigger] instants[j]) is None by {
        assert(is_instant_of(readings[j], instants[j]));
        assert(is_passed_over(readings[j]));
    }
    lemma_first_stamp(instants, k, instant);
}

proof fn lemma_first_stamp(instants: Seq<Option<i64>>, k: int, instant: i64)
    requires
        0 <= k < instants.len(),
        forall|j: int| 0 <= j < k ==> (#[trigger] instants[j]) is None,
        instants[k] == Some(instant),
    ensures
        first_stamp(instants) == instant as u64,
    decreases k,
{
    if k > 0 {
        assert(instants[0] is None);
        let rest = instants.drop_first();
        assert forall|j: int| 0 <= j < k - 1 implies (#[trigger] rest[j]) is None by {
            assert(rest[j] == instants[j + 1]);
        }
        assert(rest[k - 1] == instants[k]);
        lemma_first_stamp(rest, k - 1, instant);
    }
}

proof fn lemma_nothing_decides(seconds: u64, readings: Seq<Option<CivilTime>>)
    requires
        is_stamp_of(seconds, readings),
        forall|j: int| 0 <= j < readings.len() ==> is_passed_over(#[trigger] readings[j]),
    ensures
        seconds == 0,
{
    let instants = choose|instants: Seq<Option<i64>>|
        instants.len() == readings.len() && (forall|j: int|
            0 <= j < readings.len() ==> is_instant_of(readings[j], #[trigger] instants[j]))
            && seconds == #[trigger] first_stamp(instants);
    assert forall|j: int| 0 <= j < instants.len() implies (#[trigger] instants[j]) is None by {
        assert(is_instant_of(readings[j], instants[j]));
        assert(is_passed_over(readings[j]));
    }
    lemma_no_stamp(instants);
}

proof fn lemma_no_stamp(instants: Seq<Option<i64>>)
    requires
        forall|j: int| 0 <= j < instants.len() ==> (#[trigger] instants[j]) is None,
    ensures
        first_stamp(instants) == 0,
    decreases instants.len(),
{
    if instants.len() > 0 {
        assert(instants[0] is None);
        let rest = instants.drop_first();
        assert forall|j: int| 0 <= j < rest.len() implies (#[trigger] rest[j]) is None by {
            assert(rest[j] == instants[j + 1]);
        }
        lemma_no_stamp(rest);
    }
}

/// A WebDAV date is read with seconds if it can be, otherwise without, and is zero where neither
/// gives an instant.
pub proof fn a_webdav_date_is_read_with_seconds_first(text: &str, seconds: u64, instant: i64)
    requires
        call_ensures(crate::webdav_rpc::parse_date_str, (text,), seconds),
    ensures
        decides(parsed_time(text@, WITH_SECONDS@), instant) ==> seconds == instant as u64,
        is_passed_over(parsed_time(text@, WITH_SECONDS@)) && decides(
            parsed_time(text@, WITHOUT_SECONDS@),
            instant,
        ) ==> seconds == instant as u64,
        is_passed_over(parsed_time(text@, WITH_SECONDS@)) && is_passed_over(
            parsed_time(text@, WITHOUT_SECONDS@),
        ) ==> seconds == 0,
{
    let readings = numeric_readings(text@);
    assert(readings[0] == parsed_time(text@, WITH_SECONDS@));
    assert(readings[1] == parsed_time(text@, WITHOUT_SECONDS@));
    if decides(readings[0], instant) {
        lemma_deciding(seconds, readings, 0, instant);
    } else if is_passed_over(readings[0]) && decides(readings[1], instant) {
        lemma_deciding(seconds, readings, 1, instant);
    }
    if is_passed_over(readings[0]) && is_passed_over(readings[1]) {
        lemma_nothing_decides(seconds, readings);
    }
}

/// An FTP date is read as all numbers with seconds, then without, then as a day and a time of the
/// current year, then as a day of a year of its own; the first of these that gives an instant is
/// taken, and zero where none does.
pub proof fn an_ftp_date_is_read_in_four_ways(text: &str, seconds: u64, year: i32, instant: i64)
    requires
        call_ensures(crate::ftp_rpc::parse_date_str, (text,), seconds),
        forall|y: i32| #[trigger] is_current_year(y) ==> y == year,
    ensures
        ({
            let full = parsed_time(text@, WITH_SECONDS@);
            let short = parsed_time(text@, WITHOUT_SECONDS@);
            let this_year = parsed_time(
                signed_decimal(year as int) + " "@ + text@,
                MONTH_NAME_AND_TIME@,
            );
            let day = parsed_date(text@, MONTH_NAME_AND_YEAR@);
            &&& decides(full, instant) ==> seconds == instant as u64
            &&& is_passed_over(full) && decides(short, instant) ==> seconds == instant as u64
            &&& is_passed_over(full) && is_passed_over(short) && decides(this_year, instant)
                ==> seconds == instant as u64
            &&& is_passed_over(full) && is_passed_over(short) && is_passed_over(this_year) ==> (
            day matches Some(d) ==> decides(
                Some(
                    CivilTime {
                        year: d.year,
                        month: d.month,
                        day: d.day,
                        hour: 0,
                        minute: 0,
                        second: 0,
                    },
                ),
                instant,
            ) ==> seconds == instant as u64)
            &&& is_passed_over(full) && is_passed_over(short) && is_passed_over(this_year)
                && day is None ==> seconds == 0
        }),
{
    let y = choose|y: i32| #[trigger]
        is_current_year(y) && crate::dates::is_listing_stamp(seconds, text@, y as int);
    let readings = listing_readings(text@, year as int);
    assert(is_stamp_of(seconds, readings));
    assert(readings.len() == 4);
    if decides(readings[0], instant) {
        lemma_deciding(seconds, readings, 0, instant);
    }
    if is_passed_over(readings[0]) {
        if decides(readings[1], instant) {
            lemma_deciding(seconds, readings, 1, instant);
        }
        if is_passed_over(readings[1]) {
            if decides(readings[2], instant) {
                lemma_deciding(seconds, readings, 2, instant);
            }
            if is_passed_over(readings[2]) {
                if decides(readings[3], instant) {
                    lemma_deciding(seconds, readings, 3, instant);
                }
                if readings[3] is None {
                    lemma_nothing_decides(seconds, readings);
                }
            }
        }
    }
}

/// Whether `places` are those of the mounted drives besides the root directory.
pub open spec fn are_mounted_places(places: Seq<int>, drives: Seq<Drive>) -> bool {
    are_places_of(places, drives.len(), |k: int| drives[k].is_mounted && drives[k].path@ != "/"@)
}

proof fn lemma_mounted_places(drives: Seq<Drive>) -> (places: Seq<int>)
    ensures
        are_mounted_places(places, drives),
        places.len() == mounted_rows(drives).len(),
        forall|a: int|
            0 <= a < places.len() ==> mounted_rows(drives)[a] == plain_row(
                drives[#[trigger] places[a]].path@,
                true,
                0,
                0,
                None,
            ),
    decreases drives.len(),
{
    if drives.len() == 0 {
        Seq::empty()
    } else {
        let rest = drives.drop_last();
        let last: int = drives.len() - 1;
        let before = lemma_mounted_places(rest);
        let here = |k: int| drives[k].is_mounted && drives[k].path@ != "/"@;
        let there = |k: int| rest[k].is_mounted && rest[k].path@ != "/"@;
        let places = if here(last) {
            before.push(last)
        } else {
            before
        };
        assert forall|k: int| 0 <= k < drives.len() && #[trigger] here(k) implies places.contains(
            k,
        ) by {
            if k < last {
                assert(there(k));
                assert(before.contains(k));
                let a = choose|a: int| 0 <= a < before.len() && before[a] == k;
                assert(places[a] == k);
            } else {
                assert(places[before.len() as int] == k);
            }
        }
        assert forall|a: int| 0 <= a < places.len() implies 0 <= #[trigger] places[a] < drives.len()
            && here(places[a]) && mounted_rows(drives)[a] == plain_row(
            drives[places[a]].path@,
            true,
            0,
            0,
            None,
        ) by {
            if a < before.len() {
                assert(places[a] == before[a]);
                assert(there(before[a]));
                assert(rest[before[a]] == drives[before[a]]);
            }
        }
        assert(are_places_of(places, drives.len(), here));
        places
    }
}

/// Where every drive has a root of its own, each is shown under its path. Otherwise the root
/// directory comes first, then every mounted drive besides it, in their order, and nothing else.
pub proof fn drives_are_shown_as_they_are_mounted(
    drives: &[Drive],
    own_roots: bool,
    rows: Vec<RemoteFileEntry>,
)
    requires
        call_ensures(drive_rows, (drives, own_roots), rows),
    ensures
        forall|r: int|
            0 <= r < rows@.len() ==> (#[trigger] rows@[r]).is_dir && rows@[r].size == 0
                && rows@[r].modified == 0 && rows@[r].permissions is None,
        own_roots ==> rows@.len() == drives@.len() && forall|i: int|
            #![trigger drives@[i]]
            0 <= i < drives@.len() ==> rows@[i].name@ == drives@[i].path@,
        !own_roots ==> exists|places: Seq<int>| #[trigger]
            are_mounted_places(places, drives@) && rows@.len() == places.len() + 1
                && rows@[0].name@ == "/"@ && forall|a: int|
                0 <= a < places.len() ==> rows@[a + 1].name@ == drives@[#[trigger] places[a]].path@,
{
    let all = rows_of(rows@);
    let shown = shown_drives(drives@, own_roots);
    assert(all.len() == rows@.len());
    let places = lemma_mounted_places(drives@);
    assert forall|r: int| 0 <= r < rows@.len() implies (#[trigger] rows@[r]).is_dir
        && rows@[r].size == 0 && rows@[r].modified == 0 && rows@[r].permissions is None by {
        assert(all[r] == rows@[r]@);
        if !own_roots && r > 0 {
            assert(shown[r] == mounted_rows(drives@)[r - 1]);
            assert(0 <= places[r - 1]);
        }
    }
    if own_roots {
        assert forall|i: int| #![trigger drives@[i]] 0 <= i < drives@.len() implies rows@[i].name@
            == drives@[i].path@ by {
            assert(all[i] == rows@[i]@);
        }
    } else {
        assert(all[0] == rows@[0]@);
        assert forall|a: int| 0 <= a < places.len() implies rows@[a + 1].name@
            == drives@[#[trigger] places[a]].path@ by {
            assert(all[a + 1] == rows@[a + 1]@);
            assert(shown[a + 1] == mounted_rows(drives@)[a]);
        }
        assert(are_mounted_places(places, drives@));
    }
}

/// A property of a row is what the row holds under it; permissions that are not known are the
/// largest number.
pub proof fn a_property_is_what_the_row_holds(
    entry: &FileEntry,
    property: Property,
    value: PropertyValue,
)
    requires
        call_ensures(FileEntry::property, (entry, property), value),
    ensures
        property is Name ==> (value matches PropertyValue::Text(text) && text@ == entry@.name),
        property is Path ==> (value matches PropertyValue::Text(text) && text@ == entry@.path),
        property is Date ==> (value matches PropertyValue::Text(text) && text@ == entry@.date),
        property is IsDir ==> value == PropertyValue::Flag(entry@.is_dir),
        property is Size ==> value == PropertyValue::Long(entry@.size),
        property is Permissions ==> (value matches PropertyValue::Number(number) && (
        entry@.permissions matches Some(mode) ==> number == mode) && (entry@.permissions is None
            ==> number == u32::MAX)),
{
}

/// No two properties have the same name, so that a name stands for one property at most.
pub proof fn properties_are_told_apart_by_name(a: Property, b: Property)
    ensures
        a.text() == b.text() <==> a == b,
{
    reveal_strlit("name");
    reveal_strlit("path");
    reveal_strlit("is-dir");
    reveal_strlit("size");
    reveal_strlit("date");
    reveal_strlit("permissions");
    assert("name"@[0] == 'n');
    assert("path"@[0] == 'p' && "path"@.len() == 4);
    assert("is-dir"@[0] == 'i');
    assert("size"@[0] == 's');
    assert("date"@[0] == 'd');
    assert("permissions"@[0] == 'p' && "permissions"@.len() == 11);
}

/// A toolbar of a torrent that runs offers to stop it and to look into it, one of a torrent that
/// does not offers to start it alone; without a torrent it is hidden and otherwise as it was.
pub proof fn a_toolbar_offers_what_can_be_done(toolbar: TorrentToolbar, view: TorrentView)
    ensures
        ({
            let running = toolbar.refreshed(Some(true));
            let stopped = toolbar.refreshed(Some(false));
            let hidden = toolbar.refreshed(None);
            &&& running.visible && stopped.visible && !hidden.visible
            &&& running.stop_sensitive && running.downloaded_sensitive && running.peers_sensitive
            &&& !running.start_sensitive
            &&& stopped.start_sensitive
            &&& !stopped.stop_sensitive && !stopped.downloaded_sensitive
                && !stopped.peers_sensitive
            &&& hidden == (TorrentToolbar { visible: false, ..toolbar })
            &&& running.active_view == toolbar.active_view
            &&& stopped.active_view == toolbar.active_view
        }),
        toolbar.toggled(view, false) == toolbar,
        toolbar.toggled(view, true) == (TorrentToolbar { active_view: view, ..toolbar }),
{
}

/// A transfer that ends gives the bytes of all its chunks, one after another, whether the end is
/// told by an empty chunk or by no further one.
pub proof fn a_transfer_gives_all_of_its_bytes(chunks: Seq<Seq<u8>>)
    requires
        forall|i: int| 0 <= i < chunks.len() ==> (#[trigger] chunks[i]).len() > 0,
    ensures
        Arrived::after(sound(chunks)).outcome() == Ok::<Seq<u8>, Seq<char>>(concatenated(chunks)),
        Arrived::after(sound(chunks.push(Seq::empty()))).outcome() == Ok::<Seq<u8>, Seq<char>>(
            concatenated(chunks),
        ),
{
    let ended = sound(chunks.push(Seq::empty()));
    crate::transfer::chunks_are_put_together_in_order(chunks);
    assert(ended.drop_last() =~= sound(chunks));
    assert(ended.last() == Ok::<Seq<u8>, Seq<char>>(Seq::empty()));
}

/// A file that was sent ends its upload; one that was not is sent again once, and no more.
pub proof fn a_sent_file_ends_its_upload(upload: Upload, outcome: Result<(), String>)
    requires
        upload.attempts < 2,
    ensures
        outcome is Ok ==> upload.after_sending(outcome) == (upload, UploadAction::Done),
        outcome matches Err(text) ==> upload.after_sending(outcome).0.attempts == upload.attempts
            + 1 && upload.after_sending(outcome).1 == (if upload.attempts == 0 {
            UploadAction::Retry
        } else {
            UploadAction::Fail(text)
        }),
{
}

/// Progress is told again once a tenth of a second has passed, and not before.
pub proof fn progress_is_told_every_tenth_of_a_second(elapsed_millis: u128, due: bool)
    requires
        call_ensures(progress_due, (elapsed_millis,), due),
    ensures
        due <==> 10 * elapsed_millis >= 1000,
{
}

/// An error says what it was made with, whatever went wrong.
pub proof fn an_error_says_what_it_was_made_with(error: &AppError, said: String, reason: String)
    requires
        call_ensures(AppError::message, (error,), said),
        *error == AppError::Other(reason) || *error == AppError::Remote(reason) || *error
            == AppError::Io(reason),
    ensures
        said@ == reason@,
{
}

/// A downloaded file keeps the name that its path ends with, and one whose path ends with none gets
/// a name that stands for it, on a machine whose paths have slashes.
pub proof fn a_downloaded_file_keeps_its_name(
    ftp: &LocalFtpRpc,
    webdav: &LocalWebDavRpc,
    path: &str,
    by_ftp: String,
    by_webdav: String,
    base: Seq<char>,
    name: Seq<char>,
)
    requires
        call_ensures(LocalFtpRpc::download_name, (ftp, path), by_ftp),
        call_ensures(LocalWebDavRpc::download_name, (webdav, path), by_webdav),
        forall|separator: char| #[trigger] is_separator(separator) ==> separator == '/',
        base.len() == 0 || base.last() == '/',
        path@ == base + name,
        is_plain_name(name) || (path@.len() == 0 && name.len() == 0),
    ensures
        is_plain_name(name) ==> by_ftp@ == name && by_webdav@ == name,
        path@.len() == 0 ==> by_ftp@ == "downloaded_file"@ && by_webdav@ == "downloaded_file"@,
{
    if is_plain_name(name) {
        lemma_named(path@, base, name);
    }
}

/// The icon of an archive is labelled with its format at the root, and with nothing elsewhere.
pub proof fn an_archive_is_labelled_by_its_format(
    rpc: &ArchiveFileSystemRpc,
    path: &str,
    label: Option<String>,
    name: Seq<char>,
)
    requires
        call_ensures(ArchiveFileSystemRpc::icon_label, (rpc, path), label),
        rpc.relative_path_in_parent@ == name,
        !name.contains('/'),
    ensures
        path@.len() > 1 ==> label is None,
        path@.len() == 0 && has_tar_ending(lowercase(lowercase(name))) ==> (label matches Some(text)
            && text@ == "TAR"@),
        path@.len() == 0 && !has_tar_ending(lowercase(lowercase(name)))
            && ".zip"@.is_suffix_of(lowercase(name)) ==> (label matches Some(text) && text@
            == "ZIP"@),
        path@.len() == 0 && !has_tar_ending(lowercase(lowercase(name)))
            && !".zip"@.is_suffix_of(lowercase(name)) ==> label is None,
{
    lemma_last_part_start(name);
    let start = last_part_start(name);
    if start > 0 {
        assert(name.contains(name[start - 1]));
    }
    assert(name.skip(0) =~= name);
    let slashed = crate::text::slash_form(path@);
    assert(slashed.len() == path@.len());
    if slashed == seq!['/'] {
        assert(slashed.len() == 1);
    }
}

/// An instant since 1970 is its own stamp, and an earlier one wraps around.
pub proof fn an_instant_is_its_own_stamp(instant: i64, seconds: u64)
    requires
        call_ensures(stamp_of, (instant,), seconds),
    ensures
        instant >= 0 ==> seconds == instant,
        instant < 0 ==> seconds == instant + u64::MAX + 1,
{
    assert(instant < 0 ==> (instant as u64) == instant + 0x1_0000_0000_0000_0000) by (bit_vector);
}

} // verus!
