//! What the listing of an archive says of its members, and what a scan says of the archive.

use vstd::prelude::*;
use vstd::utf8::*;

use crate::archive_entry::{archive_models, readable, ArchiveEntry, ArchiveModel};
use crate::archive_rpc::{
    a_directory_is_listed_above_its_members, a_member_is_listed_in_its_directory, list_members,
    is_scan, load_archive, member_child, member_children, read_file_from_archive_memory,
    scan_archive_from_memory, scan_tar_memory, scan_zip_memory, search, tar_targets, zip_targets,
    Hit, LoadedArchive, Target,
};
use crate::dates::{first_stamp, is_instant_of, is_settled, is_stamp_of, CivilTime};
use crate::laws::{lemma_path_below, path_below};
use crate::listing::{has_dir, last_size, level_prefix, shows, Child};
use crate::order::{bytes_before, name_before};
use crate::rpc::{rows_of, AppError, RemoteFileEntry};
use crate::tar_archive::{
    bunzipped, gunzipped, has_tar_ending, is_tar_format_from_name, packed_tar_listing, tar_entries,
    tar_entry, TarModel,
};
use crate::text::{
    ascii_lowercase, first_slash, has_slash, lemma_first_slash, lossy_text, lowercase, slash_form, trim_end,
    trim_start, trimmed, with_slashes, without_leading_slashes, without_outer_slashes,
};
use crate::zip_archive::{
    are_zip_entries, is_locked, is_locked_data, is_zip_entry, zip_directory, zip_member_result,
    zip_opening, zip_outcome, zip_outcomes, ZipMember, ZipModel, PASSWORD_REQUIRED,
};

verus! {

/// A path keeps its length and its characters, but for the backslashes, which become slashes.
pub proof fn only_backslashes_are_changed(text: &str, slashed: String)
    requires
        call_ensures(with_slashes, (text,), slashed),
    ensures
        slashed@.len() == text@.len(),
        forall|i: int|
            0 <= i < text@.len() ==> (#[trigger] slashed@[i]) == (if text@[i] == '\\' {
                '/'
            } else {
                text@[i]
            }),
{
}

/// Whether `rest` is the part of a text from `from` up to `to`, with nothing but slashes around it.
pub open spec fn is_part_between_slashes(
    text: Seq<char>,
    rest: Seq<char>,
    from: int,
    to: int,
) -> bool {
    &&& 0 <= from <= to <= text.len()
    &&& rest == text.subrange(from, to)
    &&& forall|i: int| 0 <= i < from || to <= i < text.len() ==> #[trigger] text[i] == '/'
}

proof fn lemma_trim_start(text: Seq<char>) -> (from: int)
    ensures
        0 <= from <= text.len(),
        trim_start(text) == text.skip(from),
        forall|i: int| 0 <= i < from ==> #[trigger] text[i] == '/',
        from < text.len() ==> text[from] != '/',
    decreases text.len(),
{
    if text.len() > 0 && text[0] == '/' {
        let rest = text.drop_first();
        let from: int = lemma_trim_start(rest);
        assert(rest.skip(from) =~= text.skip(from + 1));
        assert forall|i: int| 0 <= i < from + 1 implies #[trigger] text[i] == '/' by {
            if i > 0 {
                assert(rest[i - 1] == text[i]);
            }
        }
        if from < rest.len() {
            assert(rest[from] == text[from + 1]);
        }
        from + 1
    } else {
        assert(text.skip(0) =~= text);
        0
    }
}

proof fn lemma_trim_end(text: Seq<char>) -> (to: int)
    ensures
        0 <= to <= text.len(),
        trim_end(text) == text.take(to),
        forall|i: int| to <= i < text.len() ==> #[trigger] text[i] == '/',
        to > 0 ==> text[to - 1] != '/',
    decreases text.len(),
{
    if text.len() > 0 && text.last() == '/' {
        let rest = text.drop_last();
        let to: int = lemma_trim_end(rest);
        assert(rest.take(to) =~= text.take(to));
        assert forall|i: int| to <= i < text.len() implies #[trigger] text[i] == '/' by {
            if i < rest.len() {
                assert(rest[i] == text[i]);
            }
        }
        if to > 0 {
            assert(rest[to - 1] == text[to - 1]);
        }
        to
    } else {
        assert(text.take(text.len() as int) =~= text);
        text.len() as int
    }
}

/// A trimmed text is the part of it between its outer slashes.
pub(crate) proof fn lemma_trimmed(text: Seq<char>) -> (ends: (int, int))
    ensures
        is_part_between_slashes(text, trimmed(text), ends.0, ends.1),
        trimmed(text).len() > 0 ==> trimmed(text)[0] != '/' && trimmed(text).last() != '/',
{
    let from: int = lemma_trim_start(text);
    let rest = text.skip(from);
    let to: int = lemma_trim_end(rest);
    assert(rest.take(to) =~= text.subrange(from, from + to));
    assert forall|i: int| 0 <= i < from || from + to <= i < text.len() implies #[trigger] text[i]
        == '/' by {
        if i >= from {
            assert(rest[i - from] == text[i]);
        }
    }
    if to > 0 {
        assert(trimmed(text)[0] == text[from]);
        assert(trimmed(text).last() == rest[to - 1]);
    }
    (from, from + to)
}

/// What is left of a path without its outer slashes is the part between them: only slashes are
/// cut off, and all of them.
pub proof fn only_outer_slashes_are_cut(text: &str, rest: String)
    requires
        call_ensures(without_outer_slashes, (text,), rest),
    ensures
        exists|from: int, to: int| #[trigger] is_part_between_slashes(text@, rest@, from, to),
        rest@.len() > 0 ==> rest@[0] != '/' && rest@.last() != '/',
{
    let ends = lemma_trimmed(text@);
    assert(is_part_between_slashes(text@, rest@, ends.0, ends.1));
}

/// What is left of a path without its leading slashes is the part behind them: only slashes are
/// cut off, and all of them.
pub proof fn only_leading_slashes_are_cut(text: &str, rest: String)
    requires
        call_ensures(without_leading_slashes, (text,), rest),
    ensures
        exists|from: int| #[trigger] is_part_between_slashes(text@, rest@, from, text@.len() as int),
        rest@.len() > 0 ==> rest@[0] != '/',
{
    let from: int = lemma_trim_start(text@);
    assert(text@.skip(from) =~= text@.subrange(from, text@.len() as int));
    assert(is_part_between_slashes(text@, rest@, from, text@.len() as int));
}

/// Whether some bytes come before others: they agree up to a place where the first ones end, or
/// have the smaller byte.
pub open spec fn comes_first(a: Seq<u8>, b: Seq<u8>) -> bool {
    exists|p: int|
        0 <= p <= a.len() && p < b.len() && #[trigger] a.take(p) == b.take(p) && (p == a.len()
            || a[p] < b[p])
}

proof fn lemma_comes_first(a: Seq<u8>, b: Seq<u8>)
    requires
        bytes_before(a, b),
    ensures
        comes_first(a, b),
    decreases b.len(),
{
    if a.len() == 0 || a[0] < b[0] {
        assert(a.take(0) =~= b.take(0));
    } else {
        let x = a.drop_first();
        let y = b.drop_first();
        lemma_comes_first(x, y);
        let p = choose|p: int|
            0 <= p <= x.len() && p < y.len() && #[trigger] x.take(p) == y.take(p) && (p == x.len()
                || x[p] < y[p]);
        assert forall|i: int| 0 <= i < p + 1 implies a[i] == b[i] by {
            if i > 0 {
                assert(x.take(p)[i - 1] == a[i]);
                assert(y.take(p)[i - 1] == b[i]);
            }
        }
        assert(a.take(p + 1) =~= b.take(p + 1));
    }
}

/// Of two names of which one comes before the other, the earlier one is the start of the later
/// one, or has the smaller byte where they first differ.
pub proof fn names_are_ordered_by_their_bytes(a: Seq<char>, b: Seq<char>)
    requires
        name_before(a, b),
    ensures
        comes_first(encode_utf8(a), encode_utf8(b)),
{
    lemma_comes_first(encode_utf8(a), encode_utf8(b));
}

/// Whether a member stands at a path.
pub open spec fn is_at(entry: ArchiveEntry, path: Seq<char>) -> bool {
    trimmed(entry.name@) == path
}

/// Whether a member stands somewhere below a path.
pub open spec fn is_below(entry: ArchiveEntry, path: Seq<char>) -> bool {
    (path + seq!['/']).is_prefix_of(trimmed(entry.name@))
}

/// Whether a member makes a path that of a directory.
pub open spec fn makes_directory(entry: ArchiveEntry, path: Seq<char>) -> bool {
    is_below(entry, path) || is_at(entry, path) && entry.is_dir
}

/// Whether a member stands at a path and is a file.
pub open spec fn is_file_at(entry: ArchiveEntry, path: Seq<char>) -> bool {
    is_at(entry, path) && !entry.is_dir
}

proof fn lemma_child_forward(entry: ArchiveEntry, dir: Seq<char>, name: Seq<char>)
    ensures
        member_child(entry@, dir) == Child::Dir(name) ==> !name.contains('/') && makes_directory(
            entry,
            path_below(dir, name),
        ),
        member_child(entry@, dir) is File && member_child(entry@, dir)->File_0 == name
            ==> !name.contains('/') && name.len() > 0 && is_file_at(entry, path_below(dir, name))
            && member_child(entry@, dir)->File_1 == entry.size,
{
    let full = trimmed(entry.name@);
    let prefix = level_prefix(dir);
    let rest = full.skip(prefix.len() as int);
    let child = member_child(entry@, dir);
    if child == Child::Dir(name) || (child is File && child->File_0 == name) {
        assert(full =~= prefix + rest);
        assert(path_below(dir, name) =~= prefix + name);
        lemma_first_slash(rest);
        let at = first_slash(rest);
        assert(name == rest.take(at));
        if name.contains('/') {
            let i = choose|i: int| 0 <= i < name.len() && name[i] == '/';
            assert(rest[i] == '/');
        }
        if has_slash(rest) {
            let upto = path_below(dir, name) + seq!['/'];
            assert(upto =~= full.subrange(0, upto.len() as int));
        } else {
            assert(name =~= rest);
            let ends = lemma_trimmed(entry.name@);
            if name.len() == 0 {
                assert(full =~= prefix);
                assert(full.last() == '/');
            }
        }
    }
}

proof fn lemma_child_back(entry: ArchiveEntry, dir: Seq<char>, name: Seq<char>)
    requires
        !name.contains('/'),
    ensures
        makes_directory(entry, path_below(dir, name)) && (name.len() > 0 || is_below(
            entry,
            path_below(dir, name),
        )) ==> member_child(entry@, dir) == Child::Dir(name),
        is_file_at(entry, path_below(dir, name)) && name.len() > 0 ==> member_child(entry@, dir)
            == Child::File(name, entry.size),
{
    let full = trimmed(entry.name@);
    let path = path_below(dir, name);
    assert(path =~= level_prefix(dir) + name);
    if is_below(entry, path) {
        let upto = path + seq!['/'];
        let rest = full.skip(upto.len() as int);
        assert(full =~= upto + rest);
        a_directory_is_listed_above_its_members(entry@, dir, name, rest);
        assert(member_child(entry@, dir) == Child::Dir(name));
    }
    if is_at(entry, path) && name.len() > 0 {
        a_member_is_listed_in_its_directory(entry@, dir, name);
    }
    if is_below(entry, path) && is_at(entry, path) {
        assert((path + seq!['/']).len() > path.len());
    }
}

proof fn lemma_last_size(children: Seq<Child>, name: Seq<char>, k: int)
    requires
        0 <= k < children.len(),
        children[k] is File,
        children[k]->File_0 == name,
        forall|j: int|
            k < j < children.len() ==> !((#[trigger] children[j]) is File && children[j]->File_0
                == name),
    ensures
        last_size(children, name) == children[k]->File_1,
    decreases children.len(),
{
    if k < children.len() - 1 {
        assert(!(children[children.len() - 1] is File && children[children.len() - 1]->File_0
            == name));
        let rest = children.drop_last();
        assert forall|j: int| k < j < rest.len() implies !((#[trigger] rest[j]) is File
            && rest[j]->File_0 == name) by {
            assert(rest[j] == children[j]);
        }
        assert(rest[k] == children[k]);
        lemma_last_size(rest, name, k);
    }
}

/// Every row of a listing is there for a member at its path or below it; it is a directory where
/// one of them makes it one, and a file otherwise. Rows come in the order of their names' bytes.
pub proof fn every_row_stands_for_a_member(
    entries: &[ArchiveEntry],
    path: &str,
    rows: Vec<RemoteFileEntry>,
    dir: Seq<char>,
    r: int,
)
    requires
        call_ensures(list_members, (entries, path), rows),
        dir == trimmed(slash_form(path@)),
        0 <= r < rows@.len(),
    ensures
        !rows@[r].name@.contains('/'),
        exists|k: int|
            0 <= k < entries@.len() && (is_at(
                #[trigger] entries@[k],
                path_below(dir, rows@[r].name@),
            ) || is_below(entries@[k], path_below(dir, rows@[r].name@))),
        rows@[r].is_dir <==> exists|k: int|
            0 <= k < entries@.len() && makes_directory(
                #[trigger] entries@[k],
                path_below(dir, rows@[r].name@),
            ),
        rows@[r].is_dir ==> rows@[r].size == 0,
        rows@[r].extra@.len() == 0,
        (forall|k: int|
            0 <= k < entries@.len() ==> !is_at(
                #[trigger] entries@[k],
                path_below(dir, rows@[r].name@),
            )) ==> rows@[r].permissions == Some(0o755u32) && rows@[r].modified == 0,
        forall|s: int|
            r < s < rows@.len() ==> comes_first(
                encode_utf8(rows@[r].name@),
                encode_utf8((#[trigger] rows@[s]).name@),
            ),
{
    let children = member_children(entries@, dir);
    let all = rows_of(rows@);
    let name = rows@[r].name@;
    let place = path_below(dir, name);
    assert(all[r] == rows@[r]@);
    assert(all[r].extra.len() == rows@[r].extra@.len());
    assert(shows(children, name));
    assert forall|k: int| 0 <= k < entries@.len() implies (#[trigger] children[k]) == member_child(
        entries@[k]@,
        dir,
    ) by {}
    assert forall|k: int| 0 <= k < entries@.len() && #[trigger] makes_directory(entries@[k], place)
        && !name.contains('/') implies has_dir(children, name) || name.len() == 0 by {
        lemma_child_back(entries@[k], dir, name);
        if name.len() > 0 {
            assert(children[k] == Child::Dir(name));
        }
    }
    if has_dir(children, name) {
        let k = choose|k: int| 0 <= k < children.len() && #[trigger] children[k] == Child::Dir(name);
        assert(children[k] == member_child(entries@[k]@, dir));
        lemma_child_forward(entries@[k], dir, name);
        assert(makes_directory(entries@[k], place));
        assert(is_at(entries@[k], place) || is_below(entries@[k], place));
    } else {
        let k = choose|k: int|
            0 <= k < children.len() && (#[trigger] children[k]) is File && children[k]->File_0
                == name;
        assert(children[k] == member_child(entries@[k]@, dir));
        lemma_child_forward(entries@[k], dir, name);
        assert(is_at(entries@[k], place));
    }
    lemma_path_below(dir, name);
    if forall|k: int| 0 <= k < entries@.len() ==> !is_at(#[trigger] entries@[k], place) {
        lemma_no_attributes(entries@, place);
    }
    assert forall|s: int| r < s < rows@.len() implies comes_first(
        encode_utf8(name),
        encode_utf8((#[trigger] rows@[s]).name@),
    ) by {
        assert(all[s] == rows@[s]@);
        assert(name_before(all[r].name, all[s].name));
        names_are_ordered_by_their_bytes(name, rows@[s].name@);
    }
}

proof fn lemma_no_attributes(entries: Seq<ArchiveEntry>, path: Seq<char>)
    requires
        forall|k: int| 0 <= k < entries.len() ==> !is_at(#[trigger] entries[k], path),
    ensures
        crate::archive_rpc::attributes(entries, path) is None,
    decreases entries.len(),
{
    if entries.len() > 0 {
        assert(!is_at(entries[0], path));
        let rest = entries.drop_first();
        assert forall|k: int| 0 <= k < rest.len() implies !is_at(#[trigger] rest[k], path) by {
            assert(rest[k] == entries[k + 1]);
        }
        lemma_no_attributes(rest, path);
    }
}

/// Every member is listed in the directory above it, and so is every directory on the way to it.
pub proof fn every_member_has_a_row(
    entries: &[ArchiveEntry],
    path: &str,
    rows: Vec<RemoteFileEntry>,
    dir: Seq<char>,
    name: Seq<char>,
    k: int,
)
    requires
        call_ensures(list_members, (entries, path), rows),
        dir == trimmed(slash_form(path@)),
        !name.contains('/'),
        0 <= k < entries@.len(),
        is_at(entries@[k], path_below(dir, name)) && name.len() > 0 || is_below(
            entries@[k],
            path_below(dir, name),
        ),
    ensures
        exists|r: int| 0 <= r < rows@.len() && (#[trigger] rows@[r]).name@ == name,
{
    let children = member_children(entries@, dir);
    lemma_child_back(entries@[k], dir, name);
    assert(children[k] == member_child(entries@[k]@, dir));
    assert(shows(children, name));
    let all = rows_of(rows@);
    let r = choose|r: int| 0 <= r < all.len() && (#[trigger] all[r]).name == name;
    assert(all[r] == rows@[r]@);
    assert(rows@[r].name@ == name);
}

/// A file of an archive is listed with its own size: that of the last file of its path.
pub proof fn a_listed_file_has_its_own_size(
    entries: &[ArchiveEntry],
    path: &str,
    rows: Vec<RemoteFileEntry>,
    dir: Seq<char>,
    r: int,
    k: int,
)
    requires
        call_ensures(list_members, (entries, path), rows),
        dir == trimmed(slash_form(path@)),
        0 <= r < rows@.len(),
        !rows@[r].is_dir,
        0 <= k < entries@.len(),
        is_file_at(entries@[k], path_below(dir, rows@[r].name@)),
        forall|j: int|
            k < j < entries@.len() ==> !is_file_at(
                #[trigger] entries@[j],
                path_below(dir, rows@[r].name@),
            ),
    ensures
        rows@[r].size == entries@[k].size,
{
    let children = member_children(entries@, dir);
    let all = rows_of(rows@);
    let name = rows@[r].name@;
    every_row_stands_for_a_member(entries, path, rows, dir, r);
    assert(all[r] == rows@[r]@);
    assert(shows(children, name));
    assert(!has_dir(children, name));
    let f = choose|f: int|
        0 <= f < children.len() && (#[trigger] children[f]) is File && children[f]->File_0 == name;
    assert(children[f] == member_child(entries@[f]@, dir));
    lemma_child_forward(entries@[f], dir, name);
    lemma_child_back(entries@[k], dir, name);
    assert(children[k] == member_child(entries@[k]@, dir));
    assert forall|j: int| k < j < children.len() implies !((#[trigger] children[j]) is File
        && children[j]->File_0 == name) by {
        assert(children[j] == member_child(entries@[j]@, dir));
        lemma_child_forward(entries@[j], dir, name);
    }
    lemma_last_size(children, name, k);
}

/// Whether `places` are the places of a list for which `here` holds, all of them, in their order.
pub open spec fn are_places_of(places: Seq<int>, len: nat, here: spec_fn(int) -> bool) -> bool {
    &&& forall|a: int, b: int| 0 <= a < b < places.len() ==> places[a] < places[b]
    &&& forall|a: int| 0 <= a < places.len() ==> 0 <= #[trigger] places[a] < len && here(places[a])
    &&& forall|k: int| 0 <= k < len && #[trigger] here(k) ==> places.contains(k)
}

/// The places of the members that can be read.
proof fn lemma_readable_places(
    found: Seq<Result<ArchiveModel, Seq<char>>>,
    here: spec_fn(int) -> bool,
) -> (places: Seq<int>)
    requires
        forall|k: int| 0 <= k < found.len() ==> (#[trigger] found[k] is Ok <==> here(k)),
    ensures
        are_places_of(places, found.len(), here),
        places.len() == readable(found).len(),
        forall|a: int| 0 <= a < places.len() ==> readable(found)[a] == found[#[trigger] places[a]]->Ok_0,
    decreases found.len(),
{
    if found.len() == 0 {
        Seq::empty()
    } else {
        let rest = found.drop_last();
        let last: int = found.len() - 1;
        assert forall|k: int| 0 <= k < rest.len() implies (#[trigger] rest[k] is Ok <==> here(k)) by {
            assert(rest[k] == found[k]);
        }
        let before = lemma_readable_places(rest, here);
        assert(found[last] is Ok <==> here(last));
        let places = if found[last] is Ok {
            before.push(last)
        } else {
            before
        };
        assert forall|k: int| 0 <= k < found.len() && #[trigger] here(k) implies places.contains(
            k,
        ) by {
            if k < last {
                assert(before.contains(k));
                let a = choose|a: int| 0 <= a < before.len() && before[a] == k;
                assert(places[a] == k);
            } else {
                assert(places[before.len() as int] == k);
            }
        }
        assert forall|a: int| 0 <= a < places.len() implies readable(found)[a]
            == found[#[trigger] places[a]]->Ok_0 && 0 <= places[a] < found.len() && here(places[a]) by {
            if a < before.len() {
                assert(places[a] == before[a]);
                assert(rest[before[a]] == found[before[a]]);
            }
        }
        places
    }
}

/// Whether an entry says what a tar archive says of a member. A member without a date has that of
/// the beginning.
pub open spec fn says_of_tar(entry: ArchiveEntry, member: TarModel) -> bool {
    &&& entry.name@ == slash_form(lossy_text(member.path))
    &&& entry.is_dir == member.is_dir
    &&& entry.size == member.size
    &&& entry.permissions == member.mode
    &&& member.modified matches Some(seconds) ==> entry.modified == seconds
    &&& member.modified is None ==> entry.modified == 0
}

/// Whether `places` are those of the members of a tar archive that can be read.
pub open spec fn are_readable_places(
    places: Seq<int>,
    listed: Seq<Result<TarModel, Seq<char>>>,
) -> bool {
    are_places_of(places, listed.len(), |k: int| listed[k] is Ok)
}

/// Whether entries are those of every member of a tar archive that can be read, in the order of the
/// archive, and of nothing else.
pub open spec fn gives_tar_members(entries: Seq<ArchiveEntry>, data: Seq<u8>) -> bool {
    exists|places: Seq<int>| #[trigger]
        are_readable_places(places, packed_tar_listing(data)) && entries.len() == places.len()
            && forall|a: int|
            0 <= a < places.len() ==> says_of_tar(
                entries[a],
                packed_tar_listing(data)[#[trigger] places[a]]->Ok_0,
            )
}

proof fn lemma_tar_members(entries: Vec<ArchiveEntry>, data: Seq<u8>)
    requires
        is_scan(Ok(entries), data, true),
    ensures
        gives_tar_members(entries@, data),
{
    let listed = packed_tar_listing(data);
    let found = tar_entries(listed);
    let here = |k: int| listed[k] is Ok;
    let places = lemma_readable_places(found, here);
    let models = archive_models(entries@);
    assert(models.len() == entries@.len());
    assert forall|a: int| 0 <= a < places.len() implies says_of_tar(
        entries@[a],
        listed[#[trigger] places[a]]->Ok_0,
    ) by {
        assert(models[a] == entries@[a]@);
        assert(here(places[a]));
        assert(found[places[a]] == Ok::<ArchiveModel, Seq<char>>(
            tar_entry(listed[places[a]]->Ok_0),
        ));
    }
    assert(are_readable_places(places, listed));
}

/// A scan of a tar archive gives every member that can be read, in the order of the archive, with
/// the name, kind, size, permissions and date that the archive gives it, and nothing else.
pub proof fn a_tar_scan_gives_every_readable_member(
    data: &[u8],
    result: Result<Vec<ArchiveEntry>, AppError>,
)
    requires
        call_ensures(scan_tar_memory, (data,), result),
    ensures
        result matches Ok(entries) && gives_tar_members(entries@, data@),
{
    lemma_tar_members(result->Ok_0, data@);
}

/// Whether a member of a zip archive can be reached and unpacked without a password.
pub open spec fn is_free(
    data: Seq<u8>,
    listed: Seq<Result<ZipModel, Seq<char>>>,
    k: int,
) -> bool {
    listed[k] matches Ok(m) && !is_locked(data, m.header_start) && zip_opening(data, k as nat) is None
}

/// Whether `places` are those of the members of a zip archive that can be reached and unpacked
/// without a password.
pub open spec fn are_free_places(
    places: Seq<int>,
    data: Seq<u8>,
    listed: Seq<Result<ZipModel, Seq<char>>>,
) -> bool {
    are_places_of(places, listed.len(), |k: int| is_free(data, listed, k))
}

/// Whether an entry says what a zip archive says of a member: its date is the instant at which the
/// clock shows the listed time.
pub open spec fn says_of_zip(entry: ArchiveEntry, member: ZipModel) -> bool {
    &&& entry.name@ == slash_form(member.name)
    &&& entry.is_dir == member.is_dir
    &&& entry.size == member.size
    &&& entry.permissions == member.mode
    &&& forall|time: CivilTime, instant: i64| #[trigger]
        is_settled(time, Some(instant)) && time.year == member.date.0 && time.month
            == member.date.1 && time.day == member.date.2 && time.hour == member.time.0
            && time.minute == member.time.1 && time.second == member.time.2 ==> entry.modified
            == instant as u64
    &&& forall|time: CivilTime| #[trigger]
        is_settled(time, None) && time.year == member.date.0 && time.month == member.date.1
            && time.day == member.date.2 && time.hour == member.time.0 && time.minute
            == member.time.1 && time.second == member.time.2 ==> entry.modified == 0
}

proof fn lemma_says_of_zip(entry: ArchiveEntry, member: ZipModel)
    requires
        is_zip_entry(Ok(entry@), Ok(member)),
    ensures
        says_of_zip(entry, member),
{
    assert forall|time: CivilTime, instant: i64| #[trigger]
        is_settled(time, Some(instant)) && time.year == member.date.0 && time.month
            == member.date.1 && time.day == member.date.2 && time.hour == member.time.0
            && time.minute == member.time.1 && time.second == member.time.2 implies entry.modified
        == instant as u64 by {
        let readings = seq![Some(time)];
        assert(member.modified() == time);
        assert(is_stamp_of(entry.modified, readings));
        let instants = choose|instants: Seq<Option<i64>>|
            instants.len() == readings.len() && (forall|k: int|
                0 <= k < readings.len() ==> is_instant_of(readings[k], #[trigger] instants[k]))
                && entry.modified == #[trigger] first_stamp(instants);
        assert(is_instant_of(readings[0], instants[0]));
        assert(instants[0] == Some(instant));
    }
    assert forall|time: CivilTime| #[trigger]
        is_settled(time, None) && time.year == member.date.0 && time.month == member.date.1
            && time.day == member.date.2 && time.hour == member.time.0 && time.minute
            == member.time.1 && time.second == member.time.2 implies entry.modified == 0 by {
        let readings = seq![Some(time)];
        assert(member.modified() == time);
        assert(is_stamp_of(entry.modified, readings));
        let instants = choose|instants: Seq<Option<i64>>|
            instants.len() == readings.len() && (forall|k: int|
                0 <= k < readings.len() ==> is_instant_of(readings[k], #[trigger] instants[k]))
                && entry.modified == #[trigger] first_stamp(instants);
        assert(is_instant_of(readings[0], instants[0]));
        assert(instants[0] is None);
        assert(instants.drop_first().len() == 0);
        assert(first_stamp(instants.drop_first()) == 0);
    }
}

/// Whether entries are those of every member of a zip archive that can be reached and unpacked
/// without a password, in the order of the archive, and of nothing else.
pub open spec fn gives_zip_members(
    entries: Seq<ArchiveEntry>,
    data: Seq<u8>,
    listed: Seq<Result<ZipModel, Seq<char>>>,
) -> bool {
    exists|places: Seq<int>| #[trigger]
        are_free_places(places, data, listed) && entries.len() == places.len() && forall|a: int|
            0 <= a < places.len() ==> says_of_zip(entries[a], listed[#[trigger] places[a]]->Ok_0)
}

proof fn lemma_zip_members(
    entries: Vec<ArchiveEntry>,
    data: Seq<u8>,
    listed: Seq<Result<ZipModel, Seq<char>>>,
)
    requires
        is_scan(Ok(entries), data, false),
        zip_directory(data) == Ok::<Seq<Result<ZipModel, Seq<char>>>, Seq<char>>(listed),
    ensures
        gives_zip_members(entries@, data, listed),
{
    let outcomes = zip_outcomes(data, listed);
    let found = choose|found: Seq<Result<ArchiveModel, Seq<char>>>|
        are_zip_entries(found, outcomes) && archive_models(entries@) == #[trigger] readable(found);
    let here = |k: int| is_free(data, listed, k);
    assert forall|k: int| 0 <= k < found.len() implies (#[trigger] found[k] is Ok <==> here(k)) by {
        assert(is_zip_entry(found[k], outcomes[k]));
        assert(outcomes[k] == zip_outcome(data, listed[k], k as nat));
    }
    let places = lemma_readable_places(found, here);
    let models = archive_models(entries@);
    assert(models.len() == entries@.len());
    assert forall|a: int| 0 <= a < places.len() implies says_of_zip(
        entries@[a],
        listed[#[trigger] places[a]]->Ok_0,
    ) by {
        let k = places[a];
        assert(models[a] == entries@[a]@);
        assert(here(k));
        assert(is_zip_entry(found[k], outcomes[k]));
        assert(outcomes[k] == zip_outcome(data, listed[k], k as nat));
        lemma_says_of_zip(entries@[a], listed[k]->Ok_0);
    }
    assert(are_free_places(places, data, listed));
}

/// A scan of a zip archive gives every member that can be reached and unpacked without a password,
/// in the order of the archive, with the name, kind, size, permissions and date that the archive
/// gives it, and nothing else. Bytes that are no zip archive give the reason.
pub proof fn a_zip_scan_gives_every_readable_member(
    data: &[u8],
    result: Result<Vec<ArchiveEntry>, AppError>,
)
    requires
        call_ensures(scan_zip_memory, (data,), result),
    ensures
        match zip_directory(data@) {
            Ok(listed) => result matches Ok(entries) && gives_zip_members(entries@, data@, listed),
            Err(text) => result matches Err(AppError::Other(reason)) && reason@ == text,
        },
{
    if let Ok(listed) = zip_directory(data@) {
        lemma_zip_members(result->Ok_0, data@, listed);
    }
}

/// A scan goes by the format that it is told, whatever the name of the archive.
pub proof fn a_scan_goes_by_the_format(
    data: &[u8],
    archive_path: &str,
    is_tar: bool,
    result: Result<Vec<ArchiveEntry>, AppError>,
)
    requires
        call_ensures(scan_archive_from_memory, (data, archive_path, is_tar), result),
    ensures
        is_tar ==> (result matches Ok(entries) && gives_tar_members(entries@, data@)),
        !is_tar ==> match zip_directory(data@) {
            Ok(listed) => result matches Ok(entries) && gives_zip_members(entries@, data@, listed),
            Err(text) => result matches Err(AppError::Other(reason)) && reason@ == text,
        },
{
    if is_tar {
        lemma_tar_members(result->Ok_0, data@);
    } else {
        if let Ok(listed) = zip_directory(data@) {
            lemma_zip_members(result->Ok_0, data@, listed);
        }
    }
}

/// A member that cannot be had gives its reason: the password for one that is locked, otherwise
/// what came of reaching or unpacking it.
pub proof fn a_zip_member_is_refused_for_its_reason(
    data: &[u8],
    listed: Result<ZipMember, String>,
    failure: Option<String>,
    result: Result<ArchiveEntry, String>,
)
    requires
        call_ensures(zip_member_result, (data, &listed, failure), result),
    ensures
        listed matches Ok(member) ==> {
            let at = member.header_start + 8;
            let locked = at < data@.len() && data@[at] & 1 == 1;
            &&& locked ==> (result matches Err(text) && text@ == PASSWORD_REQUIRED@)
            &&& !locked ==> match failure {
                Some(reason) => result matches Err(text) && text@ == reason@,
                None => result is Ok,
            }
        },
        listed matches Err(unreached) ==> match failure {
            Some(reason) => result matches Err(text) && text@ == reason@,
            None => result matches Err(text) && text@ == unreached@,
        },
{
    if let Ok(member) = listed {
        let at: int = member.header_start + 8;
        if at < data@.len() {
            let b: u8 = data@[at];
            assert((b % 2 == 1) == (b & 1 == 1)) by (bit_vector);
        }
    }
}

/// A member of a zip archive is locked when the lowest bit of the byte that stands eight bytes
/// behind the start of its description is set.
pub proof fn a_member_is_locked_by_its_lowest_flag(data: &[u8], header_start: u64, locked: bool)
    requires
        call_ensures(is_locked_data, (data, header_start), locked),
    ensures
        header_start + 8 >= data@.len() ==> !locked,
        header_start + 8 < data@.len() ==> locked == (data@[header_start + 8] & 1 == 1),
{
    if header_start + 8 < data@.len() {
        let b: u8 = data@[header_start + 8];
        assert((b % 2 == 1) == (b & 1 == 1)) by (bit_vector);
    }
}

/// Whether bytes begin as gzip data does.
pub open spec fn begins_as_gzip(data: Seq<u8>) -> bool {
    data.len() >= 2 && data[0] == 0x1f && data[1] == 0x8b
}

/// Whether bytes begin as bzip2 data does, with any level.
pub open spec fn begins_as_bzip2(data: Seq<u8>) -> bool {
    &&& data.len() >= 4
    &&& (data[0], data[1], data[2]) == (0x42u8, 0x5au8, 0x68u8)
    &&& 0x31 <= data[3] <= 0x39
}

/// Loading an archive keeps the very bytes that were handed over, unless they are those of a tar
/// archive that gzip or bzip2 has packed: of these the unpacked bytes are kept, and what cannot be
/// unpacked gives the reason. The entries are those of the bytes that are kept.
pub proof fn a_loaded_archive_keeps_its_bytes(
    data: Vec<u8>,
    archive_path: &str,
    result: Result<LoadedArchive, AppError>,
    is_tar: bool,
)
    requires
        call_ensures(load_archive, (data, archive_path), result),
        is_tar == has_tar_ending(lowercase(archive_path@)),
    ensures
        !is_tar || !begins_as_gzip(data@) && !begins_as_bzip2(data@) ==> (result matches Ok(loaded)
            ==> loaded.data@ == data@),
        is_tar && !begins_as_gzip(data@) && !begins_as_bzip2(data@) ==> result is Ok,
        !is_tar ==> (result is Ok <==> zip_directory(data@) is Ok),
        is_tar && begins_as_gzip(data@) ==> match gunzipped(data@) {
            Ok(bytes) => result matches Ok(loaded) && loaded.data@ == bytes,
            Err(text) => result matches Err(AppError::Io(reason)) && reason@ == text,
        },
        is_tar && begins_as_bzip2(data@) ==> match bunzipped(data@) {
            Ok(bytes) => result matches Ok(loaded) && loaded.data@ == bytes,
            Err(text) => result matches Err(AppError::Io(reason)) && reason@ == text,
        },
        is_tar ==> (result matches Ok(loaded) ==> gives_tar_members(
            loaded.entries@,
            loaded.data@,
        )),
        !is_tar ==> (result matches Ok(loaded) ==> (zip_directory(loaded.data@) matches Ok(listed)
            && gives_zip_members(loaded.entries@, loaded.data@, listed))),
{
    if let Ok(loaded) = result {
        if is_tar {
            lemma_tar_members(loaded.entries, loaded.data@);
        } else {
            lemma_zip_members(loaded.entries, loaded.data@, zip_directory(loaded.data@)->Ok_0);
        }
    }
}

/// The endings of the names of tar archives.
pub open spec fn tar_endings() -> Seq<Seq<char>> {
    seq![".tar"@, ".tar.gz"@, ".tgz"@, ".tar.bz2"@, ".tbz2"@, ".tbz"@]
}

/// A name is that of a tar archive when it has one of their endings, in capitals or not, and only
/// then.
pub proof fn a_tar_archive_is_known_by_its_ending(name: &str, is_tar: bool)
    requires
        call_ensures(is_tar_format_from_name, (name,), is_tar),
        is_ascii_chars(name@),
    ensures
        is_tar <==> exists|e: int|
            0 <= e < 6 && (#[trigger] tar_endings()[e]).is_suffix_of(ascii_lowercase(name@)),
{
    let lower = ascii_lowercase(name@);
    let endings = tar_endings();
    assert(endings[0] == ".tar"@ && endings[1] == ".tar.gz"@ && endings[2] == ".tgz"@);
    assert(endings[3] == ".tar.bz2"@ && endings[4] == ".tbz2"@ && endings[5] == ".tbz"@);
}

proof fn lemma_search_misses(targets: Seq<Target>, wanted: Seq<char>, from: nat)
    requires
        from <= targets.len(),
        forall|i: int|
            from <= i < targets.len() ==> ((#[trigger] targets[i]) matches Target::Member(name, _)
                && trim_start(name) != wanted),
    ensures
        search(targets, wanted, from) == Hit::Missing,
    decreases targets.len() - from,
{
    if from < targets.len() {
        assert(targets[from as int] is Member);
        lemma_search_misses(targets, wanted, from + 1);
    }
}

proof fn lemma_search_stops(targets: Seq<Target>, wanted: Seq<char>, from: nat, to: nat)
    requires
        from <= to < targets.len(),
        forall|i: int|
            from <= i < to ==> ((#[trigger] targets[i]) matches Target::Member(name, _)
                && trim_start(name) != wanted),
    ensures
        search(targets, wanted, from) == search(targets, wanted, to),
    decreases to - from,
{
    if from < to {
        assert(targets[from as int] is Member);
        lemma_search_stops(targets, wanted, from + 1, to);
    }
}

/// The name of a member of a tar archive, as it is looked for.
pub open spec fn tar_name(member: TarModel) -> Seq<char> {
    trim_start(slash_form(lossy_text(member.path)))
}

/// What is not in a tar archive is not read: where every member can be read and none has the name,
/// the file is missing; a directory is refused; and a member that cannot be read ends the search
/// with its reason.
pub proof fn what_a_tar_archive_lacks_is_not_read(
    data: &[u8],
    internal_file: &str,
    result: Result<Vec<u8>, AppError>,
    wanted: Seq<char>,
    n: int,
)
    requires
        call_ensures(read_file_from_archive_memory, (data, internal_file, true), result),
        wanted == trim_start(slash_form(internal_file@)),
        0 <= n <= packed_tar_listing(data@).len(),
        forall|i: int|
            0 <= i < n ==> ((#[trigger] packed_tar_listing(data@)[i]) matches Ok(m) && tar_name(m)
                != wanted),
    ensures
        n == packed_tar_listing(data@).len() ==> (result matches Err(AppError::Other(reason))
            && reason@ == "File not found in archive: "@ + internal_file@),
        n < packed_tar_listing(data@).len() ==> match packed_tar_listing(data@)[n] {
            Err(text) => result matches Err(AppError::Io(reason)) && reason@ == text,
            Ok(m) => tar_name(m) == wanted && m.is_dir ==> (result matches Err(
                AppError::Other(reason),
            ) && reason@ == "Is a directory"@),
        },
{
    let listed = packed_tar_listing(data@);
    let targets = tar_targets(listed);
    assert forall|i: int| 0 <= i < n implies ((#[trigger] targets[i]) matches Target::Member(
        name,
        _,
    ) && trim_start(name) != wanted) by {
        assert(listed[i] is Ok);
    }
    if n == listed.len() {
        lemma_search_misses(targets, wanted, 0);
    } else {
        lemma_search_stops(targets, wanted, 0, n as nat);
    }
}

/// What is not in a zip archive is not read: where every member can be had and none has the name,
/// the file is missing; a directory is refused; and a member that is locked ends the search.
pub proof fn what_a_zip_archive_lacks_is_not_read(
    data: &[u8],
    internal_file: &str,
    result: Result<Vec<u8>, AppError>,
    listed: Seq<Result<ZipModel, Seq<char>>>,
    wanted: Seq<char>,
    n: int,
)
    requires
        call_ensures(read_file_from_archive_memory, (data, internal_file, false), result),
        zip_directory(data@) == Ok::<Seq<Result<ZipModel, Seq<char>>>, Seq<char>>(listed),
        wanted == trim_start(slash_form(internal_file@)),
        0 <= n <= listed.len(),
        forall|i: int|
            0 <= i < n ==> is_free(data@, listed, i) && trim_start(
                slash_form((#[trigger] listed[i])->Ok_0.name),
            ) != wanted,
    ensures
        n == listed.len() ==> (result matches Err(AppError::Other(reason)) && reason@
            == "File not found in archive: "@ + internal_file@),
        n < listed.len() && is_free(data@, listed, n) && trim_start(
            slash_form(listed[n]->Ok_0.name),
        ) == wanted && listed[n]->Ok_0.is_dir ==> (result matches Err(AppError::Other(reason))
            && reason@ == "Is a directory"@),
        n < listed.len() && listed[n] is Ok && is_locked(data@, listed[n]->Ok_0.header_start) ==> (
        result matches Err(AppError::Other(reason)) && reason@ == PASSWORD_REQUIRED@),
{
    let outcomes = zip_outcomes(data@, listed);
    let targets = zip_targets(outcomes);
    assert forall|i: int| 0 <= i < n implies ((#[trigger] targets[i]) matches Target::Member(
        name,
        _,
    ) && trim_start(name) != wanted) by {
        assert(listed[i] is Ok);
        assert(outcomes[i] == zip_outcome(data@, listed[i], i as nat));
    }
    if n == listed.len() {
        lemma_search_misses(targets, wanted, 0);
    } else {
        lemma_search_stops(targets, wanted, 0, n as nat);
        assert(outcomes[n] == zip_outcome(data@, listed[n], n as nat));
    }
}

} // verus!
