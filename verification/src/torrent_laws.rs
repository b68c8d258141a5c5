//! What the views of a torrent say of its files and its peers.

use vstd::prelude::*;
use vstd::utf8::*;

use std::sync::Arc;

use crate::archive_laws::{
    are_places_of, comes_first, lemma_trimmed, names_are_ordered_by_their_bytes,
};
use crate::decimal::decimal;
use crate::laws::{always_whole, never_whole, path_below};
use crate::listing::{first_size, has_dir, has_file, level_prefix, shows, Child};
use crate::order::{lemma_stable_sort_same_rows, name_before, Named};
use crate::rpc::{is_separator, rows_of, AppError, RemoteFileEntry, Row};
use crate::text::{
    first_slash, has_slash, lemma_first_slash, lemma_first_slash_is, lossy_text, slash_form,
    trimmed,
};
use crate::torrent_rpc::{
    child_of, children_of, contents_of, described, first_unreadable, is_picked_listing, list_level,
    models_of, parse_torrent, peer_rows, picked_rows, read_peer, shown_files, shown_path,
    slash_joined, FileDetail, Metainfo, MetainfoModel,
    TorrentContents, TorrentEntry, TorrentFileSystemRpc,
};
use crate::torrent_session::{
    active_count, activity_of, at_work, data_dir_for, downloaded_files_are_kept_in_the_data_folder,
    is_active, is_connected_to, ordered_peers, peer_card, reports, resumed, selected_files, selection_changed,
    state_file_for, state_temp_file_for, Engine, EngineState, PeerRow, StopAction, StopAttempts,
    TorrentStats, TorrentStatsState,
};

verus! {

/// Whether a file of a torrent stands at a path.
pub open spec fn stands_at(entry: TorrentEntry, path: Seq<char>) -> bool {
    entry.path@ == path
}

/// Whether a file of a torrent lies somewhere below a path.
pub open spec fn lies_below(entry: TorrentEntry, path: Seq<char>) -> bool {
    (path + seq!['/']).is_prefix_of(entry.path@)
}

proof fn lemma_file_forward(entry: TorrentEntry, dir: Seq<char>, name: Seq<char>)
    ensures
        child_of(entry.path@, entry.size, dir) == Child::Dir(name) ==> name.len() > 0
            && !name.contains('/') && lies_below(entry, path_below(dir, name)),
        child_of(entry.path@, entry.size, dir) is File && child_of(
            entry.path@,
            entry.size,
            dir,
        )->File_0 == name ==> name.len() > 0 && !name.contains('/') && stands_at(
            entry,
            path_below(dir, name),
        ) && child_of(entry.path@, entry.size, dir)->File_1 == entry.size,
{
    let full = entry.path@;
    let prefix = level_prefix(dir);
    let rest = full.skip(prefix.len() as int);
    let child = child_of(full, entry.size, dir);
    if child == Child::Dir(name) || (child is File && child->File_0 == name) {
        assert(full =~= prefix + rest);
        assert(path_below(dir, name) =~= prefix + name);
        lemma_first_slash(rest);
        assert(name == rest.take(first_slash(rest)));
        if name.contains('/') {
            let i = choose|i: int| 0 <= i < name.len() && name[i] == '/';
            assert(rest[i] == '/');
        }
        if has_slash(rest) {
            let upto = path_below(dir, name) + seq!['/'];
            assert(upto =~= full.subrange(0, upto.len() as int));
        } else {
            assert(name =~= rest);
        }
    }
}

proof fn lemma_file_back(entry: TorrentEntry, dir: Seq<char>, name: Seq<char>)
    requires
        !name.contains('/'),
        name.len() > 0,
    ensures
        lies_below(entry, path_below(dir, name)) ==> child_of(entry.path@, entry.size, dir)
            == Child::Dir(name),
        stands_at(entry, path_below(dir, name)) ==> child_of(entry.path@, entry.size, dir)
            == Child::File(name, entry.size),
{
    let full = entry.path@;
    let prefix = level_prefix(dir);
    let rest = full.skip(prefix.len() as int);
    let path = path_below(dir, name);
    assert(path =~= prefix + name);
    assert forall|i: int| 0 <= i < name.len() implies name[i] != '/' by {
        assert(name.contains(name[i]));
    }
    if lies_below(entry, path) {
        let upto = path + seq!['/'];
        assert(upto == full.subrange(0, upto.len() as int));
        assert forall|i: int| 0 <= i < upto.len() implies full[i] == upto[i] by {
            assert(full.subrange(0, upto.len() as int)[i] == full[i]);
        }
        assert(prefix =~= full.subrange(0, prefix.len() as int));
        assert forall|i: int| 0 <= i < name.len() implies rest[i] == name[i] by {
            assert(rest[i] == full[prefix.len() + i]);
        }
        assert(rest[name.len() as int] == full[path.len() as int]);
        lemma_first_slash_is(rest, name.len() as int);
        assert(rest.take(name.len() as int) =~= name);
    }
    if stands_at(entry, path) {
        assert(rest =~= name);
        assert(prefix =~= full.subrange(0, prefix.len() as int));
        lemma_first_slash_is(name, name.len() as int);
        assert(name.take(name.len() as int) =~= name);
    }
}

proof fn lemma_first_size(children: Seq<Child>, name: Seq<char>, k: int)
    requires
        0 <= k < children.len(),
        children[k] is File,
        children[k]->File_0 == name,
        forall|j: int|
            0 <= j < k ==> !((#[trigger] children[j]) is File && children[j]->File_0 == name),
    ensures
        first_size(children, name) == children[k]->File_1,
    decreases children.len(),
{
    let rest = children.drop_last();
    if k < rest.len() {
        assert(rest[k] == children[k]);
        assert(has_file(rest, name));
        assert forall|j: int| 0 <= j < k implies !((#[trigger] rest[j]) is File && rest[j]->File_0
            == name) by {
            assert(rest[j] == children[j]);
        }
        lemma_first_size(rest, name, k);
    } else {
        if has_file(rest, name) {
            let j = choose|j: int|
                0 <= j < rest.len() && (#[trigger] rest[j]) is File && rest[j]->File_0 == name;
            assert(rest[j] == children[j]);
        }
    }
}

/// Every row of a level of a torrent is there for a file at its path or below it: a directory where
/// files lie below it, otherwise a file of the size that the first file of that path has. Rows
/// come in the order of their names' bytes, and carry no dates.
pub proof fn every_row_stands_for_a_file(
    entries: &[TorrentEntry],
    internal_dir: &str,
    rows: Vec<RemoteFileEntry>,
    dir: Seq<char>,
    r: int,
)
    requires
        call_ensures(list_level, (entries, internal_dir), rows),
        dir == trimmed(slash_form(internal_dir@)),
        0 <= r < rows@.len(),
    ensures
        rows@[r].name@.len() > 0,
        !rows@[r].name@.contains('/'),
        rows@[r].is_dir <==> exists|k: int|
            0 <= k < entries@.len() && lies_below(
                #[trigger] entries@[k],
                path_below(dir, rows@[r].name@),
            ),
        rows@[r].is_dir ==> rows@[r].size == 0 && rows@[r].permissions == Some(0o755u32),
        !rows@[r].is_dir ==> rows@[r].permissions is None && exists|k: int|
            0 <= k < entries@.len() && stands_at(
                #[trigger] entries@[k],
                path_below(dir, rows@[r].name@),
            ) && rows@[r].size == entries@[k].size && forall|j: int|
                0 <= j < k ==> !stands_at(#[trigger] entries@[j], path_below(dir, rows@[r].name@)),
        rows@[r].modified == 0,
        rows@[r].extra@.len() == 0,
        forall|s: int|
            r < s < rows@.len() ==> comes_first(
                encode_utf8(rows@[r].name@),
                encode_utf8((#[trigger] rows@[s]).name@),
            ),
{
    let children = children_of(entries@, dir);
    let all = rows_of(rows@);
    let name = rows@[r].name@;
    let place = path_below(dir, name);
    assert(all[r] == rows@[r]@);
    assert(all[r].extra.len() == rows@[r].extra@.len());
    assert(shows(children, name));
    assert forall|k: int| 0 <= k < entries@.len() implies (#[trigger] children[k]) == child_of(
        entries@[k].path@,
        entries@[k].size,
        dir,
    ) by {}
    if has_dir(children, name) {
        let k = choose|k: int| 0 <= k < children.len() && #[trigger] children[k] == Child::Dir(name);
        lemma_file_forward(entries@[k], dir, name);
        assert(lies_below(entries@[k], place));
    } else {
        let f = choose|f: int|
            0 <= f < children.len() && (#[trigger] children[f]) is File && children[f]->File_0
                == name;
        lemma_file_forward(entries@[f], dir, name);
        assert forall|k: int| 0 <= k < entries@.len() implies !lies_below(
            #[trigger] entries@[k],
            place,
        ) by {
            lemma_file_back(entries@[k], dir, name);
            if lies_below(entries@[k], place) {
                assert(children[k] == Child::Dir(name));
            }
        }
        let k = lemma_first_file(entries@, place, f);
        lemma_file_back(entries@[k], dir, name);
        assert forall|j: int| 0 <= j < k implies !((#[trigger] children[j]) is File
            && children[j]->File_0 == name) by {
            lemma_file_forward(entries@[j], dir, name);
        }
        lemma_first_size(children, name, k);
        assert(stands_at(entries@[k], place));
    }
    assert forall|s: int| r < s < rows@.len() implies comes_first(
        encode_utf8(name),
        encode_utf8((#[trigger] rows@[s]).name@),
    ) by {
        assert(all[s] == rows@[s]@);
        assert(name_before(all[r].name, all[s].name));
        names_are_ordered_by_their_bytes(name, rows@[s].name@);
    }
}

proof fn lemma_first_file(entries: Seq<TorrentEntry>, path: Seq<char>, f: int) -> (k: int)
    requires
        0 <= f < entries.len(),
        stands_at(entries[f], path),
    ensures
        0 <= k <= f,
        stands_at(entries[k], path),
        forall|j: int| 0 <= j < k ==> !stands_at(#[trigger] entries[j], path),
    decreases f,
{
    if exists|j: int| 0 <= j < f && stands_at(#[trigger] entries[j], path) {
        let j = choose|j: int| 0 <= j < f && stands_at(#[trigger] entries[j], path);
        lemma_first_file(entries, path, j)
    } else {
        f
    }
}

/// Every file of a torrent is listed in the directory above it, and so is every directory on the
/// way to it.
pub proof fn every_file_has_a_row(
    entries: &[TorrentEntry],
    internal_dir: &str,
    rows: Vec<RemoteFileEntry>,
    dir: Seq<char>,
    name: Seq<char>,
    k: int,
)
    requires
        call_ensures(list_level, (entries, internal_dir), rows),
        dir == trimmed(slash_form(internal_dir@)),
        name.len() > 0,
        !name.contains('/'),
        0 <= k < entries@.len(),
        stands_at(entries@[k], path_below(dir, name)) || lies_below(
            entries@[k],
            path_below(dir, name),
        ),
    ensures
        exists|r: int| 0 <= r < rows@.len() && (#[trigger] rows@[r]).name@ == name,
{
    let children = children_of(entries@, dir);
    lemma_file_back(entries@[k], dir, name);
    assert(children[k] == child_of(entries@[k].path@, entries@[k].size, dir));
    assert(shows(children, name));
    let all = rows_of(rows@);
    let r = choose|r: int| 0 <= r < all.len() && (#[trigger] all[r]).name == name;
    assert(all[r] == rows@[r]@);
    assert(rows@[r].name@ == name);
}

/// Parts of a path, with a slash between each and the next.
pub open spec fn path_of_parts(parts: Seq<Seq<char>>) -> Seq<char>
    decreases parts.len(),
{
    if parts.len() == 0 {
        Seq::empty()
    } else if parts.len() == 1 {
        parts[0]
    } else {
        parts[0] + seq!['/'] + path_of_parts(parts.drop_first())
    }
}

proof fn lemma_path_of_parts(parts: Seq<Seq<char>>)
    ensures
        slash_joined(parts) == path_of_parts(parts),
    decreases parts.len(),
{
    if parts.len() == 2 {
        assert(parts.drop_last() =~= seq![parts[0]]);
        assert(parts.drop_first() =~= seq![parts[1]]);
        assert(slash_joined(parts.drop_last()) == parts[0]);
        assert(path_of_parts(parts.drop_first()) == parts[1]);
    } else if parts.len() > 2 {
        let inner = parts.drop_first();
        let outer = parts.drop_last();
        lemma_path_of_parts(inner);
        lemma_path_of_parts(outer);
        lemma_path_of_parts(inner.drop_last());
        assert(inner.drop_last() =~= outer.drop_first());
        assert(slash_joined(parts) =~= path_of_parts(parts));
    }
}

/// Whether a file of a torrent is shown: it is no padding, and has a path.
pub open spec fn is_shown(file: FileDetail) -> bool {
    !file.padding && (file.parts matches Ok(parts) && path_of_parts(
        parts@.map_values(|t: String| t@),
    ).len() > 0)
}

/// Whether `places` are those of the files that are shown.
pub open spec fn are_shown_places(places: Seq<int>, files: Seq<FileDetail>) -> bool {
    are_places_of(places, files.len(), |k: int| is_shown(files[k]))
}

proof fn lemma_shown_places(files: Seq<FileDetail>) -> (places: Seq<int>)
    ensures
        are_shown_places(places, files),
        places.len() == shown_files(files.map_values(|f: FileDetail| f@)).len(),
        forall|a: int|
            0 <= a < places.len() ==> {
                let shown = shown_files(files.map_values(|f: FileDetail| f@))[a];
                &&& shown.id == #[trigger] places[a]
                &&& shown.size == files[places[a]].len
                &&& shown.path == path_of_parts(
                    files[places[a]].parts->Ok_0@.map_values(|t: String| t@),
                )
            },
    decreases files.len(),
{
    let models = files.map_values(|f: FileDetail| f@);
    if files.len() == 0 {
        Seq::empty()
    } else {
        let rest = files.drop_last();
        let last: int = files.len() - 1;
        let before = lemma_shown_places(rest);
        assert(models.drop_last() =~= rest.map_values(|f: FileDetail| f@));
        assert(models.last() == files[last]@);
        if files[last].parts is Ok {
            lemma_path_of_parts(files[last].parts->Ok_0@.map_values(|t: String| t@));
        }
        assert(shown_path(models.last()) is Some <==> is_shown(files[last]));
        let places = if is_shown(files[last]) {
            before.push(last)
        } else {
            before
        };
        let here = |k: int| is_shown(files[k]);
        let there = |k: int| is_shown(rest[k]);
        assert forall|k: int| 0 <= k < files.len() && #[trigger] here(k) implies places.contains(
            k,
        ) by {
            if k < last {
                assert(there(k));
                assert(before.contains(k));
                let a = choose|a: int| 0 <= a < before.len() && before[a] == k;
                assert(places[a] == k);
            } else {
                assert(places[before.len() as int] == k);
            }
        }
        assert forall|a: int| 0 <= a < places.len() implies 0 <= #[trigger] places[a] < files.len()
            && here(places[a]) by {
            if a < before.len() {
                assert(places[a] == before[a]);
                assert(there(before[a]));
                assert(rest[before[a]] == files[before[a]]);
            }
        }
        assert(are_places_of(places, files.len(), here));
        assert forall|a: int| 0 <= a < places.len() implies {
            let shown = shown_files(models)[a];
            &&& shown.id == #[trigger] places[a]
            &&& shown.size == files[places[a]].len
            &&& shown.path == path_of_parts(
                files[places[a]].parts->Ok_0@.map_values(|t: String| t@),
            )
        } by {
            if a < before.len() {
                assert(places[a] == before[a]);
                assert(there(before[a]));
                assert(rest[before[a]] == files[before[a]]);
            }
        }
        places
    }
}

/// The files that a torrent shows are those that are no padding and have a path, in the order in
/// which they are described: each under its place among all files, with its own length, and with a
/// slash between the parts of its path and the next.
pub proof fn a_torrent_shows_its_files_as_described(
    meta: &Metainfo,
    contents: TorrentContents,
    files: Vec<FileDetail>,
)
    requires
        call_ensures(contents_of, (meta,), Ok::<TorrentContents, AppError>(contents)),
        meta.files == Ok::<Vec<FileDetail>, String>(files),
    ensures
        exists|places: Seq<int>| #[trigger]
            are_shown_places(places, files@) && contents.entries@.len() == places.len()
                && forall|a: int|
                0 <= a < places.len() ==> {
                    &&& contents.entries@[a].id == #[trigger] places[a]
                    &&& contents.entries@[a].size == files@[places[a]].len
                    &&& contents.entries@[a].path@ == path_of_parts(
                        files@[places[a]].parts->Ok_0@.map_values(|t: String| t@),
                    )
                },
{
    let places = lemma_shown_places(files@);
    let models = models_of(contents.entries@);
    assert(models.len() == contents.entries@.len());
    assert forall|a: int| 0 <= a < places.len() implies {
        &&& contents.entries@[a].id == #[trigger] places[a]
        &&& contents.entries@[a].size == files@[places[a]].len
        &&& contents.entries@[a].path@ == path_of_parts(
            files@[places[a]].parts->Ok_0@.map_values(|t: String| t@),
        )
    } by {
        assert(models[a] == contents.entries@[a]@);
    }
}

/// Whether a file of a torrent that is no padding has a path that cannot be read.
pub open spec fn has_bad_name(file: FileDetail) -> bool {
    !file.padding && file.parts is Err
}

proof fn lemma_first_unreadable(files: Seq<FileDetail>)
    ensures
        first_unreadable(files.map_values(|f: FileDetail| f@)) is None ==> forall|k: int|
            0 <= k < files.len() ==> !has_bad_name(#[trigger] files[k]),
        first_unreadable(files.map_values(|f: FileDetail| f@)) matches Some(text) ==> exists|k: int|
            0 <= k < files.len() && has_bad_name(#[trigger] files[k]) && files[k].parts->Err_0@
                == text && forall|j: int| 0 <= j < k ==> !has_bad_name(#[trigger] files[j]),
    decreases files.len(),
{
    let models = files.map_values(|f: FileDetail| f@);
    if files.len() > 0 {
        let rest = files.drop_last();
        let last: int = files.len() - 1;
        lemma_first_unreadable(rest);
        assert(models.drop_last() =~= rest.map_values(|f: FileDetail| f@));
        assert(models.last() == files[last]@);
        assert forall|j: int| 0 <= j < last implies files[j] == #[trigger] rest[j] by {}
        if first_unreadable(models.drop_last()) is Some {
            let text = first_unreadable(models)->Some_0;
            let k = choose|k: int|
                0 <= k < rest.len() && has_bad_name(#[trigger] rest[k]) && rest[k].parts->Err_0@
                    == text && forall|j: int| 0 <= j < k ==> !has_bad_name(#[trigger] rest[j]);
            assert(has_bad_name(files[k]));
            assert forall|j: int| 0 <= j < k implies !has_bad_name(#[trigger] files[j]) by {
                assert(!has_bad_name(rest[j]));
            }
        } else {
            assert forall|j: int| 0 <= j < last implies !has_bad_name(#[trigger] files[j]) by {
                assert(!has_bad_name(rest[j]));
            }
            if has_bad_name(files[last]) {
                assert(first_unreadable(models) == Some(files[last].parts->Err_0@));
            }
        }
    }
}

/// A torrent is refused where its files are not described, or where a file that is no padding has
/// a path that cannot be read, with the reason of the first one; any other is read.
pub proof fn a_torrent_is_refused_for_its_first_bad_name(
    meta: &Metainfo,
    result: Result<TorrentContents, AppError>,
)
    requires
        call_ensures(contents_of, (meta,), result),
    ensures
        meta.files matches Err(text) ==> (result matches Err(AppError::Other(reason)) && text@
            .is_suffix_of(reason@)),
        meta.files matches Ok(files) ==> (result is Ok <==> forall|k: int|
            0 <= k < files@.len() ==> !has_bad_name(#[trigger] files@[k])),
        meta.files matches Ok(files) ==> (result matches Err(e) ==> exists|k: int|
            0 <= k < files@.len() && has_bad_name(#[trigger] files@[k])
                && files@[k].parts->Err_0@.is_suffix_of(e->Other_0@) && forall|j: int|
                0 <= j < k ==> !has_bad_name(#[trigger] files@[j])),
{
    match meta.files {
        Err(text) => {
            let head = "torrent metadata is unusable: "@;
            assert((head + text@).subrange(
                head.len() as int,
                (head + text@).len() as int,
            ) =~= text@);
        },
        Ok(files) => {
            lemma_first_unreadable(files@);
            let models = files@.map_values(|f: FileDetail| f@);
            if first_unreadable(models) is Some {
                let text = first_unreadable(models)->Some_0;
                let head = "torrent has an unreadable file name: "@;
                assert((head + text).subrange(head.len() as int, (head + text).len() as int)
                    =~= text);
            }
        },
    }
}

proof fn lemma_picked_row(entries: Seq<TorrentEntry>, picked: Seq<bool>, row: Row)
    requires
        picked_rows(entries, picked).contains(row),
    ensures
        exists|i: int|
            0 <= i < entries.len() && picked[i] && (#[trigger] entries[i]).path@ == row.name
                && entries[i].size == row.size,
        !row.is_dir,
    decreases entries.len(),
{
    let before = picked_rows(entries.drop_last(), picked);
    let rows = picked_rows(entries, picked);
    let at = choose|at: int| 0 <= at < rows.len() && rows[at] == row;
    if at < before.len() {
        assert(before[at] == row);
        lemma_picked_row(entries.drop_last(), picked, row);
        let rest = entries.drop_last();
        let i = choose|i: int|
            0 <= i < rest.len() && picked[i] && (#[trigger] rest[i]).path@ == row.name
                && rest[i].size == row.size;
        assert(entries[i] == rest[i]);
    } else {
        assert(entries[entries.len() - 1] == entries.last());
    }
}

proof fn lemma_row_of_picked(entries: Seq<TorrentEntry>, picked: Seq<bool>, i: int) -> (at: int)
    requires
        0 <= i < entries.len(),
        picked[i],
    ensures
        0 <= at < picked_rows(entries, picked).len(),
        picked_rows(entries, picked)[at].name == entries[i].path@,
        picked_rows(entries, picked)[at].size == entries[i].size,
    decreases entries.len(),
{
    if i == entries.len() - 1 {
        picked_rows(entries, picked).len() - 1
    } else {
        assert(entries.drop_last()[i] == entries[i]);
        lemma_row_of_picked(entries.drop_last(), picked, i)
    }
}

proof fn lemma_all_picked(entries: Seq<TorrentEntry>, picked: Seq<bool>)
    requires
        forall|i: int| 0 <= i < entries.len() ==> #[trigger] picked[i],
    ensures
        picked_rows(entries, picked).len() == entries.len(),
    decreases entries.len(),
{
    if entries.len() > 0 {
        assert(picked[entries.len() - 1]);
        lemma_all_picked(entries.drop_last(), picked);
    }
}

/// What is listed as downloaded is there in full: no row stands for a file of which the torrent
/// never tells as many bytes as it has, each has the path and the size of its file, and a file of
/// which it always tells as many is listed.
pub proof fn only_whole_files_are_listed_as_downloaded(
    rpc: &TorrentFileSystemRpc,
    engine: &Engine,
    path: &str,
    rows: Vec<RemoteFileEntry>,
)
    requires
        call_ensures(TorrentFileSystemRpc::list_dir, (rpc, engine, path), rows),
        rpc.contents is Some,
        rpc.view is Downloaded,
    ensures
        forall|r: int|
            0 <= r < rows@.len() ==> !(#[trigger] rows@[r]).is_dir && exists|i: int|
                0 <= i < rpc.files().len() && (#[trigger] rpc.files()[i]).path@ == rows@[r].name@
                    && rpc.files()[i].size == rows@[r].size && !never_whole(
                    engine,
                    rpc.relative_path_in_parent@,
                    rpc.files()[i].id,
                    rpc.files()[i].size,
                ),
        engine@.torrents.contains_key(rpc.relative_path_in_parent@) ==> forall|i: int|
            #![trigger rpc.files()[i]]
            0 <= i < rpc.files().len() && always_whole(
                engine,
                rpc.relative_path_in_parent@,
                rpc.files()[i].id,
                rpc.files()[i].size,
            ) ==> exists|r: int|
                0 <= r < rows@.len() && (#[trigger] rows@[r]).name@ == rpc.files()[i].path@
                    && rows@[r].size == rpc.files()[i].size,
        engine@.torrents.contains_key(rpc.relative_path_in_parent@) && (forall|i: int|
            #![trigger rpc.files()[i]]
            0 <= i < rpc.files().len() ==> always_whole(
                engine,
                rpc.relative_path_in_parent@,
                rpc.files()[i].id,
                rpc.files()[i].size,
            )) ==> rows@.len() == rpc.files().len(),
        !engine@.torrents.contains_key(rpc.relative_path_in_parent@) ==> rows@.len() == 0,
        forall|r: int, s: int|
            0 <= r < s < rows@.len() ==> (#[trigger] rows@[r]).name@ == (
            #[trigger] rows@[s]).name@ || comes_first(
                encode_utf8(rows@[r].name@),
                encode_utf8(rows@[s].name@),
            ),
{
    let torrent = rpc.relative_path_in_parent@;
    let files = rpc.files();
    let picked = choose|picked: Seq<bool>| #[trigger]
        is_picked_listing(rows@, files, picked) && picked.len() == files.len() && forall|i: int|
            0 <= i < picked.len() ==> engine@.can_answer_complete(
                torrent,
                files[i].id,
                files[i].size,
                #[trigger] picked[i],
            );
    let unsorted = choose|unsorted: Seq<RemoteFileEntry>|
        #![trigger rows_of(unsorted)]
        crate::order::is_stable_sort(rows@, unsorted) && rows_of(unsorted) == picked_rows(
            files,
            picked,
        );
    let models = rows_of(unsorted);
    assert(models.len() == unsorted.len());
    if engine@.torrents.contains_key(torrent) && (forall|i: int|
        #![trigger files[i]]
        0 <= i < files.len() ==> always_whole(engine, torrent, files[i].id, files[i].size)) {
        assert forall|i: int| 0 <= i < files.len() implies #[trigger] picked[i] by {
            assert(engine@.can_answer_complete(torrent, files[i].id, files[i].size, picked[i]));
            assert(always_whole(engine, torrent, files[i].id, files[i].size));
        }
        lemma_all_picked(files, picked);
    }
    assert forall|r: int| 0 <= r < rows@.len() implies !(#[trigger] rows@[r]).is_dir && exists|
        i: int,
    |
        0 <= i < files.len() && (#[trigger] files[i]).path@ == rows@[r].name@ && files[i].size
            == rows@[r].size && !never_whole(engine, torrent, files[i].id, files[i].size) by {
        let row = rows@[r];
        lemma_stable_sort_same_rows(rows@, unsorted, row);
        assert(rows@.contains(row));
        let at = choose|at: int| 0 <= at < unsorted.len() && unsorted[at] == row;
        assert(models[at] == row@);
        lemma_picked_row(files, picked, row@);
        let i = choose|i: int|
            0 <= i < files.len() && picked[i] && (#[trigger] files[i]).path@ == row@.name
                && files[i].size == row@.size;
        assert(engine@.can_answer_complete(torrent, files[i].id, files[i].size, picked[i]));
        assert(!never_whole(engine, torrent, files[i].id, files[i].size));
    }
    if engine@.torrents.contains_key(torrent) {
        assert forall|i: int|
            #![trigger files[i]]
            0 <= i < files.len() && always_whole(engine, torrent, files[i].id, files[i].size) implies exists|
            r: int,
        |
            0 <= r < rows@.len() && (#[trigger] rows@[r]).name@ == files[i].path@ && rows@[r].size
                == files[i].size by {
            assert(engine@.can_answer_complete(torrent, files[i].id, files[i].size, picked[i]));
            assert(picked[i]);
            let at = lemma_row_of_picked(files, picked, i);
            assert(models[at] == unsorted[at]@);
            let row = unsorted[at];
            assert(unsorted.contains(row));
            lemma_stable_sort_same_rows(rows@, unsorted, row);
            let r = choose|r: int| 0 <= r < rows@.len() && rows@[r] == row;
            assert(rows@[r].name@ == files[i].path@);
        }
    } else {
        if rows@.len() > 0 {
            let row = rows@[0];
            assert(rows@.contains(row));
            lemma_stable_sort_same_rows(rows@, unsorted, row);
            let at = choose|at: int| 0 <= at < unsorted.len() && unsorted[at] == row;
            assert(models[at] == row@);
            lemma_picked_row(files, picked, row@);
            let i = choose|i: int|
                0 <= i < files.len() && picked[i] && (#[trigger] files[i]).path@ == row@.name
                    && files[i].size == row@.size;
            assert(engine@.can_answer_complete(torrent, files[i].id, files[i].size, picked[i]));
        }
    }
    assert forall|r: int, s: int| 0 <= r < s < rows@.len() implies (#[trigger] rows@[r]).name@ == (
    #[trigger] rows@[s]).name@ || comes_first(
        encode_utf8(rows@[r].name@),
        encode_utf8(rows@[s].name@),
    ) by {
        assert(!name_before(rows@[s].key(), rows@[r].key()));
        crate::order::name_order_is_total(rows@[r].name@, rows@[s].name@);
        if rows@[r].name@ != rows@[s].name@ {
            names_are_ordered_by_their_bytes(rows@[r].name@, rows@[s].name@);
        }
    }
}

/// A file of a torrent is handed out when it is there in full, and refused before.
pub proof fn a_file_that_lacks_bytes_is_not_read(
    rpc: &TorrentFileSystemRpc,
    engine: &Engine,
    path: &str,
    result: Result<String, AppError>,
    i: int,
)
    requires
        call_ensures(TorrentFileSystemRpc::read_file, (rpc, engine, path), result),
        rpc.contents is Some,
        0 <= i < rpc.files().len(),
        rpc.files()[i].path@ == trimmed(slash_form(path@)),
        forall|j: int|
            0 <= j < i ==> (#[trigger] rpc.files()[j]).path@ != trimmed(slash_form(path@)),
    ensures
        !engine@.torrents.contains_key(rpc.relative_path_in_parent@) ==> result is Err,
        never_whole(
            engine,
            rpc.relative_path_in_parent@,
            rpc.files()[i].id,
            rpc.files()[i].size,
        ) ==> result is Err,
        engine@.torrents.contains_key(rpc.relative_path_in_parent@) && always_whole(
            engine,
            rpc.relative_path_in_parent@,
            rpc.files()[i].id,
            rpc.files()[i].size,
        ) ==> result is Ok,
        result matches Err(e) ==> (e matches AppError::Other(reason) && reason@
            == "this file has not been downloaded yet"@),
{
    assert(crate::torrent_rpc::is_first_file(rpc.files(), trimmed(slash_form(path@)), i));
}

/// What is not in a torrent is not read.
pub proof fn a_file_that_is_not_in_the_torrent_is_not_read(
    rpc: &TorrentFileSystemRpc,
    engine: &Engine,
    path: &str,
    result: Result<String, AppError>,
)
    requires
        call_ensures(TorrentFileSystemRpc::read_file, (rpc, engine, path), result),
        rpc.contents is Some,
        forall|j: int|
            0 <= j < rpc.files().len() ==> (#[trigger] rpc.files()[j]).path@ != trimmed(
                slash_form(path@),
            ),
    ensures
        result matches Err(AppError::Other(reason)) && reason@ == "no such file in this torrent"@,
{
}

/// A file that is handed out is the one in the data folder under its own path, on a machine whose
/// paths have slashes.
pub proof fn a_file_is_read_from_the_data_folder(
    rpc: &TorrentFileSystemRpc,
    engine: &Engine,
    path: &str,
    on_disk: String,
    i: int,
)
    requires
        call_ensures(
            TorrentFileSystemRpc::read_file,
            (rpc, engine, path),
            Ok::<String, AppError>(on_disk),
        ),
        rpc.contents is Some,
        forall|separator: char| #[trigger] is_separator(separator) ==> separator == '/',
        0 <= i < rpc.files().len(),
        rpc.files()[i].path@ == trimmed(slash_form(path@)),
    ensures
        on_disk@ == rpc.relative_path_in_parent@ + "-data"@ + seq!['/'] + rpc.files()[i].path@,
{
    let file = rpc.files()[i].path@;
    assert(!crate::torrent_rpc::no_file(rpc.files(), file));
    lemma_no_outer_slash(path@);
    downloaded_files_are_kept_in_the_data_folder(rpc.relative_path_in_parent@, file, on_disk@);
}

proof fn lemma_no_outer_slash(path: Seq<char>)
    ensures
        trimmed(slash_form(path)).len() > 0 ==> trimmed(slash_form(path))[0] != '/',
{
    lemma_trimmed(slash_form(path));
}

/// A torrent has the name that its file gives it, where that is written in UTF-8, and none where
/// the file gives none.
pub proof fn a_torrent_has_the_name_that_is_written(meta: &Metainfo, contents: TorrentContents)
    requires
        call_ensures(contents_of, (meta,), Ok::<TorrentContents, AppError>(contents)),
    ensures
        meta.name is None ==> contents.name@.len() == 0,
        meta.name matches Some(name) ==> contents.name@ == lossy_text(name@) && (valid_utf8(name@)
            ==> encode_utf8(contents.name@) == name@),
{
    if let Some(name) = meta.name {
        if valid_utf8(name@) {
            decode_utf8_encode_utf8(name@);
        }
    }
}

/// Every peer has a row, in the order of the peers: its address, and the bytes that came from it.
pub proof fn every_peer_has_a_row(peers: &[PeerRow], rows: Vec<RemoteFileEntry>)
    requires
        call_ensures(peer_rows, (peers,), rows),
    ensures
        rows@.len() == peers@.len(),
        forall|i: int|
            #![trigger peers@[i]]
            0 <= i < peers@.len() ==> rows@[i].name@ == peers@[i].addr@ && rows@[i].size
                == peers@[i].fetched_bytes && !rows@[i].is_dir && rows@[i].modified == 0
                && rows@[i].permissions is None,
{
    let all = rows_of(rows@);
    assert(all.len() == rows@.len());
    assert forall|i: int| #![trigger peers@[i]] 0 <= i < peers@.len() implies rows@[i].name@
        == peers@[i].addr@ && rows@[i].size == peers@[i].fetched_bytes && !rows@[i].is_dir
        && rows@[i].modified == 0 && rows@[i].permissions is None by {
        assert(all[i] == rows@[i]@);
    }
}

/// Where the view shows peers, every peer that the torrent answers with has one row, ordered by
/// the bytes of the addresses, and no row stands for another peer.
pub proof fn the_peers_of_a_torrent_are_listed(
    rpc: &TorrentFileSystemRpc,
    engine: &Engine,
    path: &str,
    rows: Vec<RemoteFileEntry>,
)
    requires
        call_ensures(TorrentFileSystemRpc::list_dir, (rpc, engine, path), rows),
        rpc.contents is Some,
        rpc.view is Peers,
        engine@.torrents.contains_key(rpc.relative_path_in_parent@),
    ensures
        exists|found: Vec<PeerRow>| #[trigger]
            is_connected_to(engine@.torrents[rpc.relative_path_in_parent@].handle, found)
                && are_rows_of_peers(rows@, found@),
        forall|r: int, s: int|
            0 <= r < s < rows@.len() ==> comes_first(
                encode_utf8((#[trigger] rows@[r]).name@),
                encode_utf8((#[trigger] rows@[s]).name@),
            ),
{
    let torrent = rpc.relative_path_in_parent@;
    let sorted = choose|sorted: Seq<PeerRow>| #[trigger]
        engine@.can_answer_peers(torrent, sorted) && crate::order::in_strict_name_order(sorted)
            && rows_of(rows@) == sorted.map_values(|p: PeerRow| crate::torrent_rpc::peer_row(p));
    let found = choose|found: Vec<PeerRow>| #[trigger]
        is_connected_to(engine@.torrents[torrent].handle, found) && crate::order::is_stable_sort(
            sorted,
            found@,
        );
    let all = rows_of(rows@);
    assert(all.len() == rows@.len());
    assert(all.len() == sorted.len());
    assert forall|r: int| 0 <= r < rows@.len() implies (#[trigger] rows@[r]).name@
        == sorted[r].addr@ && rows@[r].size == sorted[r].fetched_bytes by {
        assert(all[r] == rows@[r]@);
    }
    assert forall|r: int| 0 <= r < rows@.len() implies has_peer(#[trigger] rows@[r], found@) by {
        let peer = sorted[r];
        assert(sorted.contains(peer));
        lemma_stable_sort_same_rows(sorted, found@, peer);
        let k = choose|k: int| 0 <= k < found@.len() && found@[k] == peer;
        assert(is_row_of_peer(rows@[r], found@[k]));
    }
    assert forall|k: int| 0 <= k < found@.len() implies has_row(#[trigger] found@[k], rows@) by {
        let peer = found@[k];
        assert(found@.contains(peer));
        lemma_stable_sort_same_rows(sorted, found@, peer);
        let r = choose|r: int| 0 <= r < sorted.len() && sorted[r] == peer;
        assert(is_row_of_peer(rows@[r], found@[k]));
    }
    assert(are_rows_of_peers(rows@, found@));
    assert forall|r: int, s: int| 0 <= r < s < rows@.len() implies comes_first(
        encode_utf8((#[trigger] rows@[r]).name@),
        encode_utf8((#[trigger] rows@[s]).name@),
    ) by {
        assert(name_before(sorted[r].key(), sorted[s].key()));
        names_are_ordered_by_their_bytes(rows@[r].name@, rows@[s].name@);
    }
}

/// Whether a row stands for a peer.
pub open spec fn is_row_of_peer(row: RemoteFileEntry, peer: PeerRow) -> bool {
    row.name@ == peer.addr@ && row.size == peer.fetched_bytes
}

/// Whether some peer has that row.
pub open spec fn has_peer(row: RemoteFileEntry, peers: Seq<PeerRow>) -> bool {
    exists|k: int| 0 <= k < peers.len() && is_row_of_peer(row, #[trigger] peers[k])
}

/// Whether a peer has some row.
pub open spec fn has_row(peer: PeerRow, rows: Seq<RemoteFileEntry>) -> bool {
    exists|r: int| 0 <= r < rows.len() && is_row_of_peer(#[trigger] rows[r], peer)
}

/// Whether every row stands for a peer and every peer has a row.
pub open spec fn are_rows_of_peers(rows: Seq<RemoteFileEntry>, peers: Seq<PeerRow>) -> bool {
    &&& forall|r: int| 0 <= r < rows.len() ==> has_peer(#[trigger] rows[r], peers)
    &&& forall|k: int| 0 <= k < peers.len() ==> has_row(#[trigger] peers[k], rows)
}

/// A card begins with the address, the state and the bytes that came from the peer, and ends with
/// the pieces that were checked and the errors, each under its heading and on a line of its own.
pub proof fn a_card_tells_of_its_peer(row: &PeerRow, card: String)
    requires
        call_ensures(peer_card, (row,), card),
    ensures
        ("address: "@ + row.addr@ + "\nstate: "@ + row.state@ + "\nfetched bytes: "@ + decimal(
            row.fetched_bytes as nat,
        )).is_prefix_of(card@),
        ("\nchecked pieces: "@ + decimal(row.pieces as nat) + "\nerrors: "@ + decimal(
            row.errors as nat,
        ) + "\n"@).is_suffix_of(card@),
        card@.len() == ("address: "@ + row.addr@ + "\nstate: "@ + row.state@ + "\nfetched bytes: "@
            + decimal(row.fetched_bytes as nat)).len() + ("\nchecked pieces: "@ + decimal(
            row.pieces as nat,
        ) + "\nerrors: "@ + decimal(row.errors as nat) + "\n"@).len(),
{
    let start = "address: "@ + row.addr@ + "\nstate: "@ + row.state@ + "\nfetched bytes: "@ + decimal(
        row.fetched_bytes as nat,
    );
    let rest = "\nchecked pieces: "@ + decimal(row.pieces as nat) + "\nerrors: "@ + decimal(
        row.errors as nat,
    ) + "\n"@;
    assert(card@ =~= start + rest);
    assert(card@.subrange(0, start.len() as int) =~= start);
    assert(card@.subrange(start.len() as int, card@.len() as int) =~= rest);
}

/// Reading a peer gives the card of the first peer whose address the path names, and a refusal
/// where none has it.
pub proof fn a_peer_is_read_by_its_address(
    peers: &[PeerRow],
    path: &str,
    result: Result<Vec<u8>, AppError>,
)
    requires
        call_ensures(read_peer, (peers, path), result),
    ensures
        (forall|k: int|
            0 <= k < peers@.len() ==> (#[trigger] peers@[k]).addr@ != trimmed(slash_form(path@)))
            <==> result is Err,
        result matches Err(e) ==> (e matches AppError::Other(reason) && reason@
            == "this peer is no longer connected"@),
        forall|i: int, card: String|
            #![trigger peers@[i], call_ensures(peer_card, (&peers@[i],), card)]
            0 <= i < peers@.len() && peers@[i].addr@ == trimmed(slash_form(path@)) && (forall|k: int|
                0 <= k < i ==> (#[trigger] peers@[k]).addr@ != trimmed(slash_form(path@)))
                && call_ensures(peer_card, (&peers@[i],), card) ==> (result matches Ok(bytes)
                && bytes@ == encode_utf8(card@)),
{
    let wanted = trimmed(slash_form(path@));
    if let Ok(bytes) = result {
        let f = choose|f: int| #[trigger]
            crate::torrent_rpc::is_first_peer(peers@, wanted, f) && bytes@ == encode_utf8(
                crate::torrent_session::peer_card_text(peers@[f]),
            );
        assert(peers@[f].addr@ == wanted);
        assert forall|i: int, card: String|
            #![trigger peers@[i], call_ensures(peer_card, (&peers@[i],), card)]
            0 <= i < peers@.len() && peers@[i].addr@ == wanted && (forall|k: int|
                0 <= k < i ==> (#[trigger] peers@[k]).addr@ != wanted) && call_ensures(
                peer_card,
                (&peers@[i],),
                card,
            ) implies bytes@ == encode_utf8(card@) by {
            if i < f {
                assert(peers@[i].addr@ != wanted);
            } else if f < i {
                assert(peers@[f].addr@ != wanted);
            }
        }
    }
}

/// A torrent is at work while it runs or gets ready to, and not while it is paused or has failed.
pub proof fn a_torrent_is_at_work_while_it_runs(state: TorrentStatsState, active: bool)
    requires
        call_ensures(TorrentStatsState::is_active, (state,), active),
    ensures
        active <==> state is Live || state is Initializing,
        state is Paused || state is Error ==> !active,
{
}

/// Whether `places` are those of the torrents at work.
pub open spec fn are_places_at_work(places: Seq<int>, states: Seq<TorrentStatsState>) -> bool {
    are_places_of(places, states.len(), |k: int| states[k] is Live || states[k] is Initializing)
}

proof fn lemma_places_at_work(states: Seq<TorrentStatsState>) -> (places: Seq<int>)
    ensures
        are_places_at_work(places, states),
        places.len() == active_count(states),
    decreases states.len(),
{
    if states.len() == 0 {
        Seq::empty()
    } else {
        let rest = states.drop_last();
        let last: int = states.len() - 1;
        let before = lemma_places_at_work(rest);
        let here = |k: int| states[k] is Live || states[k] is Initializing;
        let there = |k: int| rest[k] is Live || rest[k] is Initializing;
        let places = if here(last) {
            before.push(last)
        } else {
            before
        };
        assert forall|k: int| 0 <= k < states.len() && #[trigger] here(k) implies places.contains(
            k,
        ) by {
            if k < last {
                assert(there(k));
                assert(before.contains(k));
                let a = choose|a: int| 0 <= a < before.len() && before[a] == k;
                assert(places[a] == k);
            } else {
                assert(places[before.len() as int] == k);
            }
        }
        assert forall|a: int| 0 <= a < places.len() implies 0 <= #[trigger] places[a] < states.len()
            && here(places[a]) by {
            if a < before.len() {
                assert(places[a] == before[a]);
                assert(there(before[a]));
                assert(rest[before[a]] == states[before[a]]);
            }
        }
        assert(are_places_of(places, states.len(), here));
        places
    }
}

/// The activity that is shown is the number of torrents at work, and nothing where none is.
pub proof fn the_torrents_at_work_are_counted(
    states: &[TorrentStatsState],
    torrents: Option<usize>,
)
    requires
        call_ensures(activity_of, (states,), torrents),
    ensures
        exists|places: Seq<int>| #[trigger]
            are_places_at_work(places, states@) && match torrents {
                Some(n) => n == places.len() && n > 0,
                None => places.len() == 0,
            },
{
    let places = lemma_places_at_work(states@);
    assert(are_places_at_work(places, states@));
}

/// A panel that opens a torrent is counted once, one that leaves it is taken off once, down to
/// nobody. The other torrents keep their counts, and whatever is open keeps running.
pub proof fn panels_are_counted_one_by_one(
    engine: EngineState,
    torrent_path: Seq<char>,
    other: Seq<char>,
)
    requires
        engine.open_count(torrent_path) < usize::MAX,
        other != torrent_path,
    ensures
        engine.acquired(torrent_path).open_count(torrent_path) == engine.open_count(torrent_path)
            + 1,
        engine.released(torrent_path).open_count(torrent_path) == (if engine.open_count(
            torrent_path,
        ) == 0 {
            0
        } else {
            engine.open_count(torrent_path) - 1
        }),
        engine.acquired(torrent_path).open_count(other) == engine.open_count(other),
        engine.released(torrent_path).open_count(other) == engine.open_count(other),
        engine.acquired(torrent_path).torrents == engine.torrents,
        engine.released(torrent_path).torrents == engine.torrents,
        engine.acquired(torrent_path).session == engine.session,
        engine.released(torrent_path).session == engine.session,
{
}

/// A torrent that was started runs under its id and handle, one that was forgotten does not run,
/// and neither touches another torrent or who has which torrent open.
pub proof fn only_the_named_torrent_is_started_or_forgotten(
    engine: EngineState,
    torrent_path: Seq<char>,
    id: usize,
    handle: Arc<librqbit::ManagedTorrent>,
    other: Seq<char>,
)
    requires
        other != torrent_path,
    ensures
        ({
            let started = engine.started(torrent_path, id, handle);
            &&& started.torrents.contains_key(torrent_path)
            &&& started.torrents[torrent_path].id == id
            &&& started.torrents[torrent_path].handle == handle
            &&& started.torrents.contains_key(other) == engine.torrents.contains_key(other)
            &&& engine.torrents.contains_key(other) ==> started.torrents[other]
                == engine.torrents[other]
            &&& started.refs == engine.refs
            &&& started.session == engine.session
            &&& started.seeding == engine.seeding
        }),
        ({
            let forgotten = engine.forgotten(torrent_path);
            &&& !forgotten.torrents.contains_key(torrent_path)
            &&& forgotten.torrents.contains_key(other) == engine.torrents.contains_key(other)
            &&& engine.torrents.contains_key(other) ==> forgotten.torrents[other]
                == engine.torrents[other]
            &&& forgotten.refs == engine.refs
            &&& forgotten.session == engine.session
            &&& forgotten.seeding == engine.seeding
        }),
        engine.refs.contains_key(torrent_path) ==> engine.closed_if_unused(torrent_path) == engine,
        !engine.refs.contains_key(torrent_path) ==> !engine.closed_if_unused(
            torrent_path,
        ).torrents.contains_key(torrent_path),
{
}

/// A torrent that is to pause is done when it is paused and asked again when it is not, until it
/// was asked often enough: it is given up with the last reason then.
pub proof fn a_torrent_is_asked_to_pause_until_it_is(
    attempts: &StopAttempts,
    paused: bool,
    action: StopAction,
)
    requires
        call_ensures(StopAttempts::action, (attempts, paused), action),
    ensures
        attempts.failed < 30 && paused ==> action is Finished,
        attempts.failed < 30 && !paused ==> action is Pause,
        attempts.failed >= 30 ==> (action matches StopAction::GiveUp(AppError::Other(text)) && (
        attempts.last matches Some(reason) ==> text@ == "could not pause the torrent"@ + ": "@
            + reason@)),
{
}

/// The torrents that count as at work are those that answered so: they run or get ready to.
pub proof fn torrents_at_work_have_said_so(answers: Map<Seq<char>, TorrentStats>, path: Seq<char>)
    ensures
        at_work(answers).contains(path) <==> answers.contains_key(path) && (answers[path].state
            is Live || answers[path].state is Initializing),
{
}

/// A torrent that is asked whether it is at work answers by its state; one that is not open is not.
pub proof fn a_torrent_answers_by_its_state(engine: &Engine, torrent_path: &str, active: bool)
    requires
        call_ensures(is_active, (engine, torrent_path), active),
    ensures
        !engine@.torrents.contains_key(torrent_path@) ==> !active,
        engine@.torrents.contains_key(torrent_path@) && (forall|s: TorrentStats| #[trigger]
            reports(engine@.torrents[torrent_path@].handle, s) ==> s.state is Live || s.state
                is Initializing) ==> active,
        engine@.torrents.contains_key(torrent_path@) && (forall|s: TorrentStats| #[trigger]
            reports(engine@.torrents[torrent_path@].handle, s) ==> s.state is Paused || s.state
                is Error) ==> !active,
{
}

/// The folder and the files of a torrent have its path with an ending of their own.
pub proof fn what_belongs_to_a_torrent_is_named_after_it(
    torrent_path: &str,
    folder: String,
    state: String,
    temp: String,
)
    requires
        call_ensures(data_dir_for, (torrent_path,), folder),
        call_ensures(state_file_for, (torrent_path,), state),
        call_ensures(state_temp_file_for, (torrent_path,), temp),
    ensures
        torrent_path@.is_prefix_of(folder@),
        "-data"@.is_suffix_of(folder@),
        folder@.len() == torrent_path@.len() + 5,
        torrent_path@.is_prefix_of(state@),
        "-state.json"@.is_suffix_of(state@),
        state@.len() == torrent_path@.len() + 11,
        temp@ == state@ + ".tmp"@,
{
    reveal_strlit("-data");
    reveal_strlit("-state.json");
    reveal_strlit("-state.json.tmp");
    reveal_strlit(".tmp");
    let n = torrent_path@.len() as int;
    assert(folder@.subrange(0, n) =~= torrent_path@);
    assert(folder@.subrange(n, n + 5) =~= "-data"@);
    assert(state@.subrange(0, n) =~= torrent_path@);
    assert(state@.subrange(n, n + 11) =~= "-state.json"@);
    assert("-state.json.tmp"@ =~= "-state.json"@ + ".tmp"@);
    assert(temp@ =~= state@ + ".tmp"@);
}

/// What a session refuses is told with its reason behind what was to be done.
pub proof fn a_session_is_quoted(
    outcome: Result<(), String>,
    reason: String,
    by_resuming: Result<(), AppError>,
    by_selecting: Result<(), AppError>,
)
    requires
        call_ensures(resumed, (outcome,), by_resuming),
        call_ensures(selection_changed, (outcome,), by_selecting),
        outcome == Err::<(), String>(reason),
    ensures
        by_resuming matches Err(AppError::Other(text)) && text@ == "could not resume the torrent"@
            + ": "@ + reason@,
        by_selecting matches Err(AppError::Other(text)) && text@
            == "could not change the file selection"@ + ": "@ + reason@,
{
}

/// A selection names the files that it holds, and none where there is none.
pub proof fn a_selection_names_its_files(selected: Option<Vec<usize>>)
    ensures
        selected matches Some(files) ==> selected_files(selected) == files@,
        selected is None ==> selected_files(selected).len() == 0,
{
}

/// Bytes that describe no torrent are refused with the reason of the parser.
pub proof fn bytes_that_are_no_torrent_are_refused(
    data: &[u8],
    result: Result<TorrentContents, AppError>,
    text: Seq<char>,
)
    requires
        call_ensures(parse_torrent, (data,), result),
        described(data@) == Err::<MetainfoModel, Seq<char>>(text),
    ensures
        result matches Err(AppError::Other(reason)) && reason@ == "not a valid torrent file: "@
            + text,
{
}

/// Putting peers in order keeps as many of them, loses and adds none, and puts no address
/// behind one with greater bytes.
pub proof fn peers_are_put_in_order(rows: Vec<PeerRow>, ordered: Vec<PeerRow>, peer: PeerRow)
    requires
        call_ensures(ordered_peers, (rows,), ordered),
    ensures
        ordered@.len() == rows@.len(),
        ordered@.contains(peer) <==> rows@.contains(peer),
        forall|r: int, s: int|
            0 <= r < s < ordered@.len() ==> (#[trigger] ordered@[r]).addr@ == (
            #[trigger] ordered@[s]).addr@ || comes_first(
                encode_utf8(ordered@[r].addr@),
                encode_utf8(ordered@[s].addr@),
            ),
{
    lemma_stable_sort_same_rows(ordered@, rows@, peer);
    assert forall|r: int, s: int| 0 <= r < s < ordered@.len() implies (#[trigger] ordered@[r]).addr@
        == (#[trigger] ordered@[s]).addr@ || comes_first(
        encode_utf8(ordered@[r].addr@),
        encode_utf8(ordered@[s].addr@),
    ) by {
        assert(!name_before(ordered@[s].key(), ordered@[r].key()));
        crate::order::name_order_is_total(ordered@[r].addr@, ordered@[s].addr@);
        if ordered@[r].addr@ != ordered@[s].addr@ {
            names_are_ordered_by_their_bytes(ordered@[r].addr@, ordered@[s].addr@);
        }
    }
}

} // verus!
