//! The inside of a zip or tar file as a read-only file system.

use vstd::prelude::*;

use crate::archive_entry::{
    archive_models, found_models, is_named_by_kind, is_outcome, readable, readable_entries,
    ArchiveEntry, ArchiveModel,
};
use crate::listing::{
    has_dir, is_listing, last_size, level_prefix, prefix_of, Child, Level, RowMaker,
};
use crate::rpc::{
    file_name_or, is_name_or, is_root, is_root_path, last_part, last_part_start, new_row, plain_row,
    refusal, rows_of, AppError, RemoteFileEntry, Row,
};
use crate::tar_archive::{
    bunzip2, bunzipped, ends_at_first_failure, entries_of_tar, find_packing, gunzip, gunzipped,
    has_tar_ending, is_tar_format_from_name, list_packed_tar, packed_tar_content,
    packed_tar_listing, packing_of, read_packed_tar, tar_entries, tar_entry, Packing, TarModel,
};
use crate::text::{
    begins_with, chars_of, ends_with, find_slash, has_slash, head, joined, lemma_first_slash_is,
    lossy_text, lowercase, same_text, slash_form, text_between, to_lowercase, trim_start, trimmed,
    with_slashes, without_leading_slashes, without_outer_slashes,
};
use crate::zip_archive::{
    are_zip_entries, find_zip_entries, is_zip_entry, read_zip, zip_content, zip_directory,
    zip_outcome, zip_outcomes, ZipModel,
};

verus! {

/// Whether `result` is a scan of the bytes of an archive.
pub open spec fn is_scan(
    result: Result<Vec<ArchiveEntry>, AppError>,
    data: Seq<u8>,
    is_tar: bool,
) -> bool {
    if is_tar {
        result matches Ok(entries) && archive_models(entries@) == readable(
            tar_entries(packed_tar_listing(data)),
        )
    } else {
        match zip_directory(data) {
            Ok(listed) => result matches Ok(entries) && exists|
                found: Seq<Result<ArchiveModel, Seq<char>>>,
            |
                are_zip_entries(found, zip_outcomes(data, listed)) && archive_models(entries@)
                    == #[trigger] readable(found),
            Err(text) => result matches Err(e) && e.is_other(text),
        }
    }
}

/// The readable members of a tar archive, packed or not. What cannot be read is left out.
pub fn scan_tar_memory(data: &[u8]) -> (result: Result<Vec<ArchiveEntry>, AppError>)
    ensures
        is_scan(result, data@, true),
{
    let found = entries_of_tar(&list_packed_tar(data));
    Ok(readable_entries(&found))
}

/// The readable members of a zip archive. What cannot be read is left out.
pub fn scan_zip_memory(data: &[u8]) -> (result: Result<Vec<ArchiveEntry>, AppError>)
    ensures
        is_scan(result, data@, false),
        result matches Ok(entries) ==> forall|k: int|
            0 <= k < entries@.len() ==> is_named_by_kind(#[trigger] entries@[k]),
{
    match find_zip_entries(data) {
        Ok(found) => Ok(readable_entries(&found)),
        Err(text) => Err(AppError::Other(text)),
    }
}

/// The readable members of an archive.
pub fn scan_archive_from_memory(data: &[u8], _archive_path: &str, is_tar: bool) -> (result: Result<
    Vec<ArchiveEntry>,
    AppError,
>)
    ensures
        is_scan(result, data@, is_tar),
{
    if is_tar {
        scan_tar_memory(data)
    } else {
        scan_zip_memory(data)
    }
}

/// What a search for a member meets at a place of an archive.
pub enum Target {
    Unreadable(Seq<char>),
    Member(Seq<char>, bool),
}

/// What a search comes to.
pub enum Hit {
    At(nat),
    Unreadable(Seq<char>),
    Directory,
    Missing,
}

/// The first member of that name, leading slashes left aside, unless one that cannot be read
/// stands before it.
pub open spec fn search(targets: Seq<Target>, wanted: Seq<char>, from: nat) -> Hit
    decreases targets.len() - from,
{
    if from >= targets.len() {
        Hit::Missing
    } else {
        match targets[from as int] {
            Target::Unreadable(text) => Hit::Unreadable(text),
            Target::Member(name, is_dir) => if trim_start(name) != wanted {
                search(targets, wanted, from + 1)
            } else if is_dir {
                Hit::Directory
            } else {
                Hit::At(from)
            },
        }
    }
}

/// What a search meets in a tar archive.
pub open spec fn tar_targets(listed: Seq<Result<TarModel, Seq<char>>>) -> Seq<Target> {
    listed.map_values(
        |f: Result<TarModel, Seq<char>>|
            match f {
                Ok(m) => Target::Member(slash_form(lossy_text(m.path)), m.is_dir),
                Err(text) => Target::Unreadable(text),
            },
    )
}

/// What a search meets in a zip archive.
pub open spec fn zip_targets(outcomes: Seq<Result<ZipModel, Seq<char>>>) -> Seq<Target> {
    outcomes.map_values(
        |f: Result<ZipModel, Seq<char>>|
            match f {
                Ok(m) => Target::Member(slash_form(m.name), m.is_dir),
                Err(text) => Target::Unreadable(text),
            },
    )
}

/// What a search meets among entries.
pub open spec fn entry_targets(found: Seq<Result<ArchiveModel, Seq<char>>>) -> Seq<Target> {
    found.map_values(
        |f: Result<ArchiveModel, Seq<char>>|
            match f {
                Ok(e) => Target::Member(e.name, e.is_dir),
                Err(text) => Target::Unreadable(text),
            },
    )
}

/// What a search among the members of an archive comes to.
pub enum Found {
    At(usize),
    Unreadable(String),
    Directory,
    Missing,
}

impl View for Found {
    type V = Hit;

    open spec fn view(&self) -> Hit {
        match self {
            Found::At(index) => Hit::At(*index as nat),
            Found::Unreadable(text) => Hit::Unreadable(text@),
            Found::Directory => Hit::Directory,
            Found::Missing => Hit::Missing,
        }
    }
}

/// Looks for the member of a name.
pub fn search_entries(found: &Vec<Result<ArchiveEntry, String>>, wanted: &str) -> (hit: Found)
    ensures
        hit@ == search(entry_targets(found_models(found@)), wanted@, 0),
        hit@ matches Hit::At(index) ==> index < found@.len(),
{
    let ghost targets = entry_targets(found_models(found@));
    let mut i: usize = 0;
    while i < found.len()
        invariant
            i <= found@.len(),
            targets == entry_targets(found_models(found@)),
            search(targets, wanted@, 0) == search(targets, wanted@, i as nat),
        decreases found@.len() - i,
    {
        assert(targets[i as int] == match found@[i as int] {
            Ok(e) => Target::Member(e.name@, e.is_dir),
            Err(text) => Target::Unreadable(text@),
        });
        match &found[i] {
            Ok(entry) => {
                let name = without_leading_slashes(entry.name.as_str());
                if same_text(name.as_str(), wanted) {
                    if entry.is_dir {
                        return Found::Directory;
                    }
                    return Found::At(i);
                }
            },
            Err(text) => {
                return Found::Unreadable(text.clone());
            },
        }
        i += 1;
    }
    Found::Missing
}

/// The name under which a member is looked for.
pub open spec fn wanted_name(internal_file: Seq<char>) -> Seq<char> {
    trim_start(slash_form(internal_file))
}

/// The result of reading the bytes of a member.
pub open spec fn is_content(result: Result<Vec<u8>, AppError>, outcome: Result<Seq<u8>, Seq<char>>) -> bool {
    match outcome {
        Ok(bytes) => result matches Ok(v) && v@ == bytes,
        Err(text) => result matches Err(e) && e.is_io(text),
    }
}

/// Whether `result` is what reading a member of a tar archive gives.
pub open spec fn is_tar_reading(
    result: Result<Vec<u8>, AppError>,
    data: Seq<u8>,
    internal_file: Seq<char>,
) -> bool {
    match search(tar_targets(packed_tar_listing(data)), wanted_name(internal_file), 0) {
        Hit::At(index) => is_content(result, packed_tar_content(data, index)),
        Hit::Unreadable(text) => result matches Err(e) && e.is_io(text),
        Hit::Directory => result matches Err(e) && e.is_other("Is a directory"@),
        Hit::Missing => result matches Err(e) && e.is_other(
            "File not found in archive: "@ + internal_file,
        ),
    }
}

/// Whether `result` is what reading a member of a zip archive gives.
pub open spec fn is_zip_reading(
    result: Result<Vec<u8>, AppError>,
    data: Seq<u8>,
    internal_file: Seq<char>,
) -> bool {
    match zip_directory(data) {
        Err(text) => result matches Err(e) && e.is_other(text),
        Ok(listed) => match search(
            zip_targets(zip_outcomes(data, listed)),
            wanted_name(internal_file),
            0,
        ) {
            Hit::At(index) => is_content(result, zip_content(data, index)),
            Hit::Unreadable(text) => result matches Err(e) && e.is_other(text),
            Hit::Directory => result matches Err(e) && e.is_other("Is a directory"@),
            Hit::Missing => result matches Err(e) && e.is_other(
                "File not found in archive: "@ + internal_file,
            ),
        },
    }
}

fn content_result(outcome: Result<Vec<u8>, String>) -> (result: Result<Vec<u8>, AppError>)
    ensures
        match outcome {
            Ok(bytes) => result == Ok::<Vec<u8>, AppError>(bytes),
            Err(text) => result matches Err(e) && e.is_io(text@),
        },
{
    match outcome {
        Ok(bytes) => Ok(bytes),
        Err(text) => Err(AppError::Io(text)),
    }
}

/// A search ends in the archive, at a member that can be read.
proof fn lemma_search(targets: Seq<Target>, wanted: Seq<char>, from: nat)
    ensures
        search(targets, wanted, from) matches Hit::At(index) ==> from <= index < targets.len()
            && targets[index as int] is Member,
    decreases targets.len() - from,
{
    if from < targets.len() {
        match targets[from as int] {
            Target::Unreadable(_) => {},
            Target::Member(name, _) => {
                if trim_start(name) != wanted {
                    lemma_search(targets, wanted, from + 1);
                }
            },
        }
    }
}

fn missing(internal_file: &str) -> (error: AppError)
    ensures
        error.is_other("File not found in archive: "@ + internal_file@),
{
    AppError::Other(joined("File not found in archive: ", internal_file))
}

fn read_from_tar(data: &[u8], internal_file: &str) -> (result: Result<Vec<u8>, AppError>)
    ensures
        is_tar_reading(result, data@, internal_file@),
{
    let wanted = without_leading_slashes(with_slashes(internal_file).as_str());
    let found = entries_of_tar(&list_packed_tar(data));
    assert(entry_targets(found_models(found@)) =~= tar_targets(packed_tar_listing(data@)));
    match search_entries(&found, wanted.as_str()) {
        Found::At(index) => {
            assert(found_models(found@).len() == packed_tar_listing(data@).len());
            content_result(read_packed_tar(data, index))
        },
        Found::Unreadable(text) => Err(AppError::Io(text)),
        Found::Directory => Err(refusal("Is a directory")),
        Found::Missing => Err(missing(internal_file)),
    }
}

fn read_from_zip(data: &[u8], internal_file: &str) -> (result: Result<Vec<u8>, AppError>)
    ensures
        is_zip_reading(result, data@, internal_file@),
{
    let wanted = without_leading_slashes(with_slashes(internal_file).as_str());
    let found = match find_zip_entries(data) {
        Ok(found) => found,
        Err(text) => {
            return Err(AppError::Other(text));
        },
    };
    let ghost listed = zip_directory(data@)->Ok_0;
    let ghost outcomes = zip_outcomes(data@, listed);
    proof {
        let entries = found_models(found@);
        assert forall|k: int| 0 <= k < entries.len() implies entry_targets(entries)[k]
            == #[trigger] zip_targets(outcomes)[k] by {
            assert(is_zip_entry(entries[k], outcomes[k]));
        }
        assert(entry_targets(entries) =~= zip_targets(outcomes));
        lemma_search(zip_targets(outcomes), wanted@, 0);
    }
    match search_entries(&found, wanted.as_str()) {
        Found::At(index) => {
            assert(zip_targets(outcomes)[index as int] is Member);
            assert(outcomes[index as int] is Ok);
            assert(outcomes[index as int] == zip_outcome(data@, listed[index as int], index as nat));
            content_result(read_zip(data, index))
        },
        Found::Unreadable(text) => Err(AppError::Other(text)),
        Found::Directory => Err(refusal("Is a directory")),
        Found::Missing => Err(missing(internal_file)),
    }
}

/// The bytes of a member of an archive.
pub fn read_file_from_archive_memory(data: &[u8], internal_file: &str, is_tar: bool) -> (result:
    Result<Vec<u8>, AppError>)
    ensures
        is_tar ==> is_tar_reading(result, data@, internal_file@),
        !is_tar ==> is_zip_reading(result, data@, internal_file@),
{
    if is_tar {
        read_from_tar(data, internal_file)
    } else {
        read_from_zip(data, internal_file)
    }
}

/// A path inside an archive: slashes for backslashes, none at the ends.
pub open spec fn internal_dir(path: Seq<char>) -> Seq<char> {
    trimmed(slash_form(path))
}

/// What a member is to the level `dir`.
pub open spec fn member_child(entry: ArchiveModel, dir: Seq<char>) -> Child {
    let name = trimmed(entry.name);
    let prefix = level_prefix(dir);
    let rest = name.skip(prefix.len() as int);
    if name.len() == 0 || !prefix.is_prefix_of(name) {
        Child::Outside
    } else if has_slash(rest) || entry.is_dir {
        Child::Dir(head(rest))
    } else {
        Child::File(head(rest), entry.size)
    }
}

/// What each member is to the level `dir`.
pub open spec fn member_children(entries: Seq<ArchiveEntry>, dir: Seq<char>) -> Seq<Child> {
    Seq::new(entries.len(), |i: int| member_child(entries[i]@, dir))
}

/// The permissions and the date of the first member of a path, if there is one.
pub open spec fn attributes(entries: Seq<ArchiveEntry>, path: Seq<char>) -> Option<
    (Option<u32>, u64),
>
    decreases entries.len(),
{
    if entries.len() == 0 {
        None
    } else if trimmed(entries[0].name@) == path {
        Some((entries[0].permissions, entries[0].modified))
    } else {
        attributes(entries.drop_first(), path)
    }
}

/// The row of a name: its size is that of the last file of the name, its permissions and
/// date those of the first member of its path.
pub open spec fn member_row(
    entries: Seq<ArchiveEntry>,
    dir: Seq<char>,
) -> spec_fn(Seq<char>) -> Row {
    |name: Seq<char>|
        {
            let known = attributes(entries, level_prefix(dir) + name);
            let children = member_children(entries, dir);
            if has_dir(children, name) {
                match known {
                    Some((permissions, modified)) => plain_row(name, true, 0, modified, permissions),
                    None => plain_row(name, true, 0, 0, Some(0o755)),
                }
            } else {
                let size = last_size(children, name);
                match known {
                    Some((permissions, modified)) => plain_row(
                        name,
                        false,
                        size,
                        modified,
                        permissions,
                    ),
                    None => plain_row(name, false, size, 0, None),
                }
            }
        }
}

/// The permissions and the date of the first member of a path, if there is one.
fn find_attributes(entries: &[ArchiveEntry], path: &str) -> (known: Option<(Option<u32>, u64)>)
    ensures
        known == attributes(entries@, path@),
{
    let mut i: usize = 0;
    assert(entries@.skip(0) =~= entries@);
    while i < entries.len()
        invariant
            i <= entries@.len(),
            attributes(entries@, path@) == attributes(entries@.skip(i as int), path@),
        decreases entries@.len() - i,
    {
        assert(entries@.skip(i as int).drop_first() =~= entries@.skip(i + 1));
        let name = without_outer_slashes(entries[i].name.as_str());
        if same_text(name.as_str(), path) {
            return Some((entries[i].permissions, entries[i].modified));
        }
        i += 1;
    }
    None
}

/// Rows with what the members of an archive say of permissions and dates.
struct MemberRows<'a> {
    entries: &'a [ArchiveEntry],
    prefix: String,
}

impl<'a> RowMaker for MemberRows<'a> {
    closed spec fn dir_row(&self, name: Seq<char>) -> Row {
        match attributes(self.entries@, self.prefix@ + name) {
            Some((permissions, modified)) => plain_row(name, true, 0, modified, permissions),
            None => plain_row(name, true, 0, 0, Some(0o755)),
        }
    }

    closed spec fn file_row(&self, name: Seq<char>, size: u64) -> Row {
        match attributes(self.entries@, self.prefix@ + name) {
            Some((permissions, modified)) => plain_row(name, false, size, modified, permissions),
            None => plain_row(name, false, size, 0, None),
        }
    }

    fn make_dir(&self, name: String) -> (row: RemoteFileEntry) {
        let path = joined(self.prefix.as_str(), name.as_str());
        match find_attributes(self.entries, path.as_str()) {
            Some((permissions, modified)) => new_row(name, true, 0, modified, permissions),
            None => new_row(name, true, 0, 0, Some(0o755)),
        }
    }

    fn make_file(&self, name: String, size: u64) -> (row: RemoteFileEntry) {
        let path = joined(self.prefix.as_str(), name.as_str());
        match find_attributes(self.entries, path.as_str()) {
            Some((permissions, modified)) => new_row(name, false, size, modified, permissions),
            None => new_row(name, false, size, 0, None),
        }
    }
}

/// The rows of a level of an archive.
pub fn list_members(entries: &[ArchiveEntry], path: &str) -> (rows: Vec<RemoteFileEntry>)
    ensures
        is_listing(
            rows_of(rows@),
            member_children(entries@, internal_dir(path@)),
            member_row(entries@, internal_dir(path@)),
        ),
{
    let dir = without_outer_slashes(with_slashes(path).as_str());
    let ghost children = member_children(entries@, dir@);
    let prefix = prefix_of(dir.as_str());
    let mut level = Level::new(false);
    let mut i: usize = 0;
    assert(children.take(0) =~= Seq::<Child>::empty());
    while i < entries.len()
        invariant
            i <= entries@.len(),
            children == member_children(entries@, dir@),
            prefix@ == level_prefix(dir@),
            level.wf(),
            !level.keep_first,
            level.children@ == children.take(i as int),
        decreases entries@.len() - i,
    {
        let entry = &entries[i];
        let name = chars_of(without_outer_slashes(entry.name.as_str()).as_str());
        let ghost child = member_child(entry@, dir@);
        assert(children.take(i + 1) =~= children.take(i as int).push(child));
        if name.len() > 0 && begins_with(name.as_slice(), prefix.as_slice()) {
            let rest = &name.as_slice()[prefix.len()..name.len()];
            assert(rest@ =~= name@.skip(prefix@.len() as int));
            let at: usize = find_slash(rest);
            let part = text_between(rest, 0, at);
            assert(part@ =~= head(rest@));
            if at < rest.len() || entry.is_dir {
                level.add_dir(part);
            } else {
                level.add_file(part, entry.size);
            }
        } else {
            level.pass();
        }
        i += 1;
    }
    assert(children.take(i as int) =~= children);
    let maker = MemberRows { entries, prefix: text_between(prefix.as_slice(), 0, prefix.len()) };
    assert(maker.prefix@ =~= level_prefix(dir@));
    assert(level.row_by(maker) =~= member_row(entries@, dir@));
    level.rows(&maker)
}

/// The bytes that are scanned and kept: those of a packed tar archive are unpacked first.
pub open spec fn effective_data(data: Seq<u8>, is_tar: bool) -> Result<Seq<u8>, Seq<char>> {
    match packing_of(data) {
        Packing::Gzip if is_tar => gunzipped(data),
        Packing::Bzip2 if is_tar => bunzipped(data),
        _ => Ok(data),
    }
}

/// The bytes that are scanned and kept.
fn unpacked(data: Vec<u8>, is_tar: bool) -> (result: Result<Vec<u8>, String>)
    ensures
        is_outcome(result, effective_data(data@, is_tar)),
{
    if !is_tar {
        return Ok(data);
    }
    match find_packing(data.as_slice()) {
        Packing::Gzip => gunzip(data.as_slice()),
        Packing::Bzip2 => bunzip2(data.as_slice()),
        Packing::Plain => Ok(data),
    }
}

/// What is kept of an archive: its readable members and its bytes.
pub struct LoadedArchive {
    pub entries: Vec<ArchiveEntry>,
    pub data: Vec<u8>,
}

/// Whether `result` is what loading an archive of that name gives.
pub open spec fn is_loading(
    result: Result<LoadedArchive, AppError>,
    data: Seq<u8>,
    archive_path: Seq<char>,
) -> bool {
    let is_tar = has_tar_ending(lowercase(archive_path));
    match effective_data(data, is_tar) {
        Err(text) => result matches Err(e) && e.is_io(text),
        Ok(effective) => match result {
            Ok(loaded) => loaded.data@ == effective && is_scan(
                Ok(loaded.entries),
                effective,
                is_tar,
            ),
            Err(e) => is_scan(Err(e), effective, is_tar),
        },
    }
}

/// Unpacks and scans the bytes of an archive.
pub fn load_archive(data: Vec<u8>, archive_path: &str) -> (result: Result<LoadedArchive, AppError>)
    ensures
        is_loading(result, data@, archive_path@),
{
    let is_tar = is_tar_format_from_name(archive_path);
    match unpacked(data, is_tar) {
        Ok(effective) => {
            let scanned = scan_archive_from_memory(effective.as_slice(), archive_path, is_tar);
            match scanned {
                Ok(entries) => Ok(LoadedArchive { entries, data: effective }),
                Err(e) => Err(e),
            }
        },
        Err(text) => Err(AppError::Io(text)),
    }
}

/// An archive file, opened as a directory. The file itself lies in another file system,
/// under `relative_path_in_parent`.
pub struct ArchiveFileSystemRpc {
    pub relative_path_in_parent: String,
    pub entries: Option<Vec<ArchiveEntry>>,
    pub archive_data: Option<Vec<u8>>,
}

impl ArchiveFileSystemRpc {
    pub fn new(relative_path_in_parent: String) -> (rpc: ArchiveFileSystemRpc)
        ensures
            rpc.relative_path_in_parent == relative_path_in_parent,
            rpc.entries is None,
            rpc.archive_data is None,
    {
        ArchiveFileSystemRpc { relative_path_in_parent, entries: None, archive_data: None }
    }

    /// Whether the members and the bytes of the archive are known.
    pub open spec fn is_loaded(&self) -> bool {
        self.entries is Some && self.archive_data is Some
    }

    /// Whether the archive file still has to be read.
    pub fn needs_loading(&self) -> (needed: bool)
        ensures
            needed == !self.is_loaded(),
    {
        self.entries.is_none() || self.archive_data.is_none()
    }

    /// Keeps what was made of the archive file. The inner result is that of loading it, the
    /// outer error that of a task which did not come to an end.
    pub fn finish_loading(
        &mut self,
        outcome: Result<Result<LoadedArchive, AppError>, String>,
    ) -> (result: Result<(), AppError>)
        ensures
            match outcome {
                Ok(Ok(loaded)) => result is Ok && *final(self) == (ArchiveFileSystemRpc {
                    entries: Some(loaded.entries),
                    archive_data: Some(loaded.data),
                    ..*old(self)
                }),
                Ok(Err(e)) => result == Err::<(), AppError>(e) && *final(self) == *old(self),
                Err(text) => (result matches Err(e) && e.is_other(
                    "blocking task error: "@ + text@,
                )) && *final(self) == *old(self),
            },
    {
        match outcome {
            Ok(Ok(loaded)) => {
                self.entries = Some(loaded.entries);
                self.archive_data = Some(loaded.data);
                Ok(())
            },
            Ok(Err(e)) => Err(e),
            Err(text) => Err(AppError::Other(joined("blocking task error: ", text.as_str()))),
        }
    }

    /// Makes sure that the archive is loaded: what was loaded before is kept, otherwise the
    /// bytes of the archive file are unpacked and scanned.
    pub fn ensure_loaded(&mut self, data: Result<Vec<u8>, AppError>) -> (result: Result<(), AppError>)
        ensures
            final(self).relative_path_in_parent == old(self).relative_path_in_parent,
            old(self).is_loaded() ==> result is Ok && *final(self) == *old(self),
            !old(self).is_loaded() ==> match data {
                Err(e) => result == Err::<(), AppError>(e) && *final(self) == *old(self),
                Ok(bytes) => match result {
                    Ok(_) => final(self).is_loaded() && is_loading(
                        Ok(
                            LoadedArchive {
                                entries: final(self).entries->Some_0,
                                data: final(self).archive_data->Some_0,
                            },
                        ),
                        bytes@,
                        old(self).relative_path_in_parent@,
                    ),
                    Err(e) => is_loading(
                        Err(e),
                        bytes@,
                        old(self).relative_path_in_parent@,
                    ) && *final(self) == *old(self),
                },
            },
    {
        if !self.needs_loading() {
            return Ok(());
        }
        match data {
            Ok(bytes) => {
                let loaded = load_archive(bytes, self.relative_path_in_parent.as_str());
                self.finish_loading(Ok(loaded))
            },
            Err(e) => Err(e),
        }
    }

    /// The rows of a level of a loaded archive.
    pub fn list_dir(&self, path: &str) -> (rows: Vec<RemoteFileEntry>)
        requires
            self.is_loaded(),
        ensures
            is_listing(
                rows_of(rows@),
                member_children(self.entries->Some_0@, internal_dir(path@)),
                member_row(self.entries->Some_0@, internal_dir(path@)),
            ),
    {
        match &self.entries {
            Some(entries) => list_members(entries.as_slice(), path),
            None => Vec::new(),
        }
    }

    /// The bytes of a member of a loaded archive.
    pub fn read_file(&self, path: &str) -> (result: Result<Vec<u8>, AppError>)
        requires
            self.is_loaded(),
        ensures
            has_tar_ending(lowercase(self.relative_path_in_parent@)) ==> is_tar_reading(
                result,
                self.archive_data->Some_0@,
                path@,
            ),
            !has_tar_ending(lowercase(self.relative_path_in_parent@)) ==> is_zip_reading(
                result,
                self.archive_data->Some_0@,
                path@,
            ),
    {
        let is_tar = is_tar_format_from_name(self.relative_path_in_parent.as_str());
        match &self.archive_data {
            Some(data) => read_file_from_archive_memory(data.as_slice(), path, is_tar),
            None => Err(missing(path)),
        }
    }

    /// The name under which a downloaded member is put into the folder for temporary files.
    pub fn download_name(&self, file_path: &str) -> (name: String)
        ensures
            is_name_or(file_path@, ""@, name@),
    {
        file_name_or(file_path, "")
    }

    pub fn get_icon(&self, path: &str) -> (icon: String)
        ensures
            icon@ == if is_root_path(path@) {
                "/com/icecommander/gtk/file.svg"@
            } else {
                "/com/icecommander/gtk/folder.svg"@
            },
    {
        if !is_root(path) {
            return "/com/icecommander/gtk/folder.svg".to_owned();
        }
        "/com/icecommander/gtk/file.svg".to_owned()
    }

    /// The label on the icon of the archive itself, if it has one.
    pub open spec fn label(&self, path: Seq<char>) -> Option<Seq<char>> {
        let whole = self.relative_path_in_parent@;
        let lower = lowercase(whole.skip(last_part_start(whole)));
        if !is_root_path(path) {
            None
        } else if has_tar_ending(lowercase(lower)) {
            Some("TAR"@)
        } else if ".zip"@.is_suffix_of(lower) {
            Some("ZIP"@)
        } else {
            None
        }
    }

    /// The label on the icon of the archive itself, if it has one.
    pub fn icon_label(&self, path: &str) -> (label: Option<String>)
        ensures
            match self.label(path@) {
                Some(text) => label matches Some(t) && t@ == text,
                None => label is None,
            },
    {
        if !is_root(path) {
            return None;
        }
        let lower = to_lowercase(last_part(self.relative_path_in_parent.as_str()).as_str());
        if is_tar_format_from_name(lower.as_str()) {
            Some("TAR".to_owned())
        } else if ends_with(lower.as_str(), ".zip") {
            Some("ZIP".to_owned())
        } else {
            None
        }
    }

    pub fn create_directory(&self, _parent_path: &str, _dir_name: &str, _permissions: Option<u32>) -> (
    result: Result<(), AppError>)
        ensures
            result matches Err(e) && e.is_other("Archive filesystem is read-only"@),
    {
        Err(refusal("Archive filesystem is read-only"))
    }

    pub fn rename_entry(&self, _path: &str, _new_path: &str) -> (result: Result<(), AppError>)
        ensures
            result matches Err(e) && e.is_other("Archive filesystem is read-only"@),
    {
        Err(refusal("Archive filesystem is read-only"))
    }

    pub fn write_file(&self, _path: &str, _content: &[u8], _permissions: Option<u32>) -> (result:
        Result<(), AppError>)
        ensures
            result matches Err(e) && e.is_other("Archive filesystem is read-only"@),
    {
        Err(refusal("Archive filesystem is read-only"))
    }

    pub fn delete_entries(&self, _paths: &[String]) -> (result: Result<(), AppError>)
        ensures
            result matches Err(e) && e.is_other("Archive filesystem is read-only"@),
    {
        Err(refusal("Archive filesystem is read-only"))
    }

    pub fn is_read_only(&self) -> (read_only: bool)
        ensures
            read_only,
    {
        true
    }
}

/// A name that is in slash form already stays as it is.
proof fn lemma_slash_form_again(name: Seq<char>)
    ensures
        slash_form(slash_form(name)) == slash_form(name),
{
    assert(slash_form(slash_form(name)) =~= slash_form(name));
}

/// A search passes over what does not match and ends at the first member that does.
proof fn lemma_search_reaches(targets: Seq<Target>, wanted: Seq<char>, from: nat, to: nat)
    requires
        from <= to < targets.len(),
        forall|i: int|
            from <= i < to ==> ((#[trigger] targets[i]) matches Target::Member(name, _)
                && trim_start(name) != wanted),
        targets[to as int] matches Target::Member(name, _) && trim_start(name) == wanted,
    ensures
        search(targets, wanted, from) == (if targets[to as int]->Member_1 {
            Hit::Directory
        } else {
            Hit::At(to)
        }),
    decreases to - from,
{
    if from < to {
        assert(targets[from as int] is Member);
        lemma_search_reaches(targets, wanted, from + 1, to);
    }
}

/// Every member that a scan of a tar archive lists is found again under its listed name: a
/// file gives the content that stands at its place, a directory is refused as one. Of
/// members of one name the first is found.
pub proof fn a_listed_tar_member_is_found(listed: Seq<Result<TarModel, Seq<char>>>, k: int)
    requires
        ends_at_first_failure(listed),
        0 <= k < listed.len(),
        listed[k] is Ok,
        forall|i: int|
            0 <= i < k && (#[trigger] listed[i]) is Ok ==> trim_start(
                tar_entry(listed[i]->Ok_0).name,
            ) != trim_start(tar_entry(listed[k]->Ok_0).name),
    ensures
        search(
            tar_targets(listed),
            wanted_name(tar_entry(listed[k]->Ok_0).name),
            0,
        ) == (if listed[k]->Ok_0.is_dir {
            Hit::Directory
        } else {
            Hit::At(k as nat)
        }),
{
    let targets = tar_targets(listed);
    let name = tar_entry(listed[k]->Ok_0).name;
    lemma_slash_form_again(lossy_text(listed[k]->Ok_0.path));
    assert forall|i: int| 0 <= i < k implies ((#[trigger] targets[i]) matches Target::Member(n, _)
        && trim_start(n) != trim_start(name)) by {
        assert(listed[i] is Ok);
    }
    assert(targets[k] == Target::Member(name, listed[k]->Ok_0.is_dir));
    lemma_search_reaches(targets, trim_start(name), 0, k as nat);
}

/// Every member that a scan of a zip archive lists, and that no unreadable member stands
/// before, is found again under its listed name: a file gives the content that stands at
/// its place, a directory is refused as one. Of members of one name the first is found.
pub proof fn a_listed_zip_member_is_found(outcomes: Seq<Result<ZipModel, Seq<char>>>, k: int)
    requires
        0 <= k < outcomes.len(),
        forall|i: int| 0 <= i <= k ==> (#[trigger] outcomes[i]) is Ok,
        forall|i: int|
            0 <= i < k ==> trim_start(slash_form((#[trigger] outcomes[i])->Ok_0.name))
                != trim_start(slash_form(outcomes[k]->Ok_0.name)),
    ensures
        search(
            zip_targets(outcomes),
            wanted_name(slash_form(outcomes[k]->Ok_0.name)),
            0,
        ) == (if outcomes[k]->Ok_0.is_dir {
            Hit::Directory
        } else {
            Hit::At(k as nat)
        }),
{
    let targets = zip_targets(outcomes);
    let name = slash_form(outcomes[k]->Ok_0.name);
    lemma_slash_form_again(outcomes[k]->Ok_0.name);
    assert(outcomes[k] is Ok);
    assert forall|i: int| 0 <= i < k implies ((#[trigger] targets[i]) matches Target::Member(n, _)
        && trim_start(n) != trim_start(name)) by {
        assert(outcomes[i] is Ok);
    }
    assert(targets[k] == Target::Member(name, outcomes[k]->Ok_0.is_dir));
    lemma_search_reaches(targets, trim_start(name), 0, k as nat);
}

/// A slash in front of the path of a file makes no difference to what is read.
pub proof fn a_leading_slash_makes_no_difference(internal_file: Seq<char>)
    ensures
        wanted_name(seq!['/'] + internal_file) == wanted_name(internal_file),
{
    let path = seq!['/'] + internal_file;
    assert(slash_form(path).drop_first() =~= slash_form(internal_file));
    assert(slash_form(path)[0] == '/');
}

/// A member is listed in the directory that its path names: as a directory or, with its
/// size, as a file.
pub proof fn a_member_is_listed_in_its_directory(
    entry: ArchiveModel,
    dir: Seq<char>,
    name: Seq<char>,
)
    requires
        trimmed(entry.name) == level_prefix(dir) + name,
        name.len() > 0,
        !name.contains('/'),
    ensures
        member_child(entry, dir) == (if entry.is_dir {
            Child::Dir(name)
        } else {
            Child::File(name, entry.size)
        }),
{
    let prefix = level_prefix(dir);
    let path = prefix + name;
    assert(path.skip(prefix.len() as int) =~= name);
    assert(prefix =~= path.subrange(0, prefix.len() as int));
    assert forall|i: int| 0 <= i < name.len() implies name[i] != '/' by {
        assert(name.contains(name[i]));
    }
    lemma_first_slash_is(name, name.len() as int);
    assert(name.take(name.len() as int) =~= name);
}

/// Every directory on the way to a member is listed in the directory above it, whether or
/// not it is a member itself.
pub proof fn a_directory_is_listed_above_its_members(
    entry: ArchiveModel,
    dir: Seq<char>,
    name: Seq<char>,
    rest: Seq<char>,
)
    requires
        trimmed(entry.name) == level_prefix(dir) + name + seq!['/'] + rest,
        !name.contains('/'),
    ensures
        member_child(entry, dir) == Child::Dir(name),
{
    let prefix = level_prefix(dir);
    let below = name + seq!['/'] + rest;
    let path = level_prefix(dir) + name + seq!['/'] + rest;
    assert(path =~= prefix + below);
    assert(path.skip(prefix.len() as int) =~= below);
    assert(prefix =~= path.subrange(0, prefix.len() as int));
    assert forall|i: int| 0 <= i < name.len() implies below[i] != '/' by {
        assert(name.contains(name[i]));
    }
    lemma_first_slash_is(below, name.len() as int);
    assert(below.take(name.len() as int) =~= name);
}

} // verus!
