//! The inside of a torrent file as a read-only file system.

use vstd::prelude::*;
use vstd::string::*;
use vstd::utf8::encode_utf8;

use crate::bencode::{
    can_be_read, find_stop, flatten, flattened, readable_bytes, readable_bytes_can_be_read,
    stopped_at, what_can_be_read_is_left_as_it_is,
};
use crate::listing::{
    first_size, has_dir, is_listing, level_prefix, prefix_of, Child, Level, RowMaker,
};
use crate::order::{in_strict_name_order, is_stable_sort, sort_by_name};
use crate::rpc::{
    is_separator, lemma_trim_end, new_row, plain_row, refusal, rows_of, AppError, RemoteFileEntry, Row,
};
use crate::text::{
    begins_with, bytes_of, chars_of, find_slash, has_slash, head, joined, lemma_first_slash_is,
    is_read_as, same_text, slash_form, text_between, text_from_utf8_lossy, trim_end, trim_start,
    trimmed, with_slashes, without_outer_slashes,
};
use crate::torrent_session::{
    data_dir, downloaded_file_path, downloaded_files_are_kept_in_the_data_folder,
    is_downloaded_path,
    is_file_complete, peer_card, peer_card_text, peers, Engine, PeerRow,
};

verus! {

/// A file of a torrent: its place among all files, its path and its size.
#[derive(Clone, Debug, PartialEq, Eq)]
pub struct TorrentEntry {
    pub id: usize,
    pub path: String,
    pub size: u64,
}

/// What a [`TorrentEntry`] says.
pub struct EntryModel {
    pub id: nat,
    pub path: Seq<char>,
    pub size: u64,
}

impl View for TorrentEntry {
    type V = EntryModel;

    open spec fn view(&self) -> EntryModel {
        EntryModel { id: self.id as nat, path: self.path@, size: self.size }
    }
}

/// What the files of a torrent say.
pub open spec fn models_of(entries: Seq<TorrentEntry>) -> Seq<EntryModel> {
    entries.map_values(|e: TorrentEntry| e@)
}

/// The name of a torrent and its files.
#[derive(Clone, Debug, PartialEq, Eq)]
pub struct TorrentContents {
    pub name: String,
    pub entries: Vec<TorrentEntry>,
}

/// What a panel shows of a torrent.
#[derive(Clone, Copy, Debug, PartialEq, Eq, Structural)]
pub enum TorrentView {
    All,
    Downloaded,
    Peers,
}

impl Default for TorrentView {
    fn default() -> (view: TorrentView)
        ensures
            view is All,
    {
        TorrentView::All
    }
}

/// A path as it is matched inside a torrent: slashes for backslashes, none at the ends.
pub open spec fn internal_path(path: Seq<char>) -> Seq<char> {
    trimmed(slash_form(path))
}

/// A path as it is matched inside a torrent.
pub fn normalize_internal_path(path: &str) -> (normal: String)
    ensures
        normal@ == internal_path(path@),
{
    without_outer_slashes(with_slashes(path).as_str())
}

/// What a file is to the level `dir`.
pub open spec fn child_of(path: Seq<char>, size: u64, dir: Seq<char>) -> Child {
    let prefix = level_prefix(dir);
    let rest = path.skip(prefix.len() as int);
    if !prefix.is_prefix_of(path) || head(rest).len() == 0 {
        Child::Outside
    } else if has_slash(rest) {
        Child::Dir(head(rest))
    } else {
        Child::File(head(rest), size)
    }
}

/// What each file is to the level `dir`.
pub open spec fn children_of(entries: Seq<TorrentEntry>, dir: Seq<char>) -> Seq<Child> {
    Seq::new(entries.len(), |i: int| child_of(entries[i].path@, entries[i].size, dir))
}

/// The row of a name: a directory where any file lies below it, otherwise a file of the
/// size that stands first.
pub open spec fn level_row(children: Seq<Child>) -> spec_fn(Seq<char>) -> Row {
    |name: Seq<char>|
        if has_dir(children, name) {
            plain_row(name, true, 0, 0, Some(0o755))
        } else {
            plain_row(name, false, first_size(children, name), 0, None)
        }
}

/// The rows of the level `internal_dir`, which is normalized first.
pub fn list_level(entries: &[TorrentEntry], internal_dir: &str) -> (rows: Vec<RemoteFileEntry>)
    ensures
        is_listing(
            rows_of(rows@),
            children_of(entries@, internal_path(internal_dir@)),
            level_row(children_of(entries@, internal_path(internal_dir@))),
        ),
{
    let dir = normalize_internal_path(internal_dir);
    let ghost children = children_of(entries@, dir@);
    let prefix = prefix_of(dir.as_str());
    let mut level = Level::new(true);
    let mut i: usize = 0;
    assert(children.take(0) =~= Seq::<Child>::empty());
    while i < entries.len()
        invariant
            i <= entries@.len(),
            children == children_of(entries@, dir@),
            prefix@ == level_prefix(dir@),
            level.wf(),
            level.keep_first,
            level.children@ == children.take(i as int),
        decreases entries@.len() - i,
    {
        let path = chars_of(entries[i].path.as_str());
        let ghost child = child_of(entries@[i as int].path@, entries@[i as int].size, dir@);
        assert(children.take(i + 1) =~= children.take(i as int).push(child));
        if begins_with(path.as_slice(), prefix.as_slice()) {
            let rest = &path.as_slice()[prefix.len()..path.len()];
            assert(rest@ =~= path@.skip(prefix@.len() as int));
            let at: usize = find_slash(rest);
            if at == 0 {
                level.pass();
            } else {
                let name = text_between(rest, 0, at);
                assert(name@ =~= head(rest@));
                if at < rest.len() {
                    level.add_dir(name);
                } else {
                    level.add_file(name, entries[i].size);
                }
            }
        } else {
            level.pass();
        }
        i += 1;
    }
    assert(children.take(i as int) =~= children);
    assert(level.row_by(PlainRows) =~= level_row(children));
    level.rows(&PlainRows)
}

/// Rows of a torrent carry no dates, and permissions only on directories.
struct PlainRows;

impl RowMaker for PlainRows {
    closed spec fn dir_row(&self, name: Seq<char>) -> Row {
        plain_row(name, true, 0, 0, Some(0o755))
    }

    closed spec fn file_row(&self, name: Seq<char>, size: u64) -> Row {
        plain_row(name, false, size, 0, None)
    }

    fn make_dir(&self, name: String) -> (row: RemoteFileEntry) {
        new_row(name, true, 0, 0, Some(0o755))
    }

    fn make_file(&self, name: String, size: u64) -> (row: RemoteFileEntry) {
        new_row(name, false, size, 0, None)
    }
}

/// A file as a torrent describes it: whether it only fills a gap, the parts of its path
/// or why they cannot be read, and its length.
#[derive(Debug, PartialEq, Eq)]
pub struct FileDetail {
    pub padding: bool,
    pub parts: Result<Vec<String>, String>,
    pub len: u64,
}

/// What a [`FileDetail`] says.
pub struct FileModel {
    pub padding: bool,
    pub parts: Result<Seq<Seq<char>>, Seq<char>>,
    pub len: u64,
}

impl View for FileDetail {
    type V = FileModel;

    open spec fn view(&self) -> FileModel {
        FileModel {
            padding: self.padding,
            parts: match self.parts {
                Ok(parts) => Ok(parts@.map_values(|t: String| t@)),
                Err(text) => Err(text@),
            },
            len: self.len,
        }
    }
}

/// What a torrent file describes: its name, and its files or why there are none.
#[derive(Debug, PartialEq, Eq)]
pub struct Metainfo {
    pub name: Option<Vec<u8>>,
    pub files: Result<Vec<FileDetail>, String>,
}

/// What a [`Metainfo`] says.
pub struct MetainfoModel {
    pub name: Option<Seq<u8>>,
    pub files: Result<Seq<FileModel>, Seq<char>>,
}

impl View for Metainfo {
    type V = MetainfoModel;

    open spec fn view(&self) -> MetainfoModel {
        MetainfoModel {
            name: match self.name {
                Some(name) => Some(name@),
                None => None,
            },
            files: match self.files {
                Ok(files) => Ok(files@.map_values(|f: FileDetail| f@)),
                Err(text) => Err(text@),
            },
        }
    }
}

/// What `librqbit::torrent_from_bytes` finds in some bytes, or why it finds nothing.
pub uninterp spec fn metainfo(data: Seq<u8>) -> Result<MetainfoModel, Seq<char>>;

/// A part of a path that cannot lead to another directory.
pub open spec fn is_plain_part(part: Seq<char>) -> bool {
    &&& part != seq!['.', '.']
    &&& !part.contains('/')
    &&& !part.contains('\\')
}

/// Whether every path that could be read is made of plain parts.
pub open spec fn has_plain_parts(meta: MetainfoModel) -> bool {
    meta.files matches Ok(files) ==> forall|i: int|
        0 <= i < files.len() ==> ((#[trigger] files[i]).parts matches Ok(parts) ==> forall|j: int|
            0 <= j < parts.len() ==> is_plain_part(#[trigger] parts[j]))
}

/// Calls `librqbit::torrent_from_bytes`, then `TorrentMetaV1Info::iter_file_details` and, for
/// each file, `FileDetails::attrs` and `FileIteratorName::to_vec`. The outcome depends on
/// the bytes alone; the format itself is not written out. A part of a path that is `..`
/// or holds a slash or a backslash makes the path unreadable. Left out are bytes on which the
/// parser, which goes from piece to piece as [`can_be_read`] does, would ask an empty rest for
/// a list, count past the largest `usize`, or go down deeper than a stack bears.
#[verifier::external_body]
pub(crate) fn read_metainfo(data: &[u8]) -> (meta: Result<Metainfo, String>)
    requires
        can_be_read(data@),
    ensures
        match metainfo(data@) {
            Ok(model) => meta matches Ok(m) && m@ == model,
            Err(text) => meta matches Err(t) && t@ == text,
        },
        meta matches Ok(m) ==> has_plain_parts(m@),
{
    let meta = librqbit::torrent_from_bytes::<librqbit::ByteBufOwned>(data);
    let info = meta.map_err(|e| e.to_string())?.info;
    let details = info.iter_file_details().map_err(|e| e.to_string());
    let files = details.map(|found| found.map(|d| FileDetail {
        padding: d.attrs().padding,
        parts: d.filename.to_vec().map_err(|e| e.to_string()),
        len: d.len,
    }).collect());
    let name = info.name.as_ref().map(|n| n.as_ref().to_vec());
    Ok(Metainfo { name, files })
}

/// The parts of a path with slashes between them.
pub open spec fn slash_joined(parts: Seq<Seq<char>>) -> Seq<char>
    decreases parts.len(),
{
    if parts.len() == 0 {
        Seq::empty()
    } else if parts.len() == 1 {
        parts[0]
    } else {
        slash_joined(parts.drop_last()) + seq!['/'] + parts.last()
    }
}

/// The parts of a path with slashes between them.
fn join_parts(parts: &Vec<String>) -> (path: String)
    ensures
        path@ == slash_joined(parts@.map_values(|t: String| t@)),
{
    let ghost texts = parts@.map_values(|t: String| t@);
    let mut path = String::new();
    let mut i: usize = 0;
    assert(path@ =~= Seq::<char>::empty());
    while i < parts.len()
        invariant
            i <= parts@.len(),
            texts == parts@.map_values(|t: String| t@),
            path@ == slash_joined(texts.take(i as int)),
        decreases parts@.len() - i,
    {
        assert(texts.take(i + 1).drop_last() =~= texts.take(i as int));
        let ghost before = path@;
        if i > 0 {
            path.push('/');
        }
        path.append(parts[i].as_str());
        proof {
            if i == 0 {
                assert(path@ =~= texts[0]);
            } else {
                assert(path@ =~= before + seq!['/'] + texts[i as int]);
            }
        }
        i += 1;
    }
    assert(texts.take(i as int) =~= texts);
    path
}

/// The path of a file, where it is shown.
pub open spec fn shown_path(file: FileModel) -> Option<Seq<char>> {
    match file.parts {
        Ok(parts) if !file.padding && slash_joined(parts).len() > 0 => Some(slash_joined(parts)),
        _ => None,
    }
}

/// The files that are shown, each under its place among all files.
pub open spec fn shown_files(files: Seq<FileModel>) -> Seq<EntryModel>
    decreases files.len(),
{
    if files.len() == 0 {
        Seq::empty()
    } else {
        let id = (files.len() - 1) as nat;
        let before = shown_files(files.drop_last());
        match shown_path(files.last()) {
            Some(path) => before.push(EntryModel { id, path, size: files.last().len }),
            None => before,
        }
    }
}

/// Why the first file that is not padding and has no readable path has none.
pub open spec fn first_unreadable(files: Seq<FileModel>) -> Option<Seq<char>>
    decreases files.len(),
{
    if files.len() == 0 {
        None
    } else {
        match first_unreadable(files.drop_last()) {
            Some(text) => Some(text),
            None => match files.last().parts {
                Err(text) if !files.last().padding => Some(text),
                _ => None,
            },
        }
    }
}

/// What is made of the description in a torrent file.
pub open spec fn is_contents(
    result: Result<TorrentContents, AppError>,
    meta: MetainfoModel,
) -> bool {
    match meta.files {
        Err(text) => result matches Err(e) && e.is_other(
            "torrent metadata is unusable: "@ + text,
        ),
        Ok(files) => match first_unreadable(files) {
            Some(text) => result matches Err(e) && e.is_other(
                "torrent has an unreadable file name: "@ + text,
            ),
            None => {
                &&& result matches Ok(contents)
                &&& match meta.name {
                    Some(name) => is_read_as(contents.name@, name),
                    None => contents.name@.len() == 0,
                }
                &&& models_of(contents.entries@) == shown_files(files)
            },
        },
    }
}

/// The name and the files that a description in a torrent file gives.
pub fn contents_of(meta: &Metainfo) -> (result: Result<TorrentContents, AppError>)
    ensures
        is_contents(result, meta@),
{
    let name = match &meta.name {
        Some(name) => text_from_utf8_lossy(name.as_slice()),
        None => String::new(),
    };
    let files = match &meta.files {
        Ok(files) => files,
        Err(text) => {
            return Err(AppError::Other(joined("torrent metadata is unusable: ", text.as_str())));
        },
    };
    let ghost models = files@.map_values(|f: FileDetail| f@);
    let mut entries: Vec<TorrentEntry> = Vec::new();
    let mut id: usize = 0;
    assert(models_of(entries@) =~= shown_files(models.take(0)));
    while id < files.len()
        invariant
            id <= files@.len(),
            models == files@.map_values(|f: FileDetail| f@),
            meta@.files == Ok::<Seq<FileModel>, Seq<char>>(models),
            models_of(entries@) == shown_files(models.take(id as int)),
            first_unreadable(models.take(id as int)) is None,
        decreases files@.len() - id,
    {
        let file = &files[id];
        proof {
            assert(models.take(id + 1).drop_last() =~= models.take(id as int));
            assert(models.take(id + 1).last() == file@);
        }
        if !file.padding {
            match &file.parts {
                Ok(parts) => {
                    let path = join_parts(parts);
                    if path.as_str().unicode_len() > 0 {
                        let ghost before = entries@;
                        let entry = TorrentEntry { id, path, size: file.len };
                        entries.push(entry);
                        assert(models_of(entries@) =~= models_of(before).push(entry@));
                    }
                },
                Err(text) => {
                    proof {
                        lemma_first_unreadable_stays(models, id + 1);
                    }
                    return Err(
                        AppError::Other(
                            joined("torrent has an unreadable file name: ", text.as_str()),
                        ),
                    );
                },
            }
        }
        id += 1;
    }
    assert(models.take(id as int) =~= models);
    Ok(TorrentContents { name, entries })
}

/// A file that cannot be read stays the first such file, whatever follows it.
proof fn lemma_first_unreadable_stays(files: Seq<FileModel>, n: int)
    requires
        0 <= n <= files.len(),
        first_unreadable(files.take(n)) is Some,
    ensures
        first_unreadable(files) == first_unreadable(files.take(n)),
    decreases files.len() - n,
{
    if n < files.len() {
        assert(files.take(n + 1).drop_last() =~= files.take(n));
        lemma_first_unreadable_stays(files, n + 1);
    } else {
        assert(files.take(n) =~= files);
    }
}

/// What the bytes of a torrent file describe, or why they describe nothing. The parser skips what
/// lies deep inside, since the description has no such depth; where it would have to stop, it
/// meets a byte that begins nothing.
pub open spec fn described(data: Seq<u8>) -> Result<MetainfoModel, Seq<char>> {
    metainfo(readable_bytes(flattened(data)))
}

/// The name and the files of a torrent, by the bytes of its torrent file.
pub fn parse_torrent(data: &[u8]) -> (result: Result<TorrentContents, AppError>)
    ensures
        match described(data@) {
            Ok(meta) => has_plain_parts(meta) && is_contents(result, meta),
            Err(text) => result matches Err(e) && e.is_other("not a valid torrent file: "@ + text),
        },
{
    let flat = flatten(data);
    let end: usize = flat.len();
    proof {
        assert(end == flat@.len());
        readable_bytes_can_be_read(flat@);
    }
    let meta = match find_stop(flat.as_slice()) {
        None => read_metainfo(flat.as_slice()),
        Some(stop) => read_metainfo(stopped_at(flat.as_slice(), stop).as_slice()),
    };
    match meta {
        Ok(meta) => contents_of(&meta),
        Err(text) => Err(AppError::Other(joined("not a valid torrent file: ", text.as_str()))),
    }
}

/// The rows of the files that were picked, in the order of the files.
pub open spec fn picked_rows(entries: Seq<TorrentEntry>, picked: Seq<bool>) -> Seq<Row>
    decreases entries.len(),
{
    if entries.len() == 0 {
        Seq::empty()
    } else {
        let before = picked_rows(entries.drop_last(), picked);
        let entry = entries.last();
        if picked[entries.len() - 1] {
            before.push(plain_row(entry.path@, false, entry.size, 0, None))
        } else {
            before
        }
    }
}

/// Whether `rows` are those of the picked files in the order of their paths; files of one
/// path keep the order in which they stand.
pub open spec fn is_picked_listing(
    rows: Seq<RemoteFileEntry>,
    entries: Seq<TorrentEntry>,
    picked: Seq<bool>,
) -> bool {
    exists|unsorted: Seq<RemoteFileEntry>|
        #![trigger rows_of(unsorted)]
        is_stable_sort(rows, unsorted) && rows_of(unsorted) == picked_rows(entries, picked)
}

/// The rows of the files that `is_complete` accepts by their place and size.
pub fn downloaded_rows<F: Fn(usize, u64) -> bool>(entries: &[TorrentEntry], is_complete: F) -> (rows:
    Vec<RemoteFileEntry>)
    requires
        forall|i: int|
            0 <= i < entries@.len() ==> call_requires(
                is_complete,
                ((#[trigger] entries@[i]).id, entries@[i].size),
            ),
    ensures
        exists|picked: Seq<bool>| #[trigger]
            is_picked_listing(rows@, entries@, picked) && picked.len() == entries@.len()
                && forall|i: int|
                0 <= i < entries@.len() ==> call_ensures(
                    is_complete,
                    ((#[trigger] entries@[i]).id, entries@[i].size),
                    picked[i],
                ),
{
    let mut rows: Vec<RemoteFileEntry> = Vec::new();
    let ghost mut picked: Seq<bool> = Seq::empty();
    let mut i: usize = 0;
    assert(rows_of(rows@) =~= picked_rows(entries@.take(0), picked));
    while i < entries.len()
        invariant
            i <= entries@.len(),
            picked.len() == i,
            rows_of(rows@) == picked_rows(entries@.take(i as int), picked),
            forall|k: int|
                0 <= k < entries@.len() ==> call_requires(
                    is_complete,
                    ((#[trigger] entries@[k]).id, entries@[k].size),
                ),
            forall|k: int|
                0 <= k < i ==> call_ensures(
                    is_complete,
                    ((#[trigger] entries@[k]).id, entries@[k].size),
                    picked[k],
                ),
        decreases entries@.len() - i,
    {
        let entry = &entries[i];
        let complete = is_complete(entry.id, entry.size);
        let ghost before = rows@;
        let ghost earlier = picked;
        proof {
            picked = picked.push(complete);
            assert(entries@.take(i + 1).drop_last() =~= entries@.take(i as int));
            lemma_picked_prefix(entries@.take(i as int), earlier, picked);
        }
        if complete {
            let row = new_row(entry.path.clone(), false, entry.size, 0, None);
            rows.push(row);
            assert(rows_of(rows@) =~= rows_of(before).push(row@));
        }
        i += 1;
    }
    assert(entries@.take(i as int) =~= entries@);
    let ghost unsorted = rows@;
    let sorted = sort_by_name(rows);
    assert(rows_of(unsorted) == picked_rows(entries@, picked));
    assert(is_picked_listing(sorted@, entries@, picked));
    sorted
}

/// What was picked behind the files does not matter.
proof fn lemma_picked_prefix(entries: Seq<TorrentEntry>, a: Seq<bool>, b: Seq<bool>)
    requires
        a.len() >= entries.len(),
        b.len() >= entries.len(),
        forall|i: int| 0 <= i < entries.len() ==> a[i] == b[i],
    ensures
        picked_rows(entries, a) == picked_rows(entries, b),
    decreases entries.len(),
{
    if entries.len() > 0 {
        lemma_picked_prefix(entries.drop_last(), a, b);
    }
}

/// The row of a peer.
pub open spec fn peer_row(peer: PeerRow) -> Row {
    plain_row(peer.addr@, false, peer.fetched_bytes, 0, None)
}

/// The rows of some peers, in the order in which they stand.
pub fn peer_rows(peers: &[PeerRow]) -> (rows: Vec<RemoteFileEntry>)
    ensures
        rows_of(rows@) == peers@.map_values(|p: PeerRow| peer_row(p)),
{
    let mut rows: Vec<RemoteFileEntry> = Vec::new();
    let mut i: usize = 0;
    while i < peers.len()
        invariant
            i <= peers@.len(),
            rows@.len() == i,
            forall|k: int| 0 <= k < i ==> (#[trigger] rows@[k])@ == peer_row(peers@[k]),
        decreases peers@.len() - i,
    {
        rows.push(new_row(peers[i].addr.clone(), false, peers[i].fetched_bytes, 0, None));
        i += 1;
    }
    assert(rows_of(rows@) =~= peers@.map_values(|p: PeerRow| peer_row(p)));
    rows
}

/// Whether the first peer of that address stands at `i`.
pub open spec fn is_first_peer(peers: Seq<PeerRow>, addr: Seq<char>, i: int) -> bool {
    &&& 0 <= i < peers.len()
    &&& peers[i].addr@ == addr
    &&& forall|k: int| 0 <= k < i ==> (#[trigger] peers[k]).addr@ != addr
}

/// Whether no peer has that address.
pub open spec fn no_peer(peers: Seq<PeerRow>, addr: Seq<char>) -> bool {
    forall|k: int| 0 <= k < peers.len() ==> (#[trigger] peers[k]).addr@ != addr
}

/// Whether `result` is the card of the first of some peers that has that address, or the
/// refusal where none has it.
pub open spec fn is_card_of(
    result: Result<Vec<u8>, AppError>,
    peers: Seq<PeerRow>,
    addr: Seq<char>,
) -> bool {
    match result {
        Ok(bytes) => exists|i: int| #[trigger]
            is_first_peer(peers, addr, i) && bytes@ == encode_utf8(peer_card_text(peers[i])),
        Err(e) => no_peer(peers, addr) && e.is_other("this peer is no longer connected"@),
    }
}

/// The card of the peer that a path names.
pub fn read_peer(peers: &[PeerRow], path: &str) -> (result: Result<Vec<u8>, AppError>)
    ensures
        is_card_of(result, peers@, internal_path(path@)),
{
    let wanted = normalize_internal_path(path);
    let mut i: usize = 0;
    while i < peers.len()
        invariant
            i <= peers@.len(),
            wanted@ == internal_path(path@),
            forall|k: int| 0 <= k < i ==> (#[trigger] peers@[k]).addr@ != wanted@,
        decreases peers@.len() - i,
    {
        if same_text(peers[i].addr.as_str(), wanted.as_str()) {
            let bytes = bytes_of(peer_card(&peers[i]).as_str());
            assert(is_first_peer(peers@, internal_path(path@), i as int));
            return Ok(bytes);
        }
        i += 1;
    }
    Err(refusal("this peer is no longer connected"))
}

/// Whether the first file of that path stands at `i`.
pub open spec fn is_first_file(entries: Seq<TorrentEntry>, path: Seq<char>, i: int) -> bool {
    &&& 0 <= i < entries.len()
    &&& entries[i].path@ == path
    &&& forall|k: int| 0 <= k < i ==> (#[trigger] entries[k]).path@ != path
}

/// Whether no file has that path.
pub open spec fn no_file(entries: Seq<TorrentEntry>, path: Seq<char>) -> bool {
    forall|k: int| 0 <= k < entries.len() ==> (#[trigger] entries[k]).path@ != path
}

/// The file that a path names.
pub fn find_entry(entries: &[TorrentEntry], path: &str) -> (result: Result<usize, AppError>)
    ensures
        match result {
            Ok(i) => is_first_file(entries@, internal_path(path@), i as int),
            Err(e) => no_file(entries@, internal_path(path@)) && e.is_other(
                "no such file in this torrent"@,
            ),
        },
{
    let wanted = normalize_internal_path(path);
    let mut i: usize = 0;
    while i < entries.len()
        invariant
            i <= entries@.len(),
            wanted@ == internal_path(path@),
            forall|k: int| 0 <= k < i ==> (#[trigger] entries@[k]).path@ != wanted@,
        decreases entries@.len() - i,
    {
        if same_text(entries[i].path.as_str(), wanted.as_str()) {
            return Ok(i);
        }
        i += 1;
    }
    Err(refusal("no such file in this torrent"))
}

/// A torrent file, opened as a directory. The file itself lies in another file system,
/// under `relative_path_in_parent`.
pub struct TorrentFileSystemRpc {
    pub relative_path_in_parent: String,
    pub contents: Option<TorrentContents>,
    pub view: TorrentView,
}

impl TorrentFileSystemRpc {
    pub fn new(relative_path_in_parent: String) -> (rpc: TorrentFileSystemRpc)
        ensures
            rpc.relative_path_in_parent == relative_path_in_parent,
            rpc.contents is None,
            rpc.view is All,
    {
        TorrentFileSystemRpc { relative_path_in_parent, contents: None, view: TorrentView::All }
    }

    /// The path of the torrent file in the file system that holds it.
    pub fn torrent_path(&self) -> (path: &str)
        ensures
            path@ == self.relative_path_in_parent@,
    {
        self.relative_path_in_parent.as_str()
    }

    pub fn view(&self) -> (view: TorrentView)
        ensures
            view == self.view,
    {
        self.view
    }

    pub fn set_view(&mut self, view: TorrentView)
        ensures
            *final(self) == (TorrentFileSystemRpc { view, ..*old(self) }),
    {
        self.view = view;
    }

    /// The name of the torrent, once the file has been read.
    pub fn torrent_name(&self) -> (name: Option<String>)
        ensures
            match self.contents {
                Some(contents) => name matches Some(n) && n@ == contents.name@,
                None => name is None,
            },
    {
        match &self.contents {
            Some(contents) => Some(contents.name.clone()),
            None => None,
        }
    }

    /// Whether the torrent file still has to be read.
    pub fn needs_loading(&self) -> (needed: bool)
        ensures
            needed == (self.contents is None),
    {
        self.contents.is_none()
    }

    /// Keeps what was made of the torrent file. The inner result is that of the parser,
    /// the outer error that of a task which did not come to an end.
    pub fn finish_loading(
        &mut self,
        outcome: Result<Result<TorrentContents, AppError>, String>,
    ) -> (result: Result<(), AppError>)
        ensures
            match outcome {
                Ok(Ok(contents)) => result is Ok && *final(self) == (TorrentFileSystemRpc {
                    contents: Some(contents),
                    ..*old(self)
                }),
                Ok(Err(e)) => result == Err::<(), AppError>(e) && *final(self) == *old(self),
                Err(text) => (result matches Err(e) && e.is_other(text@)) && *final(self) == *old(
                    self,
                ),
            },
    {
        match outcome {
            Ok(Ok(contents)) => {
                self.contents = Some(contents);
                Ok(())
            },
            Ok(Err(e)) => Err(e),
            Err(text) => Err(AppError::Other(text)),
        }
    }

    /// Makes sure that the contents are known: what was read before is kept, otherwise the
    /// bytes of the torrent file are parsed.
    pub fn ensure_loaded(&mut self, data: Result<Vec<u8>, AppError>) -> (result: Result<(), AppError>)
        ensures
            final(self).relative_path_in_parent == old(self).relative_path_in_parent,
            final(self).view == old(self).view,
            old(self).contents is Some ==> result is Ok && *final(self) == *old(self),
            old(self).contents is None ==> match data {
                Err(e) => result == Err::<(), AppError>(e) && *final(self) == *old(self),
                Ok(bytes) => match described(bytes@) {
                    Ok(meta) => match result {
                        Ok(_) => final(self).contents matches Some(contents) && is_contents(
                            Ok(contents),
                            meta,
                        ),
                        Err(e) => is_contents(Err(e), meta) && *final(self) == *old(self),
                    },
                    Err(text) => (result matches Err(e) && e.is_other(
                        "not a valid torrent file: "@ + text,
                    )) && *final(self) == *old(self),
                },
            },
    {
        if self.contents.is_some() {
            return Ok(());
        }
        match data {
            Ok(bytes) => self.finish_loading(Ok(parse_torrent(bytes.as_slice()))),
            Err(e) => Err(e),
        }
    }

    /// The files of the torrent, once the file has been read.
    pub open spec fn files(&self) -> Seq<TorrentEntry> {
        self.contents->Some_0.entries@
    }

    /// The rows that the view shows, once the torrent file has been read.
    pub fn list_dir(&self, engine: &Engine, path: &str) -> (rows: Vec<RemoteFileEntry>)
        requires
            engine.wf(),
            self.contents is Some,
        ensures
            match self.view {
                TorrentView::All => is_listing(
                    rows_of(rows@),
                    children_of(self.files(), internal_path(path@)),
                    level_row(children_of(self.files(), internal_path(path@))),
                ),
                TorrentView::Downloaded => exists|picked: Seq<bool>| #[trigger]
                    is_picked_listing(rows@, self.files(), picked) && picked.len()
                        == self.files().len() && forall|i: int|
                        0 <= i < picked.len() ==> engine@.can_answer_complete(
                            self.relative_path_in_parent@,
                            self.files()[i].id,
                            self.files()[i].size,
                            #[trigger] picked[i],
                        ),
                TorrentView::Peers => exists|found: Seq<PeerRow>| #[trigger]
                    engine@.can_answer_peers(self.relative_path_in_parent@, found)
                        && in_strict_name_order(found) && rows_of(rows@) == found.map_values(
                        |p: PeerRow| peer_row(p),
                    ),
            },
    {
        let entries = match &self.contents {
            Some(contents) => contents.entries.as_slice(),
            None => {
                return Vec::new();
            },
        };
        let key = self.relative_path_in_parent.as_str();
        match self.view {
            TorrentView::All => list_level(entries, path),
            TorrentView::Downloaded => {
                let is_complete = |id: usize, size: u64| -> (complete: bool)
                    requires
                        engine.wf(),
                    ensures
                        engine@.can_answer_complete(key@, id, size, complete),
                    { is_file_complete(engine, key, id, size) };
                let rows = downloaded_rows(entries, is_complete);
                proof {
                    let entries = self.files();
                    let picked = choose|picked: Seq<bool>| #[trigger]
                        is_picked_listing(rows@, entries, picked) && picked.len() == entries.len()
                            && forall|i: int|
                            0 <= i < entries.len() ==> call_ensures(
                                is_complete,
                                ((#[trigger] entries[i]).id, entries[i].size),
                                picked[i],
                            );
                    assert forall|i: int| 0 <= i < picked.len() implies engine@.can_answer_complete(
                        key@,
                        entries[i].id,
                        entries[i].size,
                        #[trigger] picked[i],
                    ) by {
                        assert(call_ensures(is_complete, (entries[i].id, entries[i].size), picked[i]));
                    }
                }
                rows
            },
            TorrentView::Peers => {
                let found = peers(engine, key);
                let rows = peer_rows(found.as_slice());
                assert(engine@.can_answer_peers(key@, found@));
                rows
            },
        }
    }

    /// The card of a peer, where the view shows peers.
    pub fn read_peer_file(&self, engine: &Engine, path: &str) -> (result: Option<
        Result<Vec<u8>, AppError>,
    >)
        requires
            engine.wf(),
        ensures
            result is Some <==> self.view is Peers,
            result matches Some(card) ==> exists|found: Seq<PeerRow>| #[trigger]
                engine@.can_answer_peers(self.relative_path_in_parent@, found) && is_card_of(
                    card,
                    found,
                    internal_path(path@),
                ),
    {
        match self.view {
            TorrentView::Peers => {
                let found = peers(engine, self.relative_path_in_parent.as_str());
                Some(read_peer(found.as_slice(), path))
            },
            _ => None,
        }
    }

    /// Where a file is kept, if it has arrived.
    pub fn read_entry(&self, entry: &TorrentEntry, complete: bool) -> (result: Result<
        String,
        AppError,
    >)
        ensures
            match result {
                Ok(on_disk) => complete && is_downloaded_path(
                    self.relative_path_in_parent@,
                    entry.path@,
                    on_disk@,
                ),
                Err(e) => !complete && e.is_other("this file has not been downloaded yet"@),
            },
    {
        if !complete {
            return Err(refusal("this file has not been downloaded yet"));
        }
        Ok(downloaded_file_path(self.relative_path_in_parent.as_str(), entry.path.as_str()))
    }

    /// Where the file that a path names is kept, if there is one and it has arrived.
    pub fn read_file(&self, engine: &Engine, path: &str) -> (result: Result<String, AppError>)
        requires
            engine.wf(),
            self.contents is Some,
        ensures
            no_file(self.files(), internal_path(path@)) ==> (result matches Err(e)
                && e.is_other("no such file in this torrent"@)),
            forall|i: int| #[trigger]
                is_first_file(self.files(), internal_path(path@), i)
                    ==> engine@.can_answer_complete(
                    self.relative_path_in_parent@,
                    self.files()[i].id,
                    self.files()[i].size,
                    result is Ok,
                ),
            !no_file(self.files(), internal_path(path@)) ==> match result {
                Ok(on_disk) => is_downloaded_path(
                    self.relative_path_in_parent@,
                    internal_path(path@),
                    on_disk@,
                ),
                Err(e) => e.is_other("this file has not been downloaded yet"@),
            },
    {
        let entries = match &self.contents {
            Some(contents) => contents.entries.as_slice(),
            None => {
                return Err(refusal("no such file in this torrent"));
            },
        };
        match find_entry(entries, path) {
            Ok(i) => {
                let entry = &entries[i];
                assert(self.files()[i as int].path@ == internal_path(path@));
                assert forall|k: int| #[trigger]
                    is_first_file(self.files(), internal_path(path@), k) implies k == i by {
                    if k < i {
                        assert(self.files()[k].path@ != internal_path(path@));
                    }
                }
                let complete = is_file_complete(
                    engine,
                    self.relative_path_in_parent.as_str(),
                    entry.id,
                    entry.size,
                );
                self.read_entry(entry, complete)
            },
            Err(e) => Err(e),
        }
    }

    pub fn create_directory(&self, _parent_path: &str, _dir_name: &str, _permissions: Option<u32>) -> (
    result: Result<(), AppError>)
        ensures
            result matches Err(e) && e.is_other("Torrent filesystem is read-only"@),
    {
        Err(refusal("Torrent filesystem is read-only"))
    }

    pub fn delete_entries(&self, _paths: &[String]) -> (result: Result<(), AppError>)
        ensures
            result matches Err(e) && e.is_other("Torrent filesystem is read-only"@),
    {
        Err(refusal("Torrent filesystem is read-only"))
    }

    pub fn rename_entry(&self, _path: &str, _new_path: &str) -> (result: Result<(), AppError>)
        ensures
            result matches Err(e) && e.is_other("Torrent filesystem is read-only"@),
    {
        Err(refusal("Torrent filesystem is read-only"))
    }

    pub fn write_file(&self, _path: &str, _content: &[u8], _permissions: Option<u32>) -> (result:
        Result<(), AppError>)
        ensures
            result matches Err(e) && e.is_other("Torrent filesystem is read-only"@),
    {
        Err(refusal("Torrent filesystem is read-only"))
    }

    pub fn is_read_only(&self) -> (read_only: bool)
        ensures
            read_only,
    {
        true
    }

    pub fn is_local(&self) -> (local: bool)
        ensures
            !local,
    {
        false
    }

    pub fn get_icon(&self, _path: &str) -> (icon: String)
        ensures
            icon@ == "folder"@,
    {
        "folder".to_owned()
    }
}

/// A torrent shows each file that has a readable path and is no padding, and no other, under
/// its place among all files: a file that is hidden keeps its place.
pub proof fn a_hidden_file_keeps_its_place(files: Seq<FileModel>)
    ensures
        forall|k: int|
            0 <= k < shown_files(files).len() ==> {
                let entry = #[trigger] shown_files(files)[k];
                &&& entry.id < files.len()
                &&& shown_path(files[entry.id as int]) == Some(entry.path)
                &&& entry.size == files[entry.id as int].len
            },
        forall|a: int, b: int|
            0 <= a < b < shown_files(files).len() ==> (#[trigger] shown_files(files)[a]).id < (
            #[trigger] shown_files(files)[b]).id,
        forall|i: int|
            0 <= i < files.len() && shown_path(#[trigger] files[i]) is Some ==> exists|k: int|
                0 <= k < shown_files(files).len() && (#[trigger] shown_files(files)[k]).id == i,
    decreases files.len(),
{
    if files.len() > 0 {
        let rest = files.drop_last();
        a_hidden_file_keeps_its_place(rest);
        let shown = shown_files(files);
        let before = shown_files(rest);
        assert forall|k: int| 0 <= k < shown.len() implies {
            let entry = #[trigger] shown[k];
            &&& entry.id < files.len()
            &&& shown_path(files[entry.id as int]) == Some(entry.path)
            &&& entry.size == files[entry.id as int].len
        } by {
            if k < before.len() {
                assert(shown[k] == before[k]);
                assert(rest[before[k].id as int] == files[before[k].id as int]);
            }
        }
        assert forall|a: int, b: int| 0 <= a < b < shown.len() implies (#[trigger] shown[a]).id < (
        #[trigger] shown[b]).id by {
            assert(shown[a] == before[a]);
            if b < before.len() {
                assert(shown[b] == before[b]);
            }
        }
        assert forall|i: int| 0 <= i < files.len() && shown_path(#[trigger] files[i]) is Some implies exists|
            k: int,
        | 0 <= k < shown.len() && (#[trigger] shown[k]).id == i by {
            if i < rest.len() {
                assert(rest[i] == files[i]);
                let k = choose|k: int| 0 <= k < before.len() && (#[trigger] before[k]).id == i;
                assert(shown[k] == before[k]);
            } else {
                assert(shown[before.len() as int].id == i);
            }
        }
    }
}

proof fn lemma_trim_start(text: Seq<char>)
    ensures
        trim_start(text).len() <= text.len(),
        trim_start(text) == text.skip(text.len() - trim_start(text).len()),
        trim_start(text).len() > 0 ==> trim_start(text)[0] != '/',
    decreases text.len(),
{
    if text.len() > 0 && text[0] == '/' {
        let rest = text.drop_first();
        lemma_trim_start(rest);
        assert(rest.skip(rest.len() - trim_start(rest).len()) =~= text.skip(
            text.len() - trim_start(rest).len(),
        ));
    } else {
        assert(text.skip(0) =~= text);
    }
}

/// A torrent file that can be read as it stands describes what the parser finds in it.
pub proof fn a_readable_torrent_file_is_parsed_as_it_stands(data: Seq<u8>)
    requires
        data.len() <= usize::MAX,
        can_be_read(data),
    ensures
        described(data) == metainfo(data),
{
    what_can_be_read_is_left_as_it_is(data);
}

/// Normalizing a path that is normal already changes nothing.
pub proof fn a_normalized_path_is_normal(path: Seq<char>)
    ensures
        internal_path(internal_path(path)) == internal_path(path),
{
    let slashed = slash_form(path);
    let started = trim_start(slashed);
    let normal = internal_path(path);
    lemma_trim_start(slashed);
    lemma_trim_end(started);
    assert forall|i: int| 0 <= i < normal.len() implies normal[i] != '\\' by {
        assert(normal[i] == started[i]);
        assert(started[i] == slashed[i + (slashed.len() - started.len())]);
    }
    assert(slash_form(normal) =~= normal);
    if normal.len() > 0 {
        assert(normal[0] == started[0]);
    }
    assert(trim_start(normal) == normal);
    assert(trim_end(normal) == normal);
}

/// Whether a text is made of slashes and backslashes alone.
pub open spec fn is_all_separators(text: Seq<char>) -> bool {
    forall|i: int| 0 <= i < text.len() ==> (#[trigger] text[i]) == '/' || text[i] == '\\'
}

proof fn lemma_slashes_in_front(slashes: Seq<char>, text: Seq<char>)
    requires
        forall|i: int| 0 <= i < slashes.len() ==> (#[trigger] slashes[i]) == '/',
    ensures
        trim_start(slashes + text) == trim_start(text),
    decreases slashes.len(),
{
    if slashes.len() > 0 {
        assert((slashes + text)[0] == slashes[0]);
        assert((slashes + text).drop_first() =~= slashes.drop_first() + text);
        lemma_slashes_in_front(slashes.drop_first(), text);
    } else {
        assert(slashes + text =~= text);
    }
}

proof fn lemma_slashes_behind(text: Seq<char>, slashes: Seq<char>)
    requires
        forall|i: int| 0 <= i < slashes.len() ==> (#[trigger] slashes[i]) == '/',
    ensures
        trim_end(text + slashes) == trim_end(text),
    decreases slashes.len(),
{
    if slashes.len() > 0 {
        assert((text + slashes).last() == slashes[slashes.len() - 1]);
        assert((text + slashes).drop_last() =~= text + slashes.drop_last());
        lemma_slashes_behind(text, slashes.drop_last());
    } else {
        assert(text + slashes =~= text);
    }
}

proof fn lemma_trimmed_behind(text: Seq<char>, slashes: Seq<char>)
    requires
        forall|i: int| 0 <= i < slashes.len() ==> (#[trigger] slashes[i]) == '/',
    ensures
        trimmed(text + slashes) == trimmed(text),
    decreases text.len(),
{
    if text.len() == 0 {
        assert(text + slashes =~= slashes + text);
        lemma_slashes_in_front(slashes, text);
    } else if text[0] == '/' {
        assert((text + slashes)[0] == '/');
        assert((text + slashes).drop_first() =~= text.drop_first() + slashes);
        lemma_trimmed_behind(text.drop_first(), slashes);
    } else {
        assert((text + slashes)[0] == text[0]);
        lemma_slashes_behind(text, slashes);
    }
}

/// Slashes and backslashes in front of a path and behind it make no difference.
pub proof fn outer_separators_make_no_difference(
    front: Seq<char>,
    path: Seq<char>,
    back: Seq<char>,
)
    requires
        is_all_separators(front),
        is_all_separators(back),
    ensures
        internal_path(front + path + back) == internal_path(path),
{
    let (a, b, c) = (slash_form(front), slash_form(path), slash_form(back));
    assert(slash_form(front + path + back) =~= a + (b + c));
    lemma_slashes_in_front(a, b + c);
    lemma_trimmed_behind(b, c);
}

/// A file shows in a level only if its path goes on behind the path of the level and a
/// slash: files in a directory whose name merely begins alike do not leak in.
pub proof fn a_sibling_directory_does_not_leak(path: Seq<char>, size: u64, dir: Seq<char>)
    requires
        dir.len() > 0,
        !dir.push('/').is_prefix_of(path),
    ensures
        child_of(path, size, dir) is Outside,
{
}

/// A file is listed, with its size, in the directory that its path names.
pub proof fn a_file_is_listed_in_its_directory(dir: Seq<char>, name: Seq<char>, size: u64)
    requires
        name.len() > 0,
        !name.contains('/'),
    ensures
        child_of(level_prefix(dir) + name, size, dir) == Child::File(name, size),
{
    let prefix = level_prefix(dir);
    let path = prefix + name;
    assert(path.skip(prefix.len() as int) =~= name);
    assert(prefix =~= path.subrange(0, prefix.len() as int));
    assert forall|i: int| 0 <= i < name.len() implies name[i] != '/' by {
        assert(name.contains(name[i]));
    }
    lemma_first_slash_is(name, name.len() as int);
    assert(name.take(name.len() as int) =~= name);
}

/// Every directory on the way to a file is listed in the directory above it.
pub proof fn a_directory_is_listed_above_its_files(
    dir: Seq<char>,
    name: Seq<char>,
    rest: Seq<char>,
    size: u64,
)
    requires
        name.len() > 0,
        !name.contains('/'),
    ensures
        child_of(level_prefix(level_prefix(dir) + name) + rest, size, dir) == Child::Dir(name),
{
    let prefix = level_prefix(dir);
    let path = level_prefix(prefix + name) + rest;
    let below = name + seq!['/'] + rest;
    assert(path =~= prefix + below);
    assert(path.skip(prefix.len() as int) =~= below);
    assert(prefix =~= path.subrange(0, prefix.len() as int));
    assert forall|i: int| 0 <= i < name.len() implies below[i] != '/' by {
        assert(name.contains(name[i]));
    }
    lemma_first_slash_is(below, name.len() as int);
    assert(below.take(name.len() as int) =~= name);
}

/// No path that a parsed torrent shows climbs out of the torrent: it is made of parts
/// none of which is `..` or holds a separator.
pub proof fn no_shown_path_climbs_out(meta: MetainfoModel, k: int)
    requires
        has_plain_parts(meta),
        meta.files is Ok,
        0 <= k < shown_files(meta.files->Ok_0).len(),
    ensures
        exists|parts: Seq<Seq<char>>| #[trigger]
            slash_joined(parts) == shown_files(meta.files->Ok_0)[k].path && forall|j: int|
                0 <= j < parts.len() ==> is_plain_part(#[trigger] parts[j]),
{
    let files = meta.files->Ok_0;
    a_hidden_file_keeps_its_place(files);
    let entry = shown_files(files)[k];
    let file = files[entry.id as int];
    let parts = file.parts->Ok_0;
    assert(slash_joined(parts) == entry.path);
}

proof fn lemma_joined_begins_with_first(parts: Seq<Seq<char>>)
    requires
        parts.len() > 0,
        parts[0].len() > 0,
    ensures
        slash_joined(parts).len() > 0,
        slash_joined(parts)[0] == parts[0][0],
    decreases parts.len(),
{
    if parts.len() > 1 {
        let before = parts.drop_last();
        lemma_joined_begins_with_first(before);
        assert(before[0] == parts[0]);
        let path = slash_joined(before) + seq!['/'] + parts.last();
        assert(path[0] == slash_joined(before)[0]);
    }
}

/// On a machine whose paths have slashes, a file whose path is made of plain parts, the first of
/// which is not empty, is kept inside the data folder of its torrent.
pub proof fn a_shown_file_is_kept_in_the_data_folder(
    torrent_path: Seq<char>,
    parts: Seq<Seq<char>>,
    path: Seq<char>,
)
    requires
        forall|separator: char| #[trigger] is_separator(separator) ==> separator == '/',
        is_downloaded_path(torrent_path, slash_joined(parts), path),
        parts.len() > 0,
        parts[0].len() > 0,
        forall|j: int| 0 <= j < parts.len() ==> is_plain_part(#[trigger] parts[j]),
    ensures
        path == data_dir(torrent_path) + seq!['/'] + slash_joined(parts),
{
    lemma_joined_begins_with_first(parts);
    assert(is_plain_part(parts[0]));
    assert(parts[0].contains(parts[0][0]));
    downloaded_files_are_kept_in_the_data_folder(torrent_path, slash_joined(parts), path);
}

} // verus!
