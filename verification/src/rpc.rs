//! What every virtual file system hands to a panel: rows of a listing, errors, and the
//! paths that requests are made of.

use vstd::prelude::*;

use crate::order::Named;
use crate::text::{chars_of, joined, joined3, slash_form, text_between, trim_end, with_slashes};

verus! {

/// Why a request failed.
#[derive(Clone, Debug, PartialEq, Eq)]
pub enum AppError {
    /// The file system itself refuses or cannot do it.
    Other(String),
    /// A server or the connection to it failed.
    Remote(String),
    /// Reading or writing bytes failed.
    Io(String),
}

impl AppError {
    /// Whether this is [`AppError::Other`] with the given text.
    pub open spec fn is_other(self, text: Seq<char>) -> bool {
        self matches AppError::Other(t) && t@ == text
    }

    /// Whether this is [`AppError::Remote`] with the given text.
    pub open spec fn is_remote(self, text: Seq<char>) -> bool {
        self matches AppError::Remote(t) && t@ == text
    }

    /// Whether this is [`AppError::Io`] with the given text.
    pub open spec fn is_io(self, text: Seq<char>) -> bool {
        self matches AppError::Io(t) && t@ == text
    }

    /// The text that tells a person what went wrong.
    pub open spec fn text(self) -> Seq<char> {
        match self {
            AppError::Other(t) => t@,
            AppError::Remote(t) => t@,
            AppError::Io(t) => t@,
        }
    }

    /// The text that tells a person what went wrong.
    pub fn message(&self) -> (text: String)
        ensures
            text@ == self.text(),
    {
        match self {
            AppError::Other(t) => t.clone(),
            AppError::Remote(t) => t.clone(),
            AppError::Io(t) => t.clone(),
        }
    }
}

/// A refusal with a fixed text.
pub fn refusal(text: &str) -> (error: AppError)
    ensures
        error.is_other(text@),
{
    AppError::Other(text.to_owned())
}

/// One row of a directory listing.
#[derive(Clone, Debug, PartialEq, Eq)]
pub struct RemoteFileEntry {
    pub name: String,
    pub is_dir: bool,
    pub size: u64,
    pub modified: u64,
    pub permissions: Option<u32>,
    pub extra: Vec<String>,
}

/// What a row of a listing says.
pub struct Row {
    pub name: Seq<char>,
    pub is_dir: bool,
    pub size: u64,
    pub modified: u64,
    pub permissions: Option<u32>,
    pub extra: Seq<Seq<char>>,
}

impl View for RemoteFileEntry {
    type V = Row;

    open spec fn view(&self) -> Row {
        Row {
            name: self.name@,
            is_dir: self.is_dir,
            size: self.size,
            modified: self.modified,
            permissions: self.permissions,
            extra: self.extra@.map_values(|t: String| t@),
        }
    }
}

/// What the rows of a listing say.
pub open spec fn rows_of(entries: Seq<RemoteFileEntry>) -> Seq<Row> {
    entries.map_values(|e: RemoteFileEntry| e@)
}

/// A row without extra columns.
pub open spec fn plain_row(
    name: Seq<char>,
    is_dir: bool,
    size: u64,
    modified: u64,
    permissions: Option<u32>,
) -> Row {
    Row { name, is_dir, size, modified, permissions, extra: Seq::empty() }
}

/// A row without extra columns.
pub fn new_row(
    name: String,
    is_dir: bool,
    size: u64,
    modified: u64,
    permissions: Option<u32>,
) -> (row: RemoteFileEntry)
    ensures
        row@ == plain_row(name@, is_dir, size, modified, permissions),
{
    let row = RemoteFileEntry { name, is_dir, size, modified, permissions, extra: Vec::new() };
    assert(row@.extra =~= Seq::<Seq<char>>::empty());
    row
}

impl Named for RemoteFileEntry {
    open spec fn key(&self) -> Seq<char> {
        self.name@
    }

    fn key_text(&self) -> (text: &str) {
        self.name.as_str()
    }
}

/// The outcome of work done by a task: the inner result is that of the work, the outer
/// error that of a task which did not come to an end. Either failure is a remote error.
pub fn remote_result<T>(outcome: Result<Result<T, String>, String>) -> (result: Result<T, AppError>)
    ensures
        match outcome {
            Ok(Ok(value)) => result == Ok::<T, AppError>(value),
            Ok(Err(text)) => result matches Err(e) && e.is_remote(text@),
            Err(text) => result matches Err(e) && e.is_remote(text@),
        },
{
    match outcome {
        Ok(Ok(value)) => Ok(value),
        Ok(Err(text)) => Err(AppError::Remote(text)),
        Err(text) => Err(AppError::Remote(text)),
    }
}

/// A path with one more part, as paths are written with slashes: an absolute part takes the
/// place of the path, and no separator is put behind an empty path or behind one that ends
/// with a slash.
pub open spec fn path_with(base: Seq<char>, part: Seq<char>) -> Seq<char> {
    if part.len() > 0 && part[0] == '/' {
        part
    } else if base.len() == 0 || base.last() == '/' {
        base + part
    } else {
        base + seq!['/'] + part
    }
}

/// Reads `std::path::MAIN_SEPARATOR`. Nothing is claimed of it: it is that of the machine.
#[verifier::external_body]
pub(crate) fn main_separator() -> (separator: char) {
    std::path::MAIN_SEPARATOR
}

/// Whether the machine, asked for the separator of its paths, can answer with this one.
pub closed spec fn is_separator(separator: char) -> bool {
    call_ensures(main_separator, (), separator)
}

/// Calls `std::path::Path::join`. Nothing is claimed of the result: where paths are not written
/// with slashes alone, it rests on the drives and prefixes that the machine knows.
#[verifier::external_body]
pub(crate) fn join_by_machine(base: &str, part: &str) -> (path: String) {
    std::path::Path::new(base).join(part).to_string_lossy().into_owned()
}

/// Whether the machine, asked for a path with one more part, can answer with this one.
pub closed spec fn machine_joins(base: Seq<char>, part: Seq<char>, path: Seq<char>) -> bool {
    exists|b: &str, p: &str, joined: String| #[trigger]
        call_ensures(join_by_machine, (b, p), joined) && b@ == base && p@ == part && joined@ == path
}

/// Whether `path` is a path with one more part, on a machine with that separator: by the rules
/// of paths with slashes, or by its own.
pub open spec fn is_joined_with(
    separator: char,
    base: Seq<char>,
    part: Seq<char>,
    path: Seq<char>,
) -> bool {
    if separator == '/' {
        path == path_with(base, part)
    } else {
        machine_joins(base, part, path)
    }
}

/// Whether `path` is a path with one more part, on this machine.
pub open spec fn is_joined(base: Seq<char>, part: Seq<char>, path: Seq<char>) -> bool {
    exists|separator: char| #[trigger]
        is_separator(separator) && is_joined_with(separator, base, part, path)
}

/// A path with one more part, on this machine.
pub fn join_path(base: &str, part: &str) -> (path: String)
    ensures
        is_joined(base@, part@, path@),
{
    let separator = main_separator();
    assert(is_separator(separator));
    join_path_with(separator, base, part)
}

/// A path with one more part, on a machine with that separator.
pub fn join_path_with(separator: char, base: &str, part: &str) -> (path: String)
    ensures
        is_joined_with(separator, base@, part@, path@),
{
    if separator != '/' {
        let path = join_by_machine(base, part);
        assert(call_ensures(join_by_machine, (base, part), path));
        return path;
    }
    proof {
        reveal_strlit("/");
        assert("/"@ =~= seq!['/']);
    }
    let b = chars_of(base);
    let p = chars_of(part);
    if p.len() > 0 && p[0] == '/' {
        part.to_owned()
    } else if b.len() == 0 || b[b.len() - 1] == '/' {
        joined(base, part)
    } else {
        joined3(base, "/", part)
    }
}

/// Where the last part of a path begins: behind its last slash.
pub open spec fn last_part_start(path: Seq<char>) -> int
    decreases path.len(),
{
    if path.len() == 0 || path.last() == '/' {
        path.len() as int
    } else {
        last_part_start(path.drop_last())
    }
}

/// The last part begins inside the path, behind a slash, and holds none.
pub proof fn lemma_last_part_start(path: Seq<char>)
    ensures
        0 <= last_part_start(path) <= path.len(),
        last_part_start(path) > 0 ==> path[last_part_start(path) - 1] == '/',
        forall|i: int| last_part_start(path) <= i < path.len() ==> path[i] != '/',
    decreases path.len(),
{
    if path.len() > 0 && path.last() != '/' {
        let before = path.drop_last();
        lemma_last_part_start(before);
        assert forall|i: int| last_part_start(path) <= i < path.len() implies path[i] != '/' by {
            if i < path.len() - 1 {
                assert(before[i] == path[i]);
            }
        }
        if last_part_start(path) > 0 {
            assert(before[last_part_start(path) - 1] == path[last_part_start(path) - 1]);
        }
    }
}

/// What stands behind the last slash of a path.
pub fn last_part(path: &str) -> (part: String)
    ensures
        part@ == path@.skip(last_part_start(path@)),
{
    let chars = chars_of(path);
    let mut start: usize = chars.len();
    assert(chars@.take(start as int) =~= chars@);
    while start > 0 && chars[start - 1] != '/'
        invariant
            start <= chars@.len(),
            last_part_start(chars@) == last_part_start(chars@.take(start as int)),
        decreases start,
    {
        assert(chars@.take(start as int).drop_last() =~= chars@.take(start - 1));
        start -= 1;
    }
    assert(last_part_start(chars@) == start);
    assert(chars@.skip(start as int) =~= chars@.subrange(start as int, chars@.len() as int));
    text_between(chars.as_slice(), start, chars.len())
}

/// A trimmed path is not longer, and does not end with a slash.
pub proof fn lemma_trim_end(path: Seq<char>)
    ensures
        trim_end(path).len() <= path.len(),
        trim_end(path) == path.take(trim_end(path).len() as int),
        trim_end(path).len() > 0 ==> trim_end(path).last() != '/',
    decreases path.len(),
{
    if path.len() > 0 && path.last() == '/' {
        lemma_trim_end(path.drop_last());
        let n = trim_end(path).len() as int;
        assert(path.drop_last().take(n) =~= path.take(n));
    } else {
        assert(path.take(path.len() as int) =~= path);
    }
}

/// The name that a path written with slashes ends with: slashes and `.` parts at its end do
/// not count, and a path that ends with `..` or holds no part has none.
pub open spec fn final_name(path: Seq<char>) -> Option<Seq<char>>
    decreases path.len(),
    via final_name_decreases
{
    let p = trim_end(path);
    let start = last_part_start(p);
    let last = p.skip(start);
    if p.len() == 0 {
        None
    } else if last == seq!['.'] {
        final_name(p.take(start))
    } else if last == seq!['.', '.'] {
        None
    } else {
        Some(last)
    }
}

#[via_fn]
proof fn final_name_decreases(path: Seq<char>) {
    lemma_trim_end(path);
    lemma_last_part_start(trim_end(path));
}

/// Calls `std::path::Path::file_name`. Nothing is claimed of the result: where paths are not
/// written with slashes alone, it rests on the drives and prefixes that the machine knows.
#[verifier::external_body]
pub(crate) fn name_by_machine(path: &str) -> (name: Option<String>) {
    std::path::Path::new(path).file_name().map(|name| name.to_string_lossy().into_owned())
}

/// A name, if there is one, by its characters.
pub open spec fn name_model(name: Option<String>) -> Option<Seq<char>> {
    match name {
        Some(text) => Some(text@),
        None => None,
    }
}

/// Whether the machine, asked for the name that a path ends with, can answer with this one.
pub closed spec fn machine_names(path: Seq<char>, name: Option<Seq<char>>) -> bool {
    exists|p: &str, found: Option<String>| #[trigger]
        call_ensures(name_by_machine, (p,), found) && p@ == path && name_model(found) == name
}

/// Whether `name` is the name that a path ends with, on a machine with that separator: by the
/// rules of paths with slashes, or by its own.
pub open spec fn is_name_with(
    separator: char,
    path: Seq<char>,
    name: Option<Seq<char>>,
) -> bool {
    if separator == '/' {
        name == final_name(path)
    } else {
        machine_names(path, name)
    }
}

/// Whether `name` is the name that a path ends with, on this machine, or what stands for it
/// where there is none.
pub open spec fn is_name_or(path: Seq<char>, otherwise: Seq<char>, name: Seq<char>) -> bool {
    exists|separator: char, found: Option<Seq<char>>|
        is_separator(separator) && #[trigger] is_name_with(separator, path, found) && name == (
        match found {
            Some(last) => last,
            None => otherwise,
        })
}

/// The name that a path ends with, on this machine, or what stands for it where there is none.
pub fn file_name_or(path: &str, otherwise: &str) -> (name: String)
    ensures
        is_name_or(path@, otherwise@, name@),
{
    let separator = main_separator();
    let found = file_name_with(separator, path);
    assert(is_separator(separator) && is_name_with(separator, path@, name_model(found)));
    match found {
        Some(name) => name,
        None => otherwise.to_owned(),
    }
}

/// The name that a path ends with, on a machine with that separator.
pub fn file_name_with(separator: char, path: &str) -> (name: Option<String>)
    ensures
        is_name_with(separator, path@, name_model(name)),
{
    if separator != '/' {
        let name = name_by_machine(path);
        assert(call_ensures(name_by_machine, (path,), name));
        return name;
    }
    slash_name(path)
}

/// The name that a path written with slashes ends with.
fn slash_name(path: &str) -> (name: Option<String>)
    ensures
        name_model(name) == final_name(path@),
{
    let chars = chars_of(path);
    let mut end: usize = chars.len();
    assert(chars@.take(end as int) =~= path@);
    while end > 0
        invariant
            chars@ == path@,
            end <= chars@.len(),
            final_name(path@) == final_name(chars@.take(end as int)),
        decreases end,
    {
        let ghost whole = chars@.take(end as int);
        if chars[end - 1] == '/' {
            proof {
                assert(whole.drop_last() =~= chars@.take(end - 1));
                lemma_trim_end(chars@.take(end - 1));
            }
            end -= 1;
            continue;
        }
        assert(trim_end(whole) == whole);
        let mut start: usize = end;
        assert(whole.take(end as int) =~= whole);
        while start > 0 && chars[start - 1] != '/'
            invariant
                start <= end <= chars@.len(),
                whole == chars@.take(end as int),
                last_part_start(whole) == last_part_start(whole.take(start as int)),
            decreases start,
        {
            assert(whole.take(start as int).drop_last() =~= whole.take(start - 1));
            start -= 1;
        }
        assert(last_part_start(whole) == start);
        assert(whole.skip(start as int) =~= chars@.subrange(start as int, end as int));
        let dots = end - start == 2 && chars[start] == '.' && chars[start + 1] == '.';
        proof {
            if dots {
                assert(whole.skip(start as int) =~= seq!['.', '.']);
            }
        }
        if end - start == 1 && chars[start] == '.' {
            proof {
                assert(whole.skip(start as int) =~= seq!['.']);
                assert(whole.take(start as int) =~= chars@.take(start as int));
                lemma_last_part_start(whole);
            }
            end = start;
        } else if dots {
            return None;
        } else {
            proof {
                let last = whole.skip(start as int);
                assert(last.len() == end - start);
                if last.len() > 0 {
                    assert(last[0] == chars@[start as int]);
                }
                if last.len() > 1 {
                    assert(last[1] == chars@[start + 1]);
                }
                assert(last != seq!['.']);
                assert(last != seq!['.', '.']);
            }
            return Some(text_between(chars.as_slice(), start, end));
        }
    }
    None
}

/// Whether a path is that of the root.
pub open spec fn is_root_path(path: Seq<char>) -> bool {
    slash_form(path).len() == 0 || slash_form(path) == seq!['/']
}

/// Whether a path is that of the root.
pub fn is_root(path: &str) -> (root: bool)
    ensures
        root == is_root_path(path@),
{
    let slashed = chars_of(with_slashes(path).as_str());
    let root = slashed.len() == 0 || (slashed.len() == 1 && slashed[0] == '/');
    proof {
        if slashed@.len() == 1 && slashed@[0] == '/' {
            assert(slashed@ =~= seq!['/']);
        }
    }
    root
}

} // verus!
