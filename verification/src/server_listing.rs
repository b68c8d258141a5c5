//! What a server lists of a directory.

use vstd::prelude::*;

use crate::dates::{date_stamp, is_date_stamp, DateStyle};
use crate::rpc::{new_row, plain_row, AppError, RemoteFileEntry};

verus! {

/// A directory that a server lists: its name and its date.
pub type ListedDir = (String, String);

/// A file that a server lists: its name, its size and its date.
pub type ListedFile = (String, u64, String);

/// What asking a server for a directory comes to. The inner result is that of the server,
/// the outer error that of a task which did not come to an end.
pub type Listed = Result<Result<(Vec<ListedDir>, Vec<ListedFile>), String>, String>;

/// Whether `row` shows a directory with its date.
pub open spec fn is_dated_dir(row: RemoteFileEntry, dir: ListedDir, style: DateStyle) -> bool {
    &&& row@ == plain_row(dir.0@, true, 0, row.modified, None)
    &&& is_date_stamp(style, row.modified, dir.1@)
}

/// Whether `row` shows a file with its size and date.
pub open spec fn is_dated_file(row: RemoteFileEntry, file: ListedFile, style: DateStyle) -> bool {
    &&& row@ == plain_row(file.0@, false, file.1, row.modified, None)
    &&& is_date_stamp(style, row.modified, file.2@)
}

/// Whether `rows` show the directories, then the files, in the order in which the server
/// lists them.
pub open spec fn are_listed_rows(
    rows: Seq<RemoteFileEntry>,
    dirs: Seq<ListedDir>,
    files: Seq<ListedFile>,
    style: DateStyle,
) -> bool {
    &&& rows.len() == dirs.len() + files.len()
    &&& forall|i: int| 0 <= i < dirs.len() ==> is_dated_dir(#[trigger] rows[i], dirs[i], style)
    &&& forall|i: int|
        dirs.len() <= i < rows.len() ==> is_dated_file(
            #[trigger] rows[i],
            files[i - dirs.len()],
            style,
        )
}

/// The rows of what a server lists.
pub fn listed_rows(dirs: &[ListedDir], files: &[ListedFile], style: DateStyle) -> (rows: Vec<
    RemoteFileEntry,
>)
    ensures
        are_listed_rows(rows@, dirs@, files@, style),
{
    let mut rows: Vec<RemoteFileEntry> = Vec::new();
    let mut i: usize = 0;
    while i < dirs.len()
        invariant
            i <= dirs@.len(),
            rows@.len() == i,
            forall|k: int| 0 <= k < i ==> is_dated_dir(#[trigger] rows@[k], dirs@[k], style),
        decreases dirs@.len() - i,
    {
        let modified = date_stamp(style, dirs[i].1.as_str());
        rows.push(new_row(dirs[i].0.clone(), true, 0, modified, None));
        i += 1;
    }
    let mut j: usize = 0;
    while j < files.len()
        invariant
            j <= files@.len(),
            rows@.len() == dirs@.len() + j,
            forall|k: int|
                0 <= k < dirs@.len() ==> is_dated_dir(#[trigger] rows@[k], dirs@[k], style),
            forall|k: int|
                dirs@.len() <= k < rows@.len() ==> is_dated_file(
                    #[trigger] rows@[k],
                    files@[k - dirs@.len()],
                    style,
                ),
        decreases files@.len() - j,
    {
        let modified = date_stamp(style, files[j].2.as_str());
        rows.push(new_row(files[j].0.clone(), false, files[j].1, modified, None));
        j += 1;
    }
    rows
}

/// Whether `result` is what a panel gets of what a server lists.
pub open spec fn is_listing_result(
    result: Result<Vec<RemoteFileEntry>, AppError>,
    listed: Listed,
    style: DateStyle,
) -> bool {
    match listed {
        Ok(Ok((dirs, files))) => result matches Ok(rows) && are_listed_rows(
            rows@,
            dirs@,
            files@,
            style,
        ),
        Ok(Err(text)) => result matches Err(e) && e.is_remote(text@),
        Err(text) => result matches Err(e) && e.is_remote(text@),
    }
}

/// What a panel gets of what a server lists.
pub fn listing_result(listed: Listed, style: DateStyle) -> (result: Result<
    Vec<RemoteFileEntry>,
    AppError,
>)
    ensures
        is_listing_result(result, listed, style),
{
    match listed {
        Ok(Ok((dirs, files))) => Ok(listed_rows(dirs.as_slice(), files.as_slice(), style)),
        Ok(Err(text)) => Err(AppError::Remote(text)),
        Err(text) => Err(AppError::Remote(text)),
    }
}

} // verus!
