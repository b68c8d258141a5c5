//! The root of all drives.

use vstd::prelude::*;
use vstd::string::*;

use crate::rpc::{new_row, plain_row, refusal, rows_of, AppError, RemoteFileEntry, Row};
use crate::text::same_text;

verus! {

/// A drive of the machine.
#[derive(Clone, Debug, PartialEq, Eq)]
pub struct Drive {
    pub path: String,
    pub is_mounted: bool,
}

/// The row of a drive.
pub open spec fn drive_row(path: Seq<char>) -> Row {
    plain_row(path, true, 0, 0, None)
}

/// The rows of those drives that are shown below the root directory: the mounted ones, the
/// root directory itself left out.
pub open spec fn mounted_rows(drives: Seq<Drive>) -> Seq<Row>
    decreases drives.len(),
{
    if drives.len() == 0 {
        Seq::empty()
    } else {
        let before = mounted_rows(drives.drop_last());
        let drive = drives.last();
        if drive.is_mounted && drive.path@ != "/"@ {
            before.push(drive_row(drive.path@))
        } else {
            before
        }
    }
}

/// The rows of the drives. Where every drive has a root of its own, each is shown;
/// otherwise the root directory comes first, then what is mounted in it.
pub open spec fn shown_drives(drives: Seq<Drive>, own_roots: bool) -> Seq<Row> {
    if own_roots {
        drives.map_values(|d: Drive| drive_row(d.path@))
    } else {
        seq![drive_row("/"@)] + mounted_rows(drives)
    }
}

/// The rows of the drives. `own_roots` tells whether every drive has a root of its own, as
/// on Windows.
pub fn drive_rows(drives: &[Drive], own_roots: bool) -> (rows: Vec<RemoteFileEntry>)
    ensures
        rows_of(rows@) == shown_drives(drives@, own_roots),
{
    let mut rows: Vec<RemoteFileEntry> = Vec::new();
    let mut i: usize = 0;
    if own_roots {
        while i < drives.len()
            invariant
                i <= drives@.len(),
                rows@.len() == i,
                forall|k: int| 0 <= k < i ==> (#[trigger] rows@[k])@ == drive_row(drives@[k].path@),
            decreases drives@.len() - i,
        {
            rows.push(new_row(drives[i].path.clone(), true, 0, 0, None));
            i += 1;
        }
        assert(rows_of(rows@) =~= shown_drives(drives@, true));
        return rows;
    }
    rows.push(new_row("/".to_owned(), true, 0, 0, None));
    assert(rows_of(rows@) =~= seq![drive_row("/"@)] + mounted_rows(drives@.take(0)));
    while i < drives.len()
        invariant
            i <= drives@.len(),
            rows_of(rows@) == seq![drive_row("/"@)] + mounted_rows(drives@.take(i as int)),
        decreases drives@.len() - i,
    {
        let drive = &drives[i];
        let ghost before = rows@;
        assert(drives@.take(i + 1).drop_last() =~= drives@.take(i as int));
        if !same_text(drive.path.as_str(), "/") && drive.is_mounted {
            let row = new_row(drive.path.clone(), true, 0, 0, None);
            rows.push(row);
            assert(rows_of(rows@) =~= rows_of(before).push(row@));
            assert(rows_of(rows@) =~= seq![drive_row("/"@)] + mounted_rows(drives@.take(i + 1)));
        }
        i += 1;
    }
    assert(drives@.take(i as int) =~= drives@);
    rows
}

/// The root of all drives.
pub struct DrivesRootRpc;

impl DrivesRootRpc {
    pub fn new() -> (rpc: DrivesRootRpc)
        ensures
            rpc == DrivesRootRpc,
    {
        DrivesRootRpc
    }

    /// The rows of the drives, by what the machine has. The error is that of a task which did
    /// not come to an end.
    pub fn list_dir(&self, drives: Result<Vec<Drive>, String>, own_roots: bool) -> (result: Result<
        Vec<RemoteFileEntry>,
        AppError,
    >)
        ensures
            match drives {
                Ok(found) => result matches Ok(rows) && rows_of(rows@) == shown_drives(
                    found@,
                    own_roots,
                ),
                Err(text) => result matches Err(e) && e.is_other(text@),
            },
    {
        match drives {
            Ok(found) => Ok(drive_rows(found.as_slice(), own_roots)),
            Err(text) => Err(AppError::Other(text)),
        }
    }

    pub fn create_directory(&self, _parent_path: &str, _dir_name: &str, _permissions: Option<u32>) -> (
    result: Result<(), AppError>)
        ensures
            result matches Err(e) && e.is_other("Cannot create directory in drives root"@),
    {
        Err(refusal("Cannot create directory in drives root"))
    }

    pub fn rename_entry(&self, _path: &str, _new_path: &str) -> (result: Result<(), AppError>)
        ensures
            result matches Err(e) && e.is_other("Cannot rename in drives root"@),
    {
        Err(refusal("Cannot rename in drives root"))
    }

    pub fn delete_entries(&self, _paths: &[String]) -> (result: Result<(), AppError>)
        ensures
            result matches Err(e) && e.is_other("Cannot delete in drives root"@),
    {
        Err(refusal("Cannot delete in drives root"))
    }

    pub fn get_icon(&self, _path: &str) -> (icon: String)
        ensures
            icon@ == "/com/icecommander/gtk/home.svg"@,
    {
        "/com/icecommander/gtk/home.svg".to_owned()
    }

    pub fn is_root_fs(&self) -> (root: bool)
        ensures
            root,
    {
        true
    }
}

/// Without roots of their own, the drives that are shown are the root directory and, each in
/// its turn, the mounted ones besides it: no drive that is not mounted, and the root directory
/// once.
pub proof fn only_mounted_drives_are_shown(drives: Seq<Drive>, k: int)
    requires
        0 <= k < mounted_rows(drives).len(),
    ensures
        mounted_rows(drives)[k].name != "/"@,
        exists|i: int|
            0 <= i < drives.len() && (#[trigger] drives[i]).is_mounted && drives[i].path@
                == mounted_rows(drives)[k].name,
    decreases drives.len(),
{
    let rest = drives.drop_last();
    if k < mounted_rows(rest).len() {
        only_mounted_drives_are_shown(rest, k);
        let i = choose|i: int|
            0 <= i < rest.len() && (#[trigger] rest[i]).is_mounted && rest[i].path@
                == mounted_rows(rest)[k].name;
        assert(drives[i] == rest[i]);
    } else {
        assert(drives.last() == drives[drives.len() - 1]);
    }
}

} // verus!
