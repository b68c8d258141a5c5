//! A directory on a WebDAV server.

use vstd::prelude::*;
use vstd::string::*;

use crate::dates::{date_stamp, is_date_stamp, DateStyle};
use crate::rpc::{
    file_name_or, is_joined, is_name_or, is_root, is_root_path, join_path, AppError,
    RemoteFileEntry,
};
use crate::server_listing::{is_listing_result, listing_result, Listed};

verus! {

/// The stamp of a date as the listing of a WebDAV directory writes it, or zero.
pub fn parse_date_str(date_str: &str) -> (seconds: u64)
    ensures
        is_date_stamp(DateStyle::Numeric, seconds, date_str@),
{
    date_stamp(DateStyle::Numeric, date_str)
}

/// A connection to a WebDAV server.
pub struct LocalWebDavRpc {
    pub name: String,
    pub url: String,
    pub user: Option<String>,
    pub pass: Option<String>,
    pub remote_path: Option<String>,
}

impl LocalWebDavRpc {
    /// The name of the user, empty for a connection without one.
    pub open spec fn user_name(&self) -> Seq<char> {
        match self.user {
            Some(user) => user@,
            None => Seq::empty(),
        }
    }

    /// What tells connections apart: the user and the address.
    pub open spec fn id(&self) -> Seq<char> {
        "webdav://"@ + self.user_name() + "@"@ + self.url@
    }

    /// What tells connections apart: the user and the address.
    pub fn connection_id(&self) -> (id: Option<String>)
        ensures
            id matches Some(text) && text@ == self.id(),
    {
        let mut id = "webdav://".to_owned();
        match &self.user {
            Some(user) => {
                id.append(user.as_str());
            },
            None => {
                assert("webdav://"@ + Seq::<char>::empty() =~= "webdav://"@);
            },
        }
        id.append("@");
        id.append(self.url.as_str());
        Some(id)
    }

    /// The name that a panel shows: the address, unless the connection has a name of its own.
    pub fn display_name(&self) -> (name: Option<String>)
        ensures
            name matches Some(text) && text@ == if self.name@.len() == 0 {
                self.url@
            } else {
                self.name@
            },
    {
        if self.name.as_str().unicode_len() == 0 {
            Some(self.url.clone())
        } else {
            Some(self.name.clone())
        }
    }

    pub fn get_icon(&self, path: &str) -> (icon: String)
        ensures
            icon@ == if is_root_path(path@) {
                "/com/icecommander/gtk/netdrive.svg"@
            } else {
                "/com/icecommander/gtk/folder.svg"@
            },
    {
        if is_root(path) {
            "/com/icecommander/gtk/netdrive.svg".to_owned()
        } else {
            "/com/icecommander/gtk/folder.svg".to_owned()
        }
    }

    /// The rows of a directory, by what the server lists.
    pub fn list_dir(&self, listed: Listed) -> (result: Result<Vec<RemoteFileEntry>, AppError>)
        ensures
            is_listing_result(result, listed, DateStyle::Numeric),
    {
        listing_result(listed, DateStyle::Numeric)
    }

    /// The path of a directory or a file that is to be made in another directory.
    pub fn path_in(&self, parent_path: &str, name: &str) -> (path: String)
        ensures
            is_joined(parent_path@, name@, path@),
    {
        join_path(parent_path, name)
    }

    /// The name under which a downloaded file is put into the folder for downloads.
    pub fn download_name(&self, file_path: &str) -> (name: String)
        ensures
            is_name_or(file_path@, "downloaded_file"@, name@),
    {
        file_name_or(file_path, "downloaded_file")
    }
}

/// What is to be done next about entries that are to be deleted.
pub enum DeleteStep {
    /// The entry at that place is to be deleted.
    Delete(usize),
    /// All are deleted.
    Done,
    /// One could not be deleted; those behind it are left alone.
    Fail(AppError),
}

impl DeleteStep {
    /// What deleting that many entries begins with.
    pub open spec fn first(total: usize) -> DeleteStep {
        if total > 0 {
            DeleteStep::Delete(0)
        } else {
            DeleteStep::Done
        }
    }

    /// What follows once the server has answered.
    pub open spec fn answered(self, total: usize, outcome: Result<(), String>) -> DeleteStep {
        match self {
            DeleteStep::Delete(at) => match outcome {
                Ok(_) => if at + 1 < total {
                    DeleteStep::Delete((at + 1) as usize)
                } else {
                    DeleteStep::Done
                },
                Err(text) => DeleteStep::Fail(AppError::Remote(text)),
            },
            _ => self,
        }
    }

    /// What follows these answers of the server, one after another.
    pub open spec fn after(total: usize, outcomes: Seq<Result<(), String>>) -> DeleteStep
        decreases outcomes.len(),
    {
        if outcomes.len() == 0 {
            DeleteStep::first(total)
        } else {
            DeleteStep::after(total, outcomes.drop_last()).answered(total, outcomes.last())
        }
    }
}

/// What deleting that many entries begins with.
pub fn first_delete(total: usize) -> (step: DeleteStep)
    ensures
        step == DeleteStep::first(total),
{
    if total > 0 {
        DeleteStep::Delete(0)
    } else {
        DeleteStep::Done
    }
}

/// What follows once the server has answered about the entry at a place.
pub fn after_delete(at: usize, total: usize, outcome: Result<(), String>) -> (step: DeleteStep)
    requires
        at < total,
    ensures
        step == DeleteStep::Delete(at).answered(total, outcome),
{
    match outcome {
        Ok(_) => if at + 1 < total {
            DeleteStep::Delete(at + 1)
        } else {
            DeleteStep::Done
        },
        Err(text) => DeleteStep::Fail(AppError::Remote(text)),
    }
}

/// As long as the server deletes what it is asked to, every entry gets its turn, in order.
pub proof fn entries_are_deleted_in_order(total: usize, outcomes: Seq<Result<(), String>>)
    requires
        outcomes.len() <= total,
        forall|i: int| 0 <= i < outcomes.len() ==> (#[trigger] outcomes[i]) is Ok,
    ensures
        DeleteStep::after(total, outcomes) == if outcomes.len() < total {
            DeleteStep::Delete(outcomes.len() as usize)
        } else {
            DeleteStep::Done
        },
    decreases outcomes.len(),
{
    if outcomes.len() > 0 {
        entries_are_deleted_in_order(total, outcomes.drop_last());
        assert(outcomes.last() == outcomes[outcomes.len() - 1]);
    }
}

/// The first entry that cannot be deleted ends it with its error.
pub proof fn the_first_failure_ends_deleting(
    total: usize,
    outcomes: Seq<Result<(), String>>,
    text: String,
)
    requires
        outcomes.len() < total,
        forall|i: int| 0 <= i < outcomes.len() ==> (#[trigger] outcomes[i]) is Ok,
    ensures
        DeleteStep::after(total, outcomes.push(Err(text))) == DeleteStep::Fail(
            AppError::Remote(text),
        ),
{
    entries_are_deleted_in_order(total, outcomes);
    assert(outcomes.push(Err(text)).drop_last() =~= outcomes);
}

/// Connections of different users to one address are told apart. A connection without a
/// user is one of a user without a name.
pub proof fn users_of_one_server_are_told_apart(a: LocalWebDavRpc, b: LocalWebDavRpc)
    requires
        a.url@ == b.url@,
    ensures
        a.id() == b.id() <==> a.user_name() == b.user_name(),
{
    let start = "webdav://"@;
    let end = "@"@ + a.url@;
    assert(a.id() =~= start + a.user_name() + end);
    assert(b.id() =~= start + b.user_name() + end);
    if a.id() == b.id() {
        assert(a.user_name() =~= a.id().subrange(
            start.len() as int,
            a.id().len() - end.len(),
        ));
        assert(b.user_name() =~= b.id().subrange(
            start.len() as int,
            b.id().len() - end.len(),
        ));
    }
}

} // verus!
