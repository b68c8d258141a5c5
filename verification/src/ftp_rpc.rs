//! A directory on an FTP server.

use vstd::prelude::*;
use vstd::string::*;

use crate::dates::{date_stamp, is_date_stamp, DateStyle};
use crate::decimal::{decimal, decimal_is_injective, decimal_text};
use crate::rpc::{
    file_name_or, is_joined, is_name_or, is_root, is_root_path, join_path, AppError,
    RemoteFileEntry,
};
use crate::server_listing::{is_listing_result, listing_result, Listed};
use crate::transfer::written_result;

verus! {

/// The stamp of a date as an FTP server writes it, or zero.
pub fn parse_date_str(date_str: &str) -> (seconds: u64)
    ensures
        is_date_stamp(DateStyle::Listing, seconds, date_str@),
{
    date_stamp(DateStyle::Listing, date_str)
}

/// A connection to an FTP server.
pub struct LocalFtpRpc {
    pub name: String,
    pub host: String,
    pub port: u16,
    pub user: String,
    pub pass: String,
}

/// What is told of a task that was to write a file and did not come to an end.
pub const WRITER_PANICKED: &'static str = "Writer task panicked";

/// What is told of a finished download. `written` is the result of the task which wrote the
/// file, if the task came to an end.
pub fn download_result(
    download: Result<Result<(), String>, String>,
    written: Option<Result<(), String>>,
) -> (result: Result<(), String>)
    ensures
        match download {
            Ok(Err(text)) => result == Err::<(), String>(text),
            Err(text) => result == Err::<(), String>(text),
            Ok(Ok(_)) => match written {
                Some(outcome) => result == outcome,
                None => result matches Err(text) && text@ == WRITER_PANICKED@,
            },
        },
{
    let written: Result<Result<(), String>, String> = match written {
        Some(outcome) => Ok(outcome),
        None => Err(WRITER_PANICKED.to_owned()),
    };
    written_result(download, written)
}

impl LocalFtpRpc {
    /// What tells connections apart: the user, the host and the port.
    pub open spec fn id(&self) -> Seq<char> {
        "ftp://"@ + self.user@ + "@"@ + self.host@ + ":"@ + decimal(self.port as nat)
    }

    /// What tells connections apart: the user, the host and the port.
    pub fn connection_id(&self) -> (id: Option<String>)
        ensures
            id matches Some(text) && text@ == self.id(),
    {
        let mut id = "ftp://".to_owned();
        id.append(self.user.as_str());
        id.append("@");
        id.append(self.host.as_str());
        id.append(":");
        id.append(decimal_text(self.port as u64).as_str());
        Some(id)
    }

    /// The name that a panel shows: the host, unless the connection has a name of its own.
    pub fn display_name(&self) -> (name: Option<String>)
        ensures
            name matches Some(text) && text@ == if self.name@.len() == 0 {
                self.host@
            } else {
                self.name@
            },
    {
        if self.name.as_str().unicode_len() == 0 {
            Some(self.host.clone())
        } else {
            Some(self.name.clone())
        }
    }

    pub fn get_icon(&self, path: &str) -> (icon: String)
        ensures
            icon@ == if is_root_path(path@) {
                "/com/icecommander/gtk/ftp.svg"@
            } else {
                "/com/icecommander/gtk/folder.svg"@
            },
    {
        if is_root(path) {
            "/com/icecommander/gtk/ftp.svg".to_owned()
        } else {
            "/com/icecommander/gtk/folder.svg".to_owned()
        }
    }

    /// The rows of a directory, by what the server lists.
    pub fn list_dir(&self, listed: Listed) -> (result: Result<Vec<RemoteFileEntry>, AppError>)
        ensures
            is_listing_result(result, listed, DateStyle::Listing),
    {
        listing_result(listed, DateStyle::Listing)
    }

    /// The path of a directory or a file that is to be made in another directory.
    pub fn path_in(&self, parent_path: &str, name: &str) -> (path: String)
        ensures
            is_joined(parent_path@, name@, path@),
    {
        join_path(parent_path, name)
    }

    /// The name under which a downloaded file is put into the folder for downloads.
    pub fn download_name(&self, file_path: &str) -> (name: String)
        ensures
            is_name_or(file_path@, "downloaded_file"@, name@),
    {
        file_name_or(file_path, "downloaded_file")
    }
}

/// Connections of one user to different ports of a host are told apart.
pub proof fn ports_of_one_host_are_told_apart(a: LocalFtpRpc, b: LocalFtpRpc)
    requires
        a.user@ == b.user@,
        a.host@ == b.host@,
    ensures
        a.id() == b.id() <==> a.port == b.port,
{
    let start = "ftp://"@ + a.user@ + "@"@ + a.host@ + ":"@;
    if a.id() == b.id() {
        assert(decimal(a.port as nat) =~= a.id().skip(start.len() as int));
        assert(decimal(b.port as nat) =~= b.id().skip(start.len() as int));
        decimal_is_injective(a.port as nat, b.port as nat);
    }
}

/// How often a file is sent before an upload is given up.
pub const UPLOAD_ATTEMPTS: u32 = 2;

/// The state of an upload: how often sending the file has failed.
pub struct Upload {
    pub attempts: u32,
}

/// What an upload does next.
pub enum UploadAction {
    /// Drops the session, if there is one, and connects.
    Connect,
    /// Sends the file from its start.
    Send,
    /// Drops the session and begins again.
    Retry,
    /// Is done.
    Done,
    /// Gives up.
    Fail(String),
}

impl Upload {
    pub fn new() -> (upload: Upload)
        ensures
            upload.attempts == 0,
    {
        Upload { attempts: 0 }
    }

    /// What is done with the session at hand, if any: `alive` tells whether it still answers.
    pub fn begin(&self, alive: Option<bool>) -> (action: UploadAction)
        ensures
            match action {
                UploadAction::Send => alive == Some(true),
                UploadAction::Connect => alive != Some(true),
                _ => false,
            },
    {
        match alive {
            Some(true) => UploadAction::Send,
            _ => UploadAction::Connect,
        }
    }

    /// What is done after an attempt to connect: a server that cannot be reached ends the
    /// upload.
    pub fn connected(&self, outcome: Result<(), String>) -> (action: UploadAction)
        ensures
            match outcome {
                Ok(_) => action is Send,
                Err(text) => action == UploadAction::Fail(text),
            },
    {
        match outcome {
            Ok(_) => UploadAction::Send,
            Err(text) => UploadAction::Fail(text),
        }
    }

    /// What follows the sending of the file.
    pub open spec fn after_sending(self, outcome: Result<(), String>) -> (Upload, UploadAction) {
        match outcome {
            Ok(_) => (self, UploadAction::Done),
            Err(text) => {
                let failed = Upload { attempts: (self.attempts + 1) as u32 };
                if failed.attempts >= UPLOAD_ATTEMPTS {
                    (failed, UploadAction::Fail(text))
                } else {
                    (failed, UploadAction::Retry)
                }
            },
        }
    }

    /// Notes how sending the file went.
    pub fn sent(&mut self, outcome: Result<(), String>) -> (action: UploadAction)
        requires
            old(self).attempts < UPLOAD_ATTEMPTS,
        ensures
            (*final(self), action) == old(self).after_sending(outcome),
            action is Retry ==> final(self).attempts < UPLOAD_ATTEMPTS,
    {
        match outcome {
            Ok(_) => UploadAction::Done,
            Err(text) => {
                self.attempts = self.attempts + 1;
                if self.attempts >= UPLOAD_ATTEMPTS {
                    UploadAction::Fail(text)
                } else {
                    UploadAction::Retry
                }
            },
        }
    }
}

/// A file is sent twice at most: a first failure is followed by another attempt, a second one
/// ends the upload with the second error.
pub proof fn an_upload_is_tried_twice(first: String, second: String)
    ensures
        ({
            let (once, retry) = (Upload { attempts: 0 }).after_sending(Err(first));
            let (_, given_up) = once.after_sending(Err(second));
            retry is Retry && given_up == UploadAction::Fail(second)
        }),
{
}

} // verus!
