//! Tar archives, plain or packed.

use vstd::prelude::*;
use vstd::slice::slice_subrange;
use vstd::utf8::*;

use crate::archive_entry::{found_models, is_outcome, ArchiveEntry, ArchiveModel};
use crate::tar_walk::{countable, countable_length, loses_count};
use crate::text::{
    ascii_lowercase, ends_with, lossy_text, lowercase, slash_form, text_from_utf8_lossy,
    to_lowercase, with_slashes,
};

verus! {

/// Whether a name ends like that of a tar archive, packed or not.
pub open spec fn has_tar_ending(name: Seq<char>) -> bool {
    ||| ".tar.gz"@.is_suffix_of(name)
    ||| ".tgz"@.is_suffix_of(name)
    ||| ".tar.bz2"@.is_suffix_of(name)
    ||| ".tbz2"@.is_suffix_of(name)
    ||| ".tbz"@.is_suffix_of(name)
    ||| ".tar"@.is_suffix_of(name)
}

/// Whether a name, whatever its case, is that of a tar archive.
pub fn is_tar_format_from_name(name: &str) -> (is_tar: bool)
    ensures
        is_tar == has_tar_ending(lowercase(name@)),
        is_ascii_chars(name@) ==> is_tar == has_tar_ending(ascii_lowercase(name@)),
{
    let n = to_lowercase(name);
    ends_with(n.as_str(), ".tar.gz") || ends_with(n.as_str(), ".tgz") || ends_with(
        n.as_str(),
        ".tar.bz2",
    ) || ends_with(n.as_str(), ".tbz2") || ends_with(n.as_str(), ".tbz") || ends_with(
        n.as_str(),
        ".tar",
    )
}

/// Whether bytes begin as gzip data does.
pub open spec fn is_gzip(data: Seq<u8>) -> bool {
    data.len() >= 2 && data[0] == 0x1f && data[1] == 0x8b
}

/// Whether bytes begin as gzip data does.
pub fn is_gzip_data(data: &[u8]) -> (is: bool)
    ensures
        is == is_gzip(data@),
{
    data.len() >= 2 && data[0] == 0x1f && data[1] == 0x8b
}

/// Whether bytes begin as bzip2 data does: `BZh` and a level from `1` to `9`.
pub open spec fn is_bzip2(data: Seq<u8>) -> bool {
    &&& data.len() >= 4
    &&& data[0] == 0x42 && data[1] == 0x5a && data[2] == 0x68
    &&& 0x31 <= data[3] <= 0x39
}

/// Whether bytes begin as bzip2 data does.
pub fn is_bzip2_data(data: &[u8]) -> (is: bool)
    ensures
        is == is_bzip2(data@),
{
    data.len() >= 4 && data[0] == 0x42 && data[1] == 0x5a && data[2] == 0x68 && data[3] >= 0x31
        && data[3] <= 0x39
}

/// No bytes begin both as gzip and as bzip2 data does.
pub proof fn gzip_and_bzip2_are_told_apart(data: Seq<u8>)
    ensures
        !(is_gzip(data) && is_bzip2(data)),
{
}

/// How the bytes of a tar archive are packed.
#[derive(Clone, Copy, Debug, PartialEq, Eq, Structural)]
pub enum Packing {
    Gzip,
    Bzip2,
    Plain,
}

/// How bytes are packed, by how they begin.
pub open spec fn packing_of(data: Seq<u8>) -> Packing {
    if is_gzip(data) {
        Packing::Gzip
    } else if is_bzip2(data) {
        Packing::Bzip2
    } else {
        Packing::Plain
    }
}

/// How bytes are packed, by how they begin.
pub fn find_packing(data: &[u8]) -> (packing: Packing)
    ensures
        packing == packing_of(data@),
{
    if is_gzip_data(data) {
        Packing::Gzip
    } else if is_bzip2_data(data) {
        Packing::Bzip2
    } else {
        Packing::Plain
    }
}

/// A member as a tar archive describes it.
#[derive(Debug, PartialEq, Eq)]
pub struct TarMember {
    pub path: Vec<u8>,
    pub is_dir: bool,
    pub mode: Option<u32>,
    pub modified: Option<u64>,
    pub size: u64,
}

/// What a [`TarMember`] says.
pub struct TarModel {
    pub path: Seq<u8>,
    pub is_dir: bool,
    pub mode: Option<u32>,
    pub modified: Option<u64>,
    pub size: u64,
}

impl View for TarMember {
    type V = TarModel;

    open spec fn view(&self) -> TarModel {
        TarModel {
            path: self.path@,
            is_dir: self.is_dir,
            mode: self.mode,
            modified: self.modified,
            size: self.size,
        }
    }
}

/// What the members that were found in a tar archive say, or why there is none.
pub open spec fn tar_models(found: Seq<Result<TarMember, String>>) -> Seq<
    Result<TarModel, Seq<char>>,
> {
    found.map_values(
        |f: Result<TarMember, String>|
            match f {
                Ok(m) => Ok::<TarModel, Seq<char>>(m@),
                Err(text) => Err(text@),
            },
    )
}

/// Whether nothing follows a member that could not be read.
pub open spec fn ends_at_first_failure<M, E>(found: Seq<Result<M, E>>) -> bool {
    forall|k: int| 0 <= k < found.len() - 1 ==> (#[trigger] found[k]) is Ok
}

/// What `tar::Archive::entries` finds in some bytes.
pub uninterp spec fn tar_listing(data: Seq<u8>) -> Seq<Result<TarModel, Seq<char>>>;

/// Calls `tar::Archive::entries`, and reads of each entry `path_bytes`, the type, mode and
/// time of its header, and `size`. The outcome depends on the bytes alone, and ends with the
/// first entry that cannot be read; the format itself is not written out. Left out are bytes
/// in which the place of the member behind an extended sparse file overflows.
#[verifier::external_body]
pub(crate) fn list_tar(data: &[u8]) -> (found: Vec<Result<TarMember, String>>)
    requires
        !loses_count(data@),
    ensures
        tar_models(found@) == tar_listing(data@),
        ends_at_first_failure(found@),
{
    let mut archive = tar::Archive::new(data);
    match archive.entries() {
        Ok(entries) => entries.map(|entry| entry.map(|e| TarMember {
            path: e.path_bytes().to_vec(),
            is_dir: e.header().entry_type().is_dir(),
            mode: e.header().mode().ok(),
            modified: e.header().mtime().ok(),
            size: e.size(),
        }).map_err(|e| e.to_string())).collect(),
        Err(e) => vec![Err(e.to_string())],
    }
}

/// The bytes that come out of `flate2::read::GzDecoder` before its first error.
pub uninterp spec fn gzip_bytes(data: Seq<u8>) -> Seq<u8>;

/// Reads `flate2::read::GzDecoder` one byte at a time, up to its end or its first error. The
/// outcome depends on the bytes alone. A larger read that ends in an error gives up what it
/// had decoded, so no reader gets further than this.
#[verifier::external_body]
pub(crate) fn bytes_of_gzip(data: &[u8]) -> (bytes: Vec<u8>)
    ensures
        bytes@ == gzip_bytes(data@),
{
    let decoder = flate2::read::GzDecoder::new(data);
    std::io::Read::bytes(decoder).map_while(|byte| byte.ok()).collect()
}

/// The bytes that come out of `bzip2::read::MultiBzDecoder` before its first error.
pub uninterp spec fn bzip2_bytes(data: Seq<u8>) -> Seq<u8>;

/// As [`bytes_of_gzip`], with `bzip2::read::MultiBzDecoder`.
#[verifier::external_body]
pub(crate) fn bytes_of_bzip2(data: &[u8]) -> (bytes: Vec<u8>)
    ensures
        bytes@ == bzip2_bytes(data@),
{
    let decoder = bzip2::read::MultiBzDecoder::new(data);
    std::io::Read::bytes(decoder).map_while(|byte| byte.ok()).collect()
}

/// What `tar::Archive::entries` finds in bytes behind `flate2::read::GzDecoder`.
pub uninterp spec fn gzip_tar_listing(data: Seq<u8>) -> Seq<Result<TarModel, Seq<char>>>;

/// As [`list_tar`], with the bytes read through `flate2::read::GzDecoder`.
#[verifier::external_body]
pub(crate) fn list_gzip_tar(data: &[u8]) -> (found: Vec<Result<TarMember, String>>)
    requires
        !loses_count(gzip_bytes(data@)),
    ensures
        tar_models(found@) == gzip_tar_listing(data@),
        ends_at_first_failure(found@),
{
    let mut archive = tar::Archive::new(flate2::read::GzDecoder::new(data));
    match archive.entries() {
        Ok(entries) => entries.map(|entry| entry.map(|e| TarMember {
            path: e.path_bytes().to_vec(),
            is_dir: e.header().entry_type().is_dir(),
            mode: e.header().mode().ok(),
            modified: e.header().mtime().ok(),
            size: e.size(),
        }).map_err(|e| e.to_string())).collect(),
        Err(e) => vec![Err(e.to_string())],
    }
}

/// What `tar::Archive::entries` finds in bytes behind `bzip2::read::MultiBzDecoder`.
pub uninterp spec fn bzip2_tar_listing(data: Seq<u8>) -> Seq<Result<TarModel, Seq<char>>>;

/// As [`list_tar`], with the bytes read through `bzip2::read::MultiBzDecoder`.
#[verifier::external_body]
pub(crate) fn list_bzip2_tar(data: &[u8]) -> (found: Vec<Result<TarMember, String>>)
    requires
        !loses_count(bzip2_bytes(data@)),
    ensures
        tar_models(found@) == bzip2_tar_listing(data@),
        ends_at_first_failure(found@),
{
    let mut archive = tar::Archive::new(bzip2::read::MultiBzDecoder::new(data));
    match archive.entries() {
        Ok(entries) => entries.map(|entry| entry.map(|e| TarMember {
            path: e.path_bytes().to_vec(),
            is_dir: e.header().entry_type().is_dir(),
            mode: e.header().mode().ok(),
            modified: e.header().mtime().ok(),
            size: e.size(),
        }).map_err(|e| e.to_string())).collect(),
        Err(e) => vec![Err(e.to_string())],
    }
}

/// The bytes of a tar archive, as far as its decoder can read them.
pub open spec fn unpacked_bytes(data: Seq<u8>) -> Seq<u8> {
    match packing_of(data) {
        Packing::Gzip => gzip_bytes(data),
        Packing::Bzip2 => bzip2_bytes(data),
        Packing::Plain => data,
    }
}

/// What is found in a tar archive, read through the decoder that its packing wants. Where a
/// reader would lose count, the archive ends.
pub open spec fn packed_tar_listing(data: Seq<u8>) -> Seq<Result<TarModel, Seq<char>>> {
    if loses_count(unpacked_bytes(data)) {
        tar_listing(countable(unpacked_bytes(data)))
    } else {
        match packing_of(data) {
            Packing::Gzip => gzip_tar_listing(data),
            Packing::Bzip2 => bzip2_tar_listing(data),
            Packing::Plain => tar_listing(data),
        }
    }
}

/// The part of a tar archive in which a reader can count, where that is not the whole.
fn countable_part(data: &[u8]) -> (part: Option<Vec<u8>>)
    ensures
        match part {
            Some(bytes) => loses_count(unpacked_bytes(data@)) && bytes@ == countable(
                unpacked_bytes(data@),
            ) && !loses_count(bytes@),
            None => !loses_count(unpacked_bytes(data@)),
        },
{
    match find_packing(data) {
        Packing::Gzip => countable_start(bytes_of_gzip(data).as_slice()),
        Packing::Bzip2 => countable_start(bytes_of_bzip2(data).as_slice()),
        Packing::Plain => countable_start(data),
    }
}

fn countable_start(data: &[u8]) -> (part: Option<Vec<u8>>)
    ensures
        match part {
            Some(bytes) => loses_count(data@) && bytes@ == countable(data@) && !loses_count(
                bytes@,
            ),
            None => !loses_count(data@),
        },
{
    let length: usize = countable_length(data);
    if length == data.len() {
        return None;
    }
    let mut bytes: Vec<u8> = Vec::new();
    bytes.extend_from_slice(slice_subrange(data, 0, length));
    assert(bytes@ =~= data@.take(length as int));
    Some(bytes)
}

/// What is found in a tar archive, packed or not.
pub fn list_packed_tar(data: &[u8]) -> (found: Vec<Result<TarMember, String>>)
    ensures
        tar_models(found@) == packed_tar_listing(data@),
        ends_at_first_failure(found@),
{
    match countable_part(data) {
        Some(part) => list_tar(part.as_slice()),
        None => match find_packing(data) {
            Packing::Gzip => list_gzip_tar(data),
            Packing::Bzip2 => list_bzip2_tar(data),
            Packing::Plain => list_tar(data),
        },
    }
}

/// What `std::io::copy` reads of the entry at a place of a tar archive.
pub uninterp spec fn tar_content(data: Seq<u8>, index: nat) -> Result<Seq<u8>, Seq<char>>;

/// Calls `tar::Archive::entries`, goes to the entry at `index` and reads it with
/// `std::io::copy`. The outcome depends on the bytes and the place alone.
#[verifier::external_body]
pub(crate) fn read_tar(data: &[u8], index: usize) -> (content: Result<Vec<u8>, String>)
    requires
        !loses_count(data@),
        index < tar_listing(data@).len(),
    ensures
        is_outcome(content, tar_content(data@, index as nat)),
{
    let mut archive = tar::Archive::new(data);
    let mut entries = archive.entries().map_err(|e| e.to_string())?;
    let entry = entries.nth(index).ok_or_else(String::new)?;
    let mut content = Vec::new();
    let copied = std::io::copy(&mut entry.map_err(|e| e.to_string())?, &mut content);
    copied.map(|_| content).map_err(|e| e.to_string())
}

/// What `std::io::copy` reads of the entry at a place of a tar archive behind
/// `flate2::read::GzDecoder`.
pub uninterp spec fn gzip_tar_content(data: Seq<u8>, index: nat) -> Result<Seq<u8>, Seq<char>>;

/// As [`read_tar`], with the bytes read through `flate2::read::GzDecoder`.
#[verifier::external_body]
pub(crate) fn read_gzip_tar(data: &[u8], index: usize) -> (content: Result<Vec<u8>, String>)
    requires
        !loses_count(gzip_bytes(data@)),
        index < gzip_tar_listing(data@).len(),
    ensures
        is_outcome(content, gzip_tar_content(data@, index as nat)),
{
    let mut archive = tar::Archive::new(flate2::read::GzDecoder::new(data));
    let mut entries = archive.entries().map_err(|e| e.to_string())?;
    let entry = entries.nth(index).ok_or_else(String::new)?;
    let mut content = Vec::new();
    let copied = std::io::copy(&mut entry.map_err(|e| e.to_string())?, &mut content);
    copied.map(|_| content).map_err(|e| e.to_string())
}

/// What `std::io::copy` reads of the entry at a place of a tar archive behind
/// `bzip2::read::MultiBzDecoder`.
pub uninterp spec fn bzip2_tar_content(data: Seq<u8>, index: nat) -> Result<Seq<u8>, Seq<char>>;

/// As [`read_tar`], with the bytes read through `bzip2::read::MultiBzDecoder`.
#[verifier::external_body]
pub(crate) fn read_bzip2_tar(data: &[u8], index: usize) -> (content: Result<Vec<u8>, String>)
    requires
        !loses_count(bzip2_bytes(data@)),
        index < bzip2_tar_listing(data@).len(),
    ensures
        is_outcome(content, bzip2_tar_content(data@, index as nat)),
{
    let mut archive = tar::Archive::new(bzip2::read::MultiBzDecoder::new(data));
    let mut entries = archive.entries().map_err(|e| e.to_string())?;
    let entry = entries.nth(index).ok_or_else(String::new)?;
    let mut content = Vec::new();
    let copied = std::io::copy(&mut entry.map_err(|e| e.to_string())?, &mut content);
    copied.map(|_| content).map_err(|e| e.to_string())
}

/// What is read of a member of a tar archive, through the decoder that its packing wants.
pub open spec fn packed_tar_content(data: Seq<u8>, index: nat) -> Result<Seq<u8>, Seq<char>> {
    if loses_count(unpacked_bytes(data)) {
        tar_content(countable(unpacked_bytes(data)), index)
    } else {
        match packing_of(data) {
            Packing::Gzip => gzip_tar_content(data, index),
            Packing::Bzip2 => bzip2_tar_content(data, index),
            Packing::Plain => tar_content(data, index),
        }
    }
}

/// What is read of a member of a tar archive, packed or not.
pub(crate) fn read_packed_tar(data: &[u8], index: usize) -> (content: Result<Vec<u8>, String>)
    requires
        index < packed_tar_listing(data@).len(),
    ensures
        is_outcome(content, packed_tar_content(data@, index as nat)),
{
    match countable_part(data) {
        Some(part) => read_tar(part.as_slice(), index),
        None => match find_packing(data) {
            Packing::Gzip => read_gzip_tar(data, index),
            Packing::Bzip2 => read_bzip2_tar(data, index),
            Packing::Plain => read_tar(data, index),
        },
    }
}

/// What `flate2::read::GzDecoder` makes of some bytes, read to the end.
pub uninterp spec fn gunzipped(data: Seq<u8>) -> Result<Seq<u8>, Seq<char>>;

/// Calls `std::io::Read::read_to_end` on `flate2::read::GzDecoder`. The outcome depends on
/// the bytes alone; the compression is not written out.
#[verifier::external_body]
pub(crate) fn gunzip(data: &[u8]) -> (unpacked: Result<Vec<u8>, String>)
    ensures
        is_outcome(unpacked, gunzipped(data@)),
{
    let mut out = Vec::new();
    let read = std::io::Read::read_to_end(&mut flate2::read::GzDecoder::new(data), &mut out);
    read.map(|_| out).map_err(|e| e.to_string())
}

/// What `bzip2::read::MultiBzDecoder` makes of some bytes, read to the end.
pub uninterp spec fn bunzipped(data: Seq<u8>) -> Result<Seq<u8>, Seq<char>>;

/// Calls `std::io::Read::read_to_end` on `bzip2::read::MultiBzDecoder`. The outcome depends
/// on the bytes alone; the compression is not written out.
#[verifier::external_body]
pub(crate) fn bunzip2(data: &[u8]) -> (unpacked: Result<Vec<u8>, String>)
    ensures
        is_outcome(unpacked, bunzipped(data@)),
{
    let mut out = Vec::new();
    let read = std::io::Read::read_to_end(&mut bzip2::read::MultiBzDecoder::new(data), &mut out);
    read.map(|_| out).map_err(|e| e.to_string())
}

/// A member of a tar archive as an entry.
pub open spec fn tar_entry(member: TarModel) -> ArchiveModel {
    ArchiveModel {
        name: slash_form(lossy_text(member.path)),
        is_dir: member.is_dir,
        size: member.size,
        permissions: member.mode,
        modified: match member.modified {
            Some(seconds) => seconds,
            None => 0,
        },
    }
}

/// The members of a tar archive as entries.
pub open spec fn tar_entries(listed: Seq<Result<TarModel, Seq<char>>>) -> Seq<
    Result<ArchiveModel, Seq<char>>,
> {
    listed.map_values(
        |f: Result<TarModel, Seq<char>>|
            match f {
                Ok(m) => Ok::<ArchiveModel, Seq<char>>(tar_entry(m)),
                Err(text) => Err(text),
            },
    )
}

/// Whether an entry has the path of its member for a name, where that is valid UTF-8.
pub open spec fn is_named_as_written(
    found: Result<ArchiveEntry, String>,
    listed: Result<TarMember, String>,
) -> bool {
    match listed {
        Ok(member) => valid_utf8(member.path@) ==> (found matches Ok(entry) && entry.name@
            == slash_form(decode_utf8(member.path@))),
        Err(_) => true,
    }
}

/// The members that were found in a tar archive as entries.
pub fn entries_of_tar(listed: &Vec<Result<TarMember, String>>) -> (found: Vec<
    Result<ArchiveEntry, String>,
>)
    ensures
        found_models(found@) == tar_entries(tar_models(listed@)),
        forall|k: int|
            0 <= k < listed@.len() ==> is_named_as_written(found@[k], #[trigger] listed@[k]),
{
    let mut found: Vec<Result<ArchiveEntry, String>> = Vec::new();
    let mut i: usize = 0;
    while i < listed.len()
        invariant
            i <= listed@.len(),
            found@.len() == i,
            forall|k: int|
                0 <= k < i ==> is_named_as_written(found@[k], #[trigger] listed@[k]),
            forall|k: int|
                0 <= k < i ==> #[trigger] found_models(found@)[k] == tar_entries(
                    tar_models(listed@),
                )[k],
        decreases listed@.len() - i,
    {
        let ghost before = found@;
        let one: Result<ArchiveEntry, String> = match &listed[i] {
            Ok(member) => Ok(
                ArchiveEntry {
                    name: with_slashes(text_from_utf8_lossy(member.path.as_slice()).as_str()),
                    is_dir: member.is_dir,
                    size: member.size,
                    permissions: member.mode,
                    modified: match member.modified {
                        Some(seconds) => seconds,
                        None => 0,
                    },
                },
            ),
            Err(text) => Err(text.clone()),
        };
        found.push(one);
        i += 1;
        assert(found_models(found@) =~= found_models(before).push(found_models(found@).last()));
    }
    assert(found_models(found@) =~= tar_entries(tar_models(listed@)));
    found
}

} // verus!
