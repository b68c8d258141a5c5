//! Zip archives.

use vstd::prelude::*;

use crate::archive_entry::{
    found_model, found_models, is_named_by_kind, is_outcome, ArchiveEntry, ArchiveModel,
};
use crate::dates::{instant_of, is_stamp_of, stamp_of_first, CivilTime};
use crate::text::{slash_form, with_slashes};

verus! {

/// A member as the directory of a zip archive describes it. `header_start` is where the
/// archive describes it.
#[derive(Debug, PartialEq, Eq)]
pub struct ZipMember {
    pub name: String,
    pub is_dir: bool,
    pub mode: Option<u32>,
    pub date: (u16, u8, u8),
    pub time: (u8, u8, u8),
    pub size: u64,
    pub header_start: u64,
}

/// What a [`ZipMember`] says.
pub struct ZipModel {
    pub name: Seq<char>,
    pub is_dir: bool,
    pub mode: Option<u32>,
    pub date: (u16, u8, u8),
    pub time: (u8, u8, u8),
    pub size: u64,
    pub header_start: u64,
}

impl View for ZipMember {
    type V = ZipModel;

    open spec fn view(&self) -> ZipModel {
        ZipModel {
            name: self.name@,
            is_dir: self.is_dir,
            mode: self.mode,
            date: self.date,
            time: self.time,
            size: self.size,
            header_start: self.header_start,
        }
    }
}

/// What a member that the directory of a zip archive lists says, or why it cannot be
/// reached.
pub open spec fn listed_model(listed: Result<ZipMember, String>) -> Result<ZipModel, Seq<char>> {
    match listed {
        Ok(m) => Ok(m@),
        Err(text) => Err(text@),
    }
}

/// What the members that the directory of a zip archive lists say.
pub open spec fn zip_models(found: Seq<Result<ZipMember, String>>) -> Seq<
    Result<ZipModel, Seq<char>>,
> {
    found.map_values(|f: Result<ZipMember, String>| listed_model(f))
}

/// Whether a name in a zip archive is that of a directory.
pub open spec fn names_directory(name: Seq<char>) -> bool {
    name.len() > 0 && (name.last() == '/' || name.last() == '\\')
}

/// What `zip::ZipArchive::new` and `zip::ZipArchive::by_index_raw` find in some bytes, or why
/// they are no zip archive.
pub uninterp spec fn zip_directory(data: Seq<u8>) -> Result<
    Seq<Result<ZipModel, Seq<char>>>,
    Seq<char>,
>;

/// Calls `zip::ZipArchive::new` and, for each place, `zip::ZipArchive::by_index_raw`, which
/// does not look at how a member is packed or locked. The outcome depends on the bytes
/// alone; the format itself is not written out. A member is a directory exactly when its
/// name ends with a slash or a backslash.
#[verifier::external_body]
pub(crate) fn list_zip(data: &[u8]) -> (found: Result<Vec<Result<ZipMember, String>>, String>)
    ensures
        match zip_directory(data@) {
            Ok(models) => found matches Ok(members) && zip_models(members@) == models,
            Err(text) => found matches Err(t) && t@ == text,
        },
        found matches Ok(members) ==> forall|k: int|
            0 <= k < members@.len() ==> ((#[trigger] members@[k]) matches Ok(m) ==> m.is_dir
                == names_directory(m.name@)),
{
    let archive = zip::ZipArchive::new(std::io::Cursor::new(data));
    let mut archive = archive.map_err(|e| e.to_string())?;
    Ok((0..archive.len()).map(|i| archive.by_index_raw(i).map(|f| {
        let t = f.last_modified();
        ZipMember {
            name: f.name().to_string(),
            is_dir: f.is_dir(),
            mode: f.unix_mode(),
            date: (t.year(), t.month(), t.day()),
            time: (t.hour(), t.minute(), t.second()),
            size: f.size(),
            header_start: f.central_header_start(),
        }
    }).map_err(|e| e.to_string())).collect())
}

/// Why `zip::ZipArchive::by_index` does not open a member that cannot be reached.
pub uninterp spec fn zip_failure(data: Seq<u8>, index: nat) -> Seq<char>;

/// Calls `zip::ZipArchive::by_index` for a member that `zip::ZipArchive::by_index_raw` could
/// not reach, and gives the error, which depends on the bytes and the place alone: both look
/// for the member in the same way, after `by_index` has refused one that is locked.
#[verifier::external_body]
pub(crate) fn fail_zip(data: &[u8], index: usize) -> (text: String)
    requires
        zip_directory(data@) matches Ok(models) && index < models.len() && models[index as int] is Err,
    ensures
        text@ == zip_failure(data@, index as nat),
{
    let archive = zip::ZipArchive::new(std::io::Cursor::new(data)).ok();
    let failure = archive.and_then(|mut a| a.by_index(index).err().map(|e| e.to_string()));
    failure.unwrap_or_default()
}

/// Whether bit 0 of the flags is set where a zip archive describes a member: the member is
/// locked with a password.
pub open spec fn is_locked(data: Seq<u8>, header_start: u64) -> bool {
    header_start + 8 < data.len() && data[header_start + 8] % 2 == 1
}

/// Whether a member of a zip archive is locked with a password.
pub fn is_locked_data(data: &[u8], header_start: u64) -> (locked: bool)
    ensures
        locked == is_locked(data@, header_start),
{
    if data.len() < 9 || header_start > (data.len() - 9) as u64 {
        return false;
    }
    data[header_start as usize + 8] % 2 == 1
}

/// Whether a place of a zip archive holds a member that can be reached and is not locked.
pub open spec fn is_open_member(data: Seq<u8>, index: nat) -> bool {
    zip_directory(data) matches Ok(models) && index < models.len() && (
    models[index as int] matches Ok(m) && !is_locked(data, m.header_start))
}

/// Why a member that can be reached and is not locked cannot be unpacked, if so.
pub uninterp spec fn zip_opening(data: Seq<u8>, index: nat) -> Option<Seq<char>>;

/// Calls `zip::ZipArchive::by_index_decrypt` with an empty password, which a member that is
/// not locked leaves unused. For such members that is `zip::ZipArchive::by_index`, but that
/// one panics where a member carries AES data without being locked. Whether the member can
/// be unpacked depends on the bytes and the place alone.
#[verifier::external_body]
pub(crate) fn open_zip(data: &[u8], indexes: &[usize]) -> (failures: Vec<Option<String>>)
    requires
        forall|k: int| 0 <= k < indexes@.len() ==> is_open_member(data@, #[trigger] indexes@[k] as nat),
    ensures
        failures@.len() == indexes@.len(),
        forall|k: int|
            0 <= k < indexes@.len() ==> match zip_opening(data@, indexes@[k] as nat) {
                Some(text) => (#[trigger] failures@[k]) matches Some(t) && t@ == text,
                None => failures@[k] is None,
            },
{
    match zip::ZipArchive::new(std::io::Cursor::new(data)) {
        Ok(mut archive) => indexes.iter().map(|i| match archive.by_index_decrypt(*i, &[]) {
            Ok(Ok(_)) => None,
            Ok(Err(e)) => Some(e.to_string()),
            Err(e) => Some(e.to_string()),
        }).collect(),
        Err(e) => indexes.iter().map(|_| Some(e.to_string())).collect(),
    }
}

/// What `std::io::copy` reads of the member at a place of a zip archive.
pub uninterp spec fn zip_content(data: Seq<u8>, index: nat) -> Result<Seq<u8>, Seq<char>>;

/// Calls `zip::ZipArchive::by_index_decrypt` as [`open_zip`] does, and reads the member with
/// `std::io::copy`. The outcome depends on the bytes and the place alone.
#[verifier::external_body]
pub(crate) fn read_zip(data: &[u8], index: usize) -> (content: Result<Vec<u8>, String>)
    requires
        is_open_member(data@, index as nat),
        zip_opening(data@, index as nat) is None,
    ensures
        is_outcome(content, zip_content(data@, index as nat)),
{
    let archive = zip::ZipArchive::new(std::io::Cursor::new(data));
    let mut archive = archive.map_err(|e| e.to_string())?;
    let member = archive.by_index_decrypt(index, &[]).map_err(|e| e.to_string())?;
    let mut content = Vec::new();
    let copied = std::io::copy(&mut member.map_err(|e| e.to_string())?, &mut content);
    copied.map(|_| content).map_err(|e| e.to_string())
}

/// What is said of a member that is locked with a password.
pub const PASSWORD_REQUIRED: &'static str = "unsupported Zip archive: Password required to decrypt file";

/// What becomes of a member of a zip archive that could not be reached or unpacked for a
/// reason, if there is one: a member that is locked is refused whatever it is.
pub open spec fn member_outcome(
    data: Seq<u8>,
    listed: Result<ZipModel, Seq<char>>,
    failure: Option<Seq<char>>,
) -> Result<ZipModel, Seq<char>> {
    match listed {
        Err(text) => match failure {
            Some(reason) => Err(reason),
            None => Err(text),
        },
        Ok(m) => if is_locked(data, m.header_start) {
            Err(PASSWORD_REQUIRED@)
        } else {
            match failure {
                Some(reason) => Err(reason),
                None => Ok(m),
            }
        },
    }
}

/// Why the member at a place could not be reached or unpacked, if so.
pub open spec fn zip_failure_at(
    data: Seq<u8>,
    listed: Result<ZipModel, Seq<char>>,
    index: nat,
) -> Option<Seq<char>> {
    match listed {
        Err(_) => Some(zip_failure(data, index)),
        Ok(m) => if is_locked(data, m.header_start) {
            None
        } else {
            zip_opening(data, index)
        },
    }
}

/// What becomes of the member at a place of a zip archive.
pub open spec fn zip_outcome(data: Seq<u8>, listed: Result<ZipModel, Seq<char>>, index: nat) -> Result<
    ZipModel,
    Seq<char>,
> {
    member_outcome(data, listed, zip_failure_at(data, listed, index))
}

/// What becomes of each member of a zip archive.
pub open spec fn zip_outcomes(data: Seq<u8>, listed: Seq<Result<ZipModel, Seq<char>>>) -> Seq<
    Result<ZipModel, Seq<char>>,
> {
    Seq::new(listed.len(), |k: int| zip_outcome(data, listed[k], k as nat))
}

impl ZipModel {
    /// When the archive says that the member was last changed.
    pub open spec fn modified(self) -> CivilTime {
        CivilTime {
            year: self.date.0 as i32,
            month: self.date.1 as u32,
            day: self.date.2 as u32,
            hour: self.time.0 as u32,
            minute: self.time.1 as u32,
            second: self.time.2 as u32,
        }
    }
}

/// Whether an entry is that of a member of a zip archive. When it was last changed rests on
/// the time zone: no more than the stamp of what the archive says, or zero.
pub open spec fn is_zip_entry(
    entry: Result<ArchiveModel, Seq<char>>,
    outcome: Result<ZipModel, Seq<char>>,
) -> bool {
    match outcome {
        Err(text) => entry == Err::<ArchiveModel, Seq<char>>(text),
        Ok(m) => {
            &&& entry matches Ok(e)
            &&& e.name == slash_form(m.name)
            &&& e.is_dir == m.is_dir
            &&& e.size == m.size
            &&& e.permissions == m.mode
            &&& is_stamp_of(e.modified, seq![Some(m.modified())])
        },
    }
}

/// Whether entries are those of the members of a zip archive.
pub open spec fn are_zip_entries(
    entries: Seq<Result<ArchiveModel, Seq<char>>>,
    outcomes: Seq<Result<ZipModel, Seq<char>>>,
) -> bool {
    &&& entries.len() == outcomes.len()
    &&& forall|k: int| 0 <= k < entries.len() ==> is_zip_entry(#[trigger] entries[k], outcomes[k])
}

/// A member of a zip archive as an entry.
fn entry_of_zip(member: &ZipMember) -> (entry: ArchiveEntry)
    ensures
        is_zip_entry(Ok(entry@), Ok(member@)),
{
    let time = CivilTime {
        year: member.date.0 as i32,
        month: member.date.1 as u32,
        day: member.date.2 as u32,
        hour: member.time.0 as u32,
        minute: member.time.1 as u32,
        second: member.time.2 as u32,
    };
    let instants = [instant_of(Some(time))];
    let modified = stamp_of_first(&instants);
    proof {
        let readings = seq![Some(member@.modified())];
        assert(readings[0] == Some(time));
        assert(crate::dates::is_instant_of(readings[0], instants@[0]));
        assert(is_stamp_of(modified, readings));
    }
    ArchiveEntry {
        name: with_slashes(member.name.as_str()),
        is_dir: member.is_dir,
        size: member.size,
        permissions: member.mode,
        modified,
    }
}

/// A member of a zip archive as an entry, or why it cannot be read. `failure` tells why it
/// could not be reached or unpacked, if so.
pub fn zip_member_result(
    data: &[u8],
    listed: &Result<ZipMember, String>,
    failure: Option<String>,
) -> (result: Result<ArchiveEntry, String>)
    ensures
        is_zip_entry(
            found_model(result),
            member_outcome(
                data@,
                listed_model(*listed),
                match failure {
                    Some(reason) => Some(reason@),
                    None => None,
                },
            ),
        ),
        result matches Ok(entry) ==> (listed matches Ok(m) && entry.name@ == slash_form(m.name@)
            && entry.is_dir == m.is_dir),
{
    match listed {
        Ok(member) => {
            if is_locked_data(data, member.header_start) {
                return Err(PASSWORD_REQUIRED.to_owned());
            }
            match failure {
                Some(reason) => Err(reason),
                None => Ok(entry_of_zip(member)),
            }
        },
        Err(text) => match failure {
            Some(reason) => Err(reason),
            None => Err(text.clone()),
        },
    }
}

/// Whether a place stands in a list.
spec fn has_place(places: Seq<usize>, place: nat) -> bool {
    exists|k: int| 0 <= k < places.len() && #[trigger] places[k] == place
}

/// The places of the members that can be reached and are not locked.
fn open_places(data: &[u8], listed: &Vec<Result<ZipMember, String>>) -> (places: Vec<usize>)
    requires
        zip_directory(data@) == Ok::<Seq<Result<ZipModel, Seq<char>>>, Seq<char>>(
            zip_models(listed@),
        ),
    ensures
        forall|k: int| 0 <= k < places@.len() ==> is_open_member(data@, #[trigger] places@[k] as nat),
        forall|a: int, b: int| 0 <= a < b < places@.len() ==> places@[a] < places@[b],
        forall|i: nat|
            i < listed@.len() && #[trigger] is_open_member(data@, i) ==> has_place(places@, i),
{
    let mut places: Vec<usize> = Vec::new();
    let mut i: usize = 0;
    while i < listed.len()
        invariant
            i <= listed@.len(),
            zip_directory(data@) == Ok::<Seq<Result<ZipModel, Seq<char>>>, Seq<char>>(
                zip_models(listed@),
            ),
            forall|k: int|
                0 <= k < places@.len() ==> is_open_member(data@, #[trigger] places@[k] as nat)
                    && places@[k] < i,
            forall|a: int, b: int| 0 <= a < b < places@.len() ==> places@[a] < places@[b],
            forall|j: nat|
                j < i && #[trigger] is_open_member(data@, j) ==> has_place(places@, j),
        decreases listed@.len() - i,
    {
        let ghost before = places@;
        let open = match &listed[i] {
            Ok(member) => !is_locked_data(data, member.header_start),
            Err(_) => false,
        };
        assert(open == is_open_member(data@, i as nat)) by {
            assert(zip_models(listed@)[i as int] == match listed@[i as int] {
                Ok(m) => Ok::<ZipModel, Seq<char>>(m@),
                Err(text) => Err(text@),
            });
        }
        if open {
            places.push(i);
        }
        proof {
            assert forall|j: nat| j < i + 1 && #[trigger] is_open_member(data@, j) implies has_place(
                places@,
                j,
            ) by {
                if j < i {
                    let k = choose|k: int| 0 <= k < before.len() && #[trigger] before[k] == j;
                    assert(places@[k] == j);
                } else {
                    assert(places@[before.len() as int] == j);
                }
            }
        }
        i += 1;
    }
    places
}

/// What becomes of each member of a zip archive, as entries.
pub fn find_zip_entries(data: &[u8]) -> (result: Result<Vec<Result<ArchiveEntry, String>>, String>)
    ensures
        match zip_directory(data@) {
            Ok(listed) => result matches Ok(found) && are_zip_entries(
                found_models(found@),
                zip_outcomes(data@, listed),
            ),
            Err(text) => result matches Err(t) && t@ == text,
        },
        result matches Ok(found) ==> forall|k: int|
            0 <= k < found@.len() ==> ((#[trigger] found@[k]) matches Ok(entry)
                ==> is_named_by_kind(entry)),
{
    let listed = match list_zip(data) {
        Ok(listed) => listed,
        Err(text) => {
            return Err(text);
        },
    };
    let ghost models = zip_models(listed@);
    let places = open_places(data, &listed);
    let failures = open_zip(data, places.as_slice());
    let mut found: Vec<Result<ArchiveEntry, String>> = Vec::new();
    let mut i: usize = 0;
    let mut next: usize = 0;
    while i < listed.len()
        invariant
            i <= listed@.len(),
            models == zip_models(listed@),
            zip_directory(data@) == Ok::<Seq<Result<ZipModel, Seq<char>>>, Seq<char>>(models),
            next <= places@.len() == failures@.len(),
            forall|k: int|
                0 <= k < places@.len() ==> is_open_member(data@, #[trigger] places@[k] as nat),
            forall|a: int, b: int| 0 <= a < b < places@.len() ==> places@[a] < places@[b],
            forall|j: nat|
                j < listed@.len() && #[trigger] is_open_member(data@, j) ==> has_place(places@, j),
            forall|k: int|
                0 <= k < places@.len() ==> match zip_opening(data@, places@[k] as nat) {
                    Some(text) => (#[trigger] failures@[k]) matches Some(t) && t@ == text,
                    None => failures@[k] is None,
                },
            forall|k: int| 0 <= k < next ==> #[trigger] places@[k] < i,
            forall|k: int| next <= k < places@.len() ==> #[trigger] places@[k] >= i,
            forall|k: int|
                0 <= k < listed@.len() ==> ((#[trigger] listed@[k]) matches Ok(m) ==> m.is_dir
                    == names_directory(m.name@)),
            forall|k: int|
                0 <= k < i ==> ((#[trigger] found@[k]) matches Ok(entry) ==> is_named_by_kind(
                    entry,
                )),
            found@.len() == i,
            forall|k: int|
                0 <= k < i ==> is_zip_entry(
                    #[trigger] found_models(found@)[k],
                    zip_outcomes(data@, models)[k],
                ),
        decreases listed@.len() - i,
    {
        let ghost before = found@;
        assert(models[i as int] == match listed@[i as int] {
            Ok(m) => Ok::<ZipModel, Seq<char>>(m@),
            Err(text) => Err(text@),
        });
        assert(zip_outcomes(data@, models)[i as int] == zip_outcome(
            data@,
            models[i as int],
            i as nat,
        ));
        let mut failure: Option<String> = None;
        match &listed[i] {
            Ok(member) => {
                if is_locked_data(data, member.header_start) {
                    assert(!is_open_member(data@, i as nat));
                } else {
                    proof {
                        assert(is_open_member(data@, i as nat));
                        let k = choose|k: int| 0 <= k < places@.len() && #[trigger] places@[k] == i;
                        assert(places@[k] == i);
                        if k != next {
                            assert(places@[next as int] < places@[k]);
                        }
                        assert(failures@[next as int] is None || failures@[next as int] is Some);
                    }
                    assert(next < places.len());
                    next += 1;
                    match &failures[next - 1] {
                        Some(text) => {
                            failure = Some(text.clone());
                        },
                        None => {},
                    }
                }
            },
            Err(_) => {
                assert(!is_open_member(data@, i as nat));
                failure = Some(fail_zip(data, i));
            },
        }
        let one = zip_member_result(data, &listed[i], failure);
        found.push(one);
        i += 1;
        assert(found_models(found@) =~= found_models(before).push(found_models(found@).last()));
    }
    Ok(found)
}

} // verus!
