//! The members of an archive, whatever its format.

use vstd::prelude::*;

verus! {

/// A member of an archive.
#[derive(Clone, Debug)]
pub struct ArchiveEntry {
    pub name: String,
    pub is_dir: bool,
    pub size: u64,
    pub permissions: Option<u32>,
    pub modified: u64,
}

/// What an [`ArchiveEntry`] says.
pub struct ArchiveModel {
    pub name: Seq<char>,
    pub is_dir: bool,
    pub size: u64,
    pub permissions: Option<u32>,
    pub modified: u64,
}

impl View for ArchiveEntry {
    type V = ArchiveModel;

    open spec fn view(&self) -> ArchiveModel {
        ArchiveModel {
            name: self.name@,
            is_dir: self.is_dir,
            size: self.size,
            permissions: self.permissions,
            modified: self.modified,
        }
    }
}

/// What the members of an archive say.
pub open spec fn archive_models(entries: Seq<ArchiveEntry>) -> Seq<ArchiveModel> {
    entries.map_values(|e: ArchiveEntry| e@)
}

/// A result of reading bytes, by what it says.
pub open spec fn is_outcome(result: Result<Vec<u8>, String>, outcome: Result<Seq<u8>, Seq<char>>) -> bool {
    match outcome {
        Ok(bytes) => result matches Ok(v) && v@ == bytes,
        Err(text) => result matches Err(t) && t@ == text,
    }
}

/// What is known of a member, or why it cannot be read.
pub open spec fn found_model(found: Result<ArchiveEntry, String>) -> Result<
    ArchiveModel,
    Seq<char>,
> {
    match found {
        Ok(e) => Ok(e@),
        Err(text) => Err(text@),
    }
}

/// What is known of the members of an archive.
pub open spec fn found_models(found: Seq<Result<ArchiveEntry, String>>) -> Seq<
    Result<ArchiveModel, Seq<char>>,
> {
    found.map_values(|f: Result<ArchiveEntry, String>| found_model(f))
}

/// Whether an entry is a directory exactly when its name ends with a slash.
pub open spec fn is_named_by_kind(entry: ArchiveEntry) -> bool {
    entry.is_dir == (entry.name@.len() > 0 && entry.name@.last() == '/')
}

/// The members that can be read.
pub open spec fn readable(found: Seq<Result<ArchiveModel, Seq<char>>>) -> Seq<ArchiveModel>
    decreases found.len(),
{
    if found.len() == 0 {
        Seq::empty()
    } else {
        match found.last() {
            Ok(entry) => readable(found.drop_last()).push(entry),
            Err(_) => readable(found.drop_last()),
        }
    }
}

/// An entry with the same values.
fn same_entry(entry: &ArchiveEntry) -> (copy: ArchiveEntry)
    ensures
        copy@ == entry@,
{
    ArchiveEntry {
        name: entry.name.clone(),
        is_dir: entry.is_dir,
        size: entry.size,
        permissions: entry.permissions,
        modified: entry.modified,
    }
}

/// The members that can be read.
pub fn readable_entries(found: &Vec<Result<ArchiveEntry, String>>) -> (entries: Vec<ArchiveEntry>)
    ensures
        archive_models(entries@) == readable(found_models(found@)),
        (forall|k: int|
            0 <= k < found@.len() ==> ((#[trigger] found@[k]) matches Ok(entry)
                ==> is_named_by_kind(entry))) ==> forall|k: int|
            0 <= k < entries@.len() ==> is_named_by_kind(#[trigger] entries@[k]),
{
    let ghost named = forall|k: int|
        0 <= k < found@.len() ==> ((#[trigger] found@[k]) matches Ok(entry) ==> is_named_by_kind(
            entry,
        ));
    let ghost models = found_models(found@);
    let mut entries: Vec<ArchiveEntry> = Vec::new();
    let mut i: usize = 0;
    assert(archive_models(entries@) =~= readable(models.take(0)));
    while i < found.len()
        invariant
            i <= found@.len(),
            models == found_models(found@),
            archive_models(entries@) == readable(models.take(i as int)),
            named == forall|k: int|
                0 <= k < found@.len() ==> ((#[trigger] found@[k]) matches Ok(entry)
                    ==> is_named_by_kind(entry)),
            named ==> forall|k: int|
                0 <= k < entries@.len() ==> is_named_by_kind(#[trigger] entries@[k]),
        decreases found@.len() - i,
    {
        assert(models.take(i + 1).drop_last() =~= models.take(i as int));
        match &found[i] {
            Ok(entry) => {
                let ghost before = entries@;
                let copy = same_entry(entry);
                assert(named ==> is_named_by_kind(found@[i as int]->Ok_0));
                entries.push(copy);
                assert(archive_models(entries@) =~= archive_models(before).push(copy@));
            },
            Err(_) => {},
        }
        i += 1;
    }
    assert(models.take(i as int) =~= models);
    entries
}

} // verus!
