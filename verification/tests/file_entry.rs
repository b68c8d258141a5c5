use virtualfs::file_entry::{FileEntry, Property, PropertyValue, NO_PERMISSIONS};

#[test]
fn every_field_survives_a_construction_round_trip() {
    let entry = FileEntry::new("notes.txt", "/home/ice/notes.txt", false, 4096, "2026-08-29", Some(0o644));
    assert_eq!(entry.name(), "notes.txt");
    assert_eq!(entry.path(), "/home/ice/notes.txt");
    assert!(!entry.is_dir());
    assert_eq!(entry.size(), 4096);
    assert_eq!(entry.date(), "2026-08-29");
    assert_eq!(entry.permissions(), Some(0o644));
}

#[test]
fn missing_permissions_round_trip_as_none() {
    let entry = FileEntry::new("remote", "/remote", true, 0, "", None);
    assert_eq!(entry.permissions(), None);
}

#[test]
fn set_permissions_overwrites_in_both_directions() {
    let mut entry = FileEntry::new("script.sh", "/script.sh", false, 12, "", Some(0o600));
    entry.set_permissions(Some(0o755));
    assert_eq!(entry.permissions(), Some(0o755));
    entry.set_permissions(None);
    assert_eq!(entry.permissions(), None);
}

#[test]
fn zero_is_a_real_permission_mode_and_not_the_none_sentinel() {
    let entry = FileEntry::new("locked", "/locked", false, 1, "", Some(0));
    assert_eq!(entry.permissions(), Some(0));
}

#[test]
fn unicode_names_and_huge_sizes_are_stored_verbatim() {
    let entry = FileEntry::new("отчёт 🎧.mp3", "/музыка/отчёт 🎧.mp3", false, u64::MAX, "", None);
    assert_eq!(entry.name(), "отчёт 🎧.mp3");
    assert_eq!(entry.path(), "/музыка/отчёт 🎧.mp3");
    assert_eq!(entry.size(), u64::MAX);
}

#[test]
fn empty_strings_are_preserved_rather_than_defaulted() {
    let entry = FileEntry::new("", "", false, 0, "", None);
    assert_eq!(entry.name(), "");
    assert_eq!(entry.date(), "");
}

#[test]
fn entries_are_independent_objects() {
    let mut a = FileEntry::new("a", "/a", true, 1, "d1", Some(0o700));
    let b = FileEntry::new("b", "/b", false, 2, "d2", None);
    a.set_permissions(None);
    assert_eq!(b.name(), "b");
    assert!(a.is_dir());
    assert!(!b.is_dir());
}

#[test]
fn the_number_for_unknown_permissions_is_no_mode() {
    let mut entry = FileEntry::new("a", "/a", false, 0, "", Some(NO_PERMISSIONS));
    assert_eq!(entry.permissions(), None);
    assert_eq!(entry.property(Property::Permissions), PropertyValue::Number(NO_PERMISSIONS));
    entry.set_property(Property::Permissions, PropertyValue::Number(0o640));
    assert_eq!(entry.permissions(), Some(0o640));
}

#[test]
fn properties_are_found_by_their_names() {
    for (name, property) in [
        ("name", Property::Name),
        ("path", Property::Path),
        ("is-dir", Property::IsDir),
        ("size", Property::Size),
        ("date", Property::Date),
        ("permissions", Property::Permissions),
    ] {
        assert_eq!(Property::named(name), Some(property));
    }
    assert_eq!(Property::named("colour"), None);
}

#[test]
fn a_property_is_read_as_it_was_set_and_others_stay() {
    let mut entry = FileEntry::new("a", "/a", false, 5, "d", Some(1));
    entry.set_property(Property::Name, PropertyValue::Text("b".to_string()));
    entry.set_property(Property::IsDir, PropertyValue::Flag(true));
    assert_eq!(entry.property(Property::Name), PropertyValue::Text("b".to_string()));
    assert_eq!(entry.property(Property::IsDir), PropertyValue::Flag(true));
    assert_eq!(entry.property(Property::Size), PropertyValue::Long(5));
    assert_eq!(entry.property(Property::Path), PropertyValue::Text("/a".to_string()));
    assert_eq!(entry.property(Property::Date), PropertyValue::Text("d".to_string()));
}

#[test]
fn extra_columns_are_read_by_place() {
    let mut entry = FileEntry::new("a", "/a", false, 5, "d", Some(1));
    assert!(entry.extra().is_empty());
    assert_eq!(entry.extra_at(0), "");
    entry.set_extra(vec!["x".to_string(), "y".to_string()]);
    assert_eq!(entry.extra(), vec!["x", "y"]);
    assert_eq!(entry.extra_at(1), "y");
    assert_eq!(entry.extra_at(2), "");
}
