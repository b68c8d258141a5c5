use virtualfs::decimal::{decimal_text, signed_decimal_text};
use virtualfs::order::comes_before;
use virtualfs::path_map::PathMap;
use virtualfs::rpc::{
    file_name_or, file_name_with, is_root, join_path, join_path_with, last_part, remote_result,
    AppError,
};
use virtualfs::text::{
    ends_with, same_text, with_slashes, without_leading_slashes, without_outer_slashes,
};

#[test]
fn a_part_is_added_to_a_path_as_the_standard_library_does() {
    for (base, part) in [("/a", "b"), ("/a/", "b"), ("", "b"), ("/a", "/b"), ("a", ""), ("", "")] {
        let mut expected = std::path::PathBuf::from(base);
        expected.push(part);
        let expected = expected.to_string_lossy();
        assert_eq!(join_path(base, part), expected);
        assert_eq!(join_path_with(std::path::MAIN_SEPARATOR, base, part), expected);
        assert_eq!(join_path_with('\0', base, part), expected);
    }
}

#[test]
fn the_name_at_the_end_of_a_path_is_that_of_the_standard_library() {
    for path in ["/a/b", "/a/b/", "a", "/", "", "..", "a/..", "a/.", "./", ".", "/a//", "...", "a/./.", "x/..a"] {
        let expected = std::path::Path::new(path).file_name().map(|n| n.to_string_lossy().to_string());
        assert_eq!(file_name_with(std::path::MAIN_SEPARATOR, path), expected, "{}", path);
        assert_eq!(file_name_with('\0', path), expected, "{}", path);
        assert_eq!(file_name_or(path, "none"), expected.unwrap_or("none".to_string()));
    }
}

#[test]
fn paths_with_slashes_have_rules_of_their_own() {
    assert_eq!(join_path_with('/', "a\\b", "c"), "a\\b/c");
    assert_eq!(join_path_with('/', "/a/", "b"), "/a/b");
    assert_eq!(join_path_with('/', "/a", "/b"), "/b");
    assert_eq!(file_name_with('/', "/a/b\\c").unwrap(), "b\\c");
    assert_eq!(file_name_with('/', "/a/.."), None);
}

#[test]
fn the_last_part_of_a_path_stands_behind_its_last_slash() {
    for path in ["a/b", "a/", "", "a", "/x"] {
        assert_eq!(last_part(path), path.rsplit('/').next().unwrap());
    }
}

#[test]
fn slashes_are_trimmed_as_the_standard_library_does() {
    for text in ["//a/b//", "a", "", "/", "a/"] {
        assert_eq!(without_outer_slashes(text), text.trim_matches('/'));
        assert_eq!(without_leading_slashes(text), text.trim_start_matches('/'));
    }
    assert_eq!(with_slashes("a\\b/c\\"), "a/b/c/");
}

#[test]
fn the_root_is_an_empty_path_or_a_single_slash() {
    assert!(is_root("") && is_root("/") && is_root("\\"));
    assert!(!is_root("//") && !is_root("a"));
}

#[test]
fn texts_are_compared_by_all_their_characters() {
    assert!(same_text("é", "é"));
    assert!(!same_text("é", "e"));
    assert!(ends_with("archive.tar", ".tar"));
    assert!(!ends_with("tar", ".tar"));
}

#[test]
fn names_stand_in_the_order_of_their_encodings() {
    let mut sorted = vec!["b", "B", "é", "a", "ab", "", "z", "\u{10ffff}", "\u{ffff}"];
    sorted.sort();
    for pair in sorted.windows(2) {
        assert!(comes_before(pair[0], pair[1]));
        assert!(!comes_before(pair[1], pair[0]));
        assert!(!comes_before(pair[0], pair[0]));
    }
}

#[test]
fn numbers_are_written_without_leading_zeros() {
    for n in [0u64, 7, 10, 999, u64::MAX] {
        assert_eq!(decimal_text(n), n.to_string());
    }
    for n in [0i32, -1, 2024, i32::MIN, i32::MAX] {
        assert_eq!(signed_decimal_text(n), n.to_string());
    }
}

#[test]
fn a_map_keeps_one_value_for_each_path() {
    let mut map: PathMap<u32> = PathMap::new();
    map.insert("a", 1);
    map.insert("b", 2);
    map.insert("a", 3);
    assert_eq!(map.len(), 2);
    assert_eq!(map.get("a"), Some(&3));
    assert!(!map.contains_key("c"));
    assert_eq!(map.remove("a"), Some(3));
    assert_eq!(map.remove("a"), None);
    map.clear();
    assert_eq!(map.len(), 0);
}

#[test]
fn either_failure_of_a_task_is_a_remote_error() {
    assert_eq!(remote_result::<u8>(Ok(Ok(1))), Ok(1));
    assert_eq!(
        remote_result::<u8>(Ok(Err("a".to_string()))),
        Err(AppError::Remote("a".to_string()))
    );
    assert_eq!(
        remote_result::<u8>(Err("b".to_string())),
        Err(AppError::Remote("b".to_string()))
    );
    assert_eq!(AppError::Io("c".to_string()).message(), "c");
}
