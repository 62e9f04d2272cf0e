use rustler::{
    backup_destination, backup_name_at, determine_directory, expand_home_directory, file_name,
    format_backup_name, join_path, stamp_text, total_size, traverse_directory, BackupError,
    Entry, Timestamp, Walk,
};
use std::collections::BTreeSet;

fn at(year: i32, month: u32, day: u32, hour: u32, minute: u32) -> Timestamp {
    Timestamp { year, month, day, hour, minute }
}

fn entries(items: &[(&str, bool)]) -> Vec<Entry> {
    items
        .iter()
        .map(|(name, is_dir)| Entry { name: name.to_string(), is_dir: *is_dir })
        .collect()
}

/// Drives a walk over a tree given as (root-relative directory, entries).
fn walk_tree(tree: &[(&str, Vec<(&str, bool)>)]) -> Vec<String> {
    let mut walk = Walk::new();
    while let Some(dir) = walk.next_directory() {
        let listing = tree
            .iter()
            .find(|(d, _)| *d == dir.as_str())
            .map(|(_, es)| entries(es))
            .expect("directory of the tree");
        traverse_directory(&mut walk, &listing);
    }
    walk.into_files()
}

fn as_set(v: &[String]) -> BTreeSet<String> {
    v.iter().cloned().collect()
}

#[test]
fn join_inserts_one_separator() {
    assert_eq!(join_path("/home/u", ".rustler_backups/a.zip"), "/home/u/.rustler_backups/a.zip");
    assert_eq!(join_path("/home/u/", "x"), "/home/u/x");
    assert_eq!(join_path("", "x"), "x");
    assert_eq!(join_path("/a", "/b"), "/b");
    assert_eq!(join_path("/a", ""), "/a/");
}

#[test]
fn file_name_takes_the_final_component() {
    assert_eq!(file_name("/data/projects/site"), Some("site".to_string()));
    assert_eq!(file_name("/data/projects/site/"), Some("site".to_string()));
    assert_eq!(file_name("site"), Some("site".to_string()));
    assert_eq!(file_name("a/."), Some("a".to_string()));
    assert_eq!(file_name("a//b//"), Some("b".to_string()));
    assert_eq!(file_name("../a"), Some("a".to_string()));
    assert_eq!(file_name("/"), None);
    assert_eq!(file_name(""), None);
    assert_eq!(file_name("."), None);
    assert_eq!(file_name(".."), None);
    assert_eq!(file_name("a/.."), None);
}

#[test]
fn stamp_has_minute_granularity() {
    assert_eq!(stamp_text(&at(2024, 3, 5, 14, 7)), "20240305_1407");
    assert_eq!(stamp_text(&at(1999, 12, 31, 23, 59)), "19991231_2359");
    assert_eq!(stamp_text(&at(7, 1, 1, 0, 0)), "00070101_0000");
}

#[test]
fn stamp_signs_years_outside_four_digits() {
    assert_eq!(stamp_text(&at(12345, 1, 2, 3, 4)), "+123450102_0304");
    assert_eq!(stamp_text(&at(-5, 1, 2, 3, 4)), "-00050102_0304");
    assert_eq!(stamp_text(&at(-12345, 1, 2, 3, 4)), "-123450102_0304");
}

#[test]
fn backup_name_joins_basename_and_stamp() {
    let name = backup_name_at("/data/projects/site", &at(2024, 3, 5, 14, 7)).unwrap();
    assert_eq!(name, "~/.rustler_backups/site_20240305_1407.zip");
}

#[test]
fn backup_name_without_basename_is_invalid() {
    let r = backup_name_at("/", &at(2024, 3, 5, 14, 7));
    assert!(matches!(r, Err(BackupError::InvalidSourceDirectory)));
}

#[test]
fn destination_for_site_at_fixed_time() {
    let p = backup_destination("/data/projects/site", &at(2024, 3, 5, 14, 7), Some("/home/alex"))
        .unwrap();
    assert_eq!(p, "/home/alex/.rustler_backups/site_20240305_1407.zip");
}

#[test]
fn destination_without_home_fails() {
    let r = backup_destination("/data/projects/site", &at(2024, 3, 5, 14, 7), None);
    assert!(matches!(r, Err(BackupError::MissingHomeDirectory)));
}

#[test]
fn destination_without_basename_fails_first() {
    let r = backup_destination("/", &at(2024, 3, 5, 14, 7), None);
    assert!(matches!(r, Err(BackupError::InvalidSourceDirectory)));
}

#[test]
fn home_marker_is_expanded() {
    assert_eq!(expand_home_directory("~/x/y", Some("/h")).unwrap(), "/h/x/y");
    assert_eq!(expand_home_directory("~//x", Some("/h/")).unwrap(), "/h/x");
    assert_eq!(expand_home_directory("~", Some("/h")).unwrap(), "/h/");
}

#[test]
fn paths_without_home_marker_are_kept() {
    assert_eq!(expand_home_directory("/a/~/b", None).unwrap(), "/a/~/b");
    assert_eq!(expand_home_directory("~user/b", None).unwrap(), "~user/b");
    assert_eq!(expand_home_directory("", None).unwrap(), "");
}

#[test]
fn home_marker_without_home_fails() {
    let r = expand_home_directory("~/b", None);
    assert!(matches!(r, Err(BackupError::MissingHomeDirectory)));
}

#[test]
fn source_directory_from_argument_or_cwd() {
    let args = vec!["prog".to_string(), "/src".to_string()];
    assert_eq!(determine_directory(&args, Some("/cwd".to_string())).unwrap(), "/src");
    let args = vec!["prog".to_string()];
    assert_eq!(determine_directory(&args, Some("/cwd".to_string())).unwrap(), "/cwd");
    let r = determine_directory(&args, None);
    assert!(matches!(r, Err(BackupError::InvalidSourceDirectory)));
}

#[test]
fn walk_lists_every_file_of_a_nested_tree() {
    let tree = vec![
        ("", vec![("a.txt", false), ("docs", true), ("empty", true)]),
        ("docs", vec![("deep", true), ("b.md", false)]),
        ("docs/deep", vec![("c.bin", false), ("void", true)]),
        ("docs/deep/void", vec![]),
        ("empty", vec![]),
    ];
    let files = walk_tree(&tree);
    assert_eq!(files.len(), 3);
    let expected: BTreeSet<String> =
        ["a.txt", "docs/b.md", "docs/deep/c.bin"].iter().map(|s| s.to_string()).collect();
    assert_eq!(as_set(&files), expected);
}

#[test]
fn walk_of_empty_root_finds_nothing() {
    let tree = vec![("", vec![])];
    assert!(walk_tree(&tree).is_empty());
}

#[test]
fn walk_of_only_empty_subdirectories_finds_nothing() {
    let tree = vec![("", vec![("x", true)]), ("x", vec![("y", true)]), ("x/y", vec![])];
    assert!(walk_tree(&tree).is_empty());
}

#[test]
fn walk_twice_over_same_tree_gives_same_files() {
    let tree = vec![
        ("", vec![("one", false), ("sub", true)]),
        ("sub", vec![("two", false), ("three", false)]),
    ];
    let first = walk_tree(&tree);
    let second = walk_tree(&tree);
    assert_eq!(first, second);
    assert_eq!(as_set(&first).len(), 3);
}

#[test]
fn walk_starts_at_root_and_records_a_listing() {
    let mut walk = Walk::new();
    assert_eq!(walk.next_directory(), Some(String::new()));
    traverse_directory(&mut walk, &entries(&[("f", false), ("d", true)]));
    assert_eq!(walk.next_directory(), Some("d".to_string()));
    traverse_directory(&mut walk, &entries(&[("g", false)]));
    assert_eq!(walk.next_directory(), None);
    assert_eq!(walk.into_files(), vec!["f".to_string(), "d/g".to_string()]);
}

#[test]
fn total_size_sums_file_sizes() {
    assert_eq!(total_size(&vec![3, 4, 5]), Some(12));
    assert_eq!(total_size(&vec![]), Some(0));
    assert_eq!(total_size(&vec![u64::MAX, 0]), Some(u64::MAX));
}

#[test]
fn total_size_overflow_is_none() {
    assert_eq!(total_size(&vec![u64::MAX, 1]), None);
}

#[test]
fn backup_name_now_has_the_stamp_shape() {
    let name = format_backup_name("/data/projects/site").unwrap();
    assert!(name.starts_with("~/.rustler_backups/site_"));
    assert!(name.ends_with(".zip"));
    let stamp = &name["~/.rustler_backups/site_".len()..name.len() - ".zip".len()];
    assert_eq!(stamp.len(), 13);
    assert_eq!(&stamp[8..9], "_");
    assert!(stamp.chars().enumerate().all(|(i, c)| i == 8 || c.is_ascii_digit()));
}

#[test]
fn backup_name_now_without_basename_is_invalid() {
    assert!(matches!(format_backup_name(".."), Err(BackupError::InvalidSourceDirectory)));
}
