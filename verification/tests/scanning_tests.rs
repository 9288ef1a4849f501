use dupfinder::scanning::{merge_file_lists, partition_entries, DirEntryInfo};

fn child(path: &str, is_dir: bool, is_file: bool) -> DirEntryInfo {
    DirEntryInfo { path: path.to_string(), is_dir, is_file }
}

fn strings(v: Vec<&str>) -> Vec<String> {
    v.into_iter().map(|s| s.to_string()).collect()
}

#[test]
fn empty_listing_partitions_to_nothing() {
    let entries: Vec<DirEntryInfo> = Vec::new();
    let (files, dirs) = partition_entries(&entries);
    assert!(files.is_empty());
    assert!(dirs.is_empty());
}

#[test]
fn listing_splits_into_files_and_directories() {
    let entries = vec![
        child("root/file1.txt", false, true),
        child("root/subdir", true, false),
        child("root/file2.txt", false, true),
        child("root/socket", false, false),
    ];
    let (files, dirs) = partition_entries(&entries);
    assert_eq!(files, strings(vec!["root/file1.txt", "root/file2.txt"]));
    assert_eq!(dirs, strings(vec!["root/subdir"]));
}

#[test]
fn merged_subtree_lists_keep_every_path_once() {
    let parts = vec![
        strings(vec!["a.txt", "b.txt"]),
        strings(vec!["sub/nested.txt"]),
        Vec::new(),
    ];
    let merged = merge_file_lists(parts);
    // a directory with two files plus one nested file yields 2 + 1 paths
    assert_eq!(merged, strings(vec!["a.txt", "b.txt", "sub/nested.txt"]));
    assert_eq!(merged.len(), 3);
}
