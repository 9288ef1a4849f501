use dupfinder::processor::HashResult;
use dupfinder::report::{duplicate_groups, group_by_digest};

fn hr(path: &str, digest: &str) -> HashResult {
    HashResult { path: path.to_string(), digest: digest.to_string() }
}

#[test]
fn test_genetate_json_report() {
    let duplicates = vec![
        hr("file1.txt", "hash1"),
        hr("file2.txt", "hash1"),
        hr("file3.txt", "hash2"),
        hr("file4.txt", "hash2"),
    ];
    let report = duplicate_groups(&duplicates);
    assert_eq!(report.len(), 2);
    assert!(report[0].files.contains(&"file1.txt".to_string()));
    assert!(report[0].files.contains(&"file2.txt".to_string()));
}

#[test]
fn grouping_keeps_only_duplicate_groups() {
    let inputs = vec![
        hr("a", "h1"),
        hr("b", "h1"),
        hr("c", "h2"),
        hr("d", "h2"),
        hr("single", "h3"),
    ];
    let report = duplicate_groups(&inputs);
    assert_eq!(report.len(), 2);
    assert_eq!(report[0].hash, "h1");
    assert_eq!(report[0].files, vec!["a".to_string(), "b".to_string()]);
    assert_eq!(report[1].hash, "h2");
    assert_eq!(report[1].files, vec!["c".to_string(), "d".to_string()]);
    for entry in &report {
        assert!(entry.files.len() >= 2);
        assert_ne!(entry.hash, "h3");
    }
}

#[test]
fn grouping_collects_all_paths_per_digest() {
    let inputs = vec![hr("x", "h"), hr("y", "h"), hr("z", "h")];
    let groups = group_by_digest(&inputs);
    assert_eq!(groups.len(), 1);
    assert_eq!(groups[0].hash, "h");
    assert_eq!(groups[0].files, vec!["x".to_string(), "y".to_string(), "z".to_string()]);
}

#[test]
fn empty_results_give_empty_report() {
    let inputs: Vec<HashResult> = vec![];
    let report = duplicate_groups(&inputs);
    assert!(report.is_empty());
}
