use dupfinder::quarantine::{
    base_name, dec_string, plan_quarantine, resolve_free_name, split_base_name, QuarantineError,
};
use dupfinder::report::ReportEntry;

fn entry(hash: &str, files: Vec<&str>) -> ReportEntry {
    ReportEntry {
        hash: hash.to_string(),
        files: files.into_iter().map(|f| f.to_string()).collect(),
    }
}

fn strings(v: Vec<&str>) -> Vec<String> {
    v.into_iter().map(|s| s.to_string()).collect()
}

#[test]
fn test_quarantine_moves_duplicates() {
    let report = vec![entry("Dummy hash", vec!["dup1.txt", "dup2.txt"])];
    let result = plan_quarantine(&report, &Vec::new());
    assert!(result.is_ok());
    let moves = result.unwrap();
    // dup1.txt survives in place, dup2.txt is relocated under its base name
    assert_eq!(moves.len(), 1);
    assert_eq!(moves[0].source, "dup2.txt");
    assert_eq!(moves[0].dest_name, "dup2.txt");
}

#[test]
fn test_quarantine_skips_entries_with_single_file() {
    let report = vec![entry("Dummy hash", vec!["unique.txt"])];
    let result = plan_quarantine(&report, &Vec::new());
    assert!(result.is_ok());
    let moves = result.unwrap();
    assert!(moves.is_empty());
}

#[test]
fn test_quarantine_creates_directory() {
    let report = vec![entry("Dummy hash", vec!["sample.txt", "sample_dup.txt"])];
    let result = plan_quarantine(&report, &Vec::new());
    assert!(result.is_ok());
    let moves = result.unwrap();
    assert_eq!(moves.len(), 1);
    assert_eq!(moves[0].source, "sample_dup.txt");
    assert_eq!(moves[0].dest_name, "sample_dup.txt");
}

#[test]
fn quarantine_naming_avoids_collisions() {
    // an empty quarantine directory takes the base name itself
    let report = vec![entry("h", vec!["src/original.txt", "src/dup.txt"])];
    let first = plan_quarantine(&report, &Vec::new()).unwrap();
    assert_eq!(first.len(), 1);
    assert_eq!(first[0].dest_name, "dup.txt");
    // a second run with the same base name already present picks dup_1.txt
    let second = plan_quarantine(&report, &strings(vec!["dup.txt"])).unwrap();
    assert_eq!(second[0].dest_name, "dup_1.txt");
}

#[test]
fn planned_destinations_do_not_collide_within_one_run() {
    let report = vec![entry("h", vec!["a/dup.txt", "b/dup.txt", "c/dup.txt"])];
    let moves = plan_quarantine(&report, &strings(vec!["dup.txt"])).unwrap();
    assert_eq!(moves.len(), 2);
    assert_eq!(moves[0].source, "b/dup.txt");
    assert_eq!(moves[0].dest_name, "dup_1.txt");
    assert_eq!(moves[1].source, "c/dup.txt");
    assert_eq!(moves[1].dest_name, "dup_2.txt");
}

#[test]
fn invalid_path_fails_the_whole_plan() {
    let report = vec![entry("h", vec!["a.txt", ""])];
    let result = plan_quarantine(&report, &Vec::new());
    assert!(result.is_err());
    match result.unwrap_err() {
        QuarantineError::InvalidFileName { path } => assert_eq!(path, ""),
    }
}

#[test]
fn base_name_extraction() {
    assert_eq!(base_name("a/b/c.txt"), Some("c.txt".to_string()));
    assert_eq!(base_name("plain.txt"), Some("plain.txt".to_string()));
    assert_eq!(base_name(""), None);
    assert_eq!(base_name("dir/"), None);
    assert_eq!(base_name(".."), None);
    assert_eq!(base_name("a/."), None);
}

#[test]
fn stem_and_extension_split() {
    assert_eq!(split_base_name("archive.tar.gz"), ("archive.tar".to_string(), ".gz".to_string()));
    assert_eq!(split_base_name("notes.txt"), ("notes".to_string(), ".txt".to_string()));
    assert_eq!(split_base_name("noext"), ("noext".to_string(), "".to_string()));
    assert_eq!(split_base_name(".hidden"), (".hidden".to_string(), "".to_string()));
}

#[test]
fn resolve_picks_first_free_counter() {
    let taken = strings(vec!["x.txt", "x_1.txt", "y.txt"]);
    assert_eq!(resolve_free_name("x", ".txt", &taken), "x_2.txt");
    assert_eq!(resolve_free_name("z", ".txt", &taken), "z.txt");
}

#[test]
fn decimal_rendering() {
    assert_eq!(dec_string(0), "0");
    assert_eq!(dec_string(7), "7");
    assert_eq!(dec_string(120), "120");
}
