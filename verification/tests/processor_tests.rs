use dupfinder::hashing::HashAlgorithm;
use dupfinder::processor::{process_files_parallel, FileInput};

fn readable(path: &str, content: &[u8]) -> FileInput {
    FileInput { path: path.to_string(), content: Some(content.to_vec()) }
}

#[test]
fn test_process_files_parallel() {
    let files = vec![
        readable("file1.txt", b"Hello, World!"),
        readable("file2.txt", b"Hello, World!"),
    ];
    let results = process_files_parallel(files, HashAlgorithm::Blake3);
    assert_eq!(results.len(), 2);
    assert_eq!(results[0].digest, results[1].digest);
}

#[test]
fn test_process_files_parallel_empty() {
    let files = vec![];
    let results = process_files_parallel(files, HashAlgorithm::Blake3);
    assert!(results.is_empty());
}

#[test]
fn unreadable_file_is_dropped_not_fatal() {
    let files = vec![
        readable("good.txt", b"content"),
        FileInput { path: "bad.txt".to_string(), content: None },
        readable("also_good.txt", b"content"),
    ];
    let results = process_files_parallel(files, HashAlgorithm::SHA256);
    assert_eq!(results.len(), 2);
    assert_eq!(results[0].path, "good.txt");
    assert_eq!(results[1].path, "also_good.txt");
    assert_eq!(results[0].digest, results[1].digest);
}
