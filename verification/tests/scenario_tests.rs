//! End-to-end runs of the engine pipeline at its boundary: discovered
//! candidates go in, content-identity records and error records come out.

use ddh::digest::hashed_entry;
use ddh::engine::{
    deduplicate_entries, group_by_size, partition_records, plan_hashing, Candidate, HashedFile,
};
use ddh::errors::{ErrorKind, ErrorLog};
use ddh::fileinfo::Fileinfo;
use ddh::filter::screen_candidates;

fn cand(path: &str, length: u64) -> Candidate {
    Candidate { file_path: String::from(path), file_length: length }
}

/// Run the verified pipeline over candidates whose contents are given
/// alongside, as the surrounding walker and hasher would.
fn run(
    candidates: Vec<Candidate>,
    contents: &[(&str, &[u8])],
    ignores: Vec<String>,
    min_size: u64,
) -> Vec<Fileinfo> {
    let kept = screen_candidates(candidates, &ignores, min_size);
    let buckets = group_by_size(&kept);
    let (mut entries, work) = plan_hashing(&buckets);
    for item in work {
        let bytes = contents
            .iter()
            .find(|(p, _)| *p == item.file_path)
            .map(|(_, b)| *b)
            .expect("content missing for a work item");
        entries.push(hashed_entry(item.file_path, item.file_length, bytes));
    }
    deduplicate_entries(&entries)
}

#[test]
fn two_equal_files_form_one_shared_record() {
    let records = run(
        vec![cand("A/a/x", 3), cand("A/b/y", 3)],
        &[("A/a/x", b"foo"), ("A/b/y", b"foo")],
        vec![],
        0,
    );
    assert_eq!(records.len(), 1);
    assert_eq!(records[0].file_length, 3);
    assert_eq!(
        records[0].file_paths,
        vec!["A/a/x".to_string(), "A/b/y".to_string()]
    );
    let (shared, unique) = partition_records(records);
    assert_eq!(shared.len(), 1);
    assert_eq!(unique.len(), 0);
}

#[test]
fn lone_content_forms_a_unique_singleton() {
    let records = run(
        vec![cand("A/c/z", 3)],
        &[("A/c/z", b"bar")],
        vec![],
        0,
    );
    assert_eq!(records.len(), 1);
    assert_eq!(records[0].file_length, 3);
    assert_eq!(records[0].file_paths, vec!["A/c/z".to_string()]);
    let (shared, unique) = partition_records(records);
    assert_eq!(shared.len(), 0);
    assert_eq!(unique.len(), 1);
}

#[test]
fn unreadable_path_is_an_error_and_owns_no_record() {
    // The walker could not read A/d/w: it reports the failure and never
    // hands the path on as a candidate.
    let mut log = ErrorLog::new();
    log.record(String::from("A/d/w"), ErrorKind::PermissionDenied);
    let records = run(
        vec![cand("A/a/x", 3)],
        &[("A/a/x", b"foo")],
        vec![],
        0,
    );
    let errors = log.into_errors();
    assert_eq!(errors.len(), 1);
    assert_eq!(errors[0].file_path, "A/d/w");
    assert_eq!(errors[0].kind, ErrorKind::PermissionDenied);
    assert!(records
        .iter()
        .all(|r| r.file_paths.iter().all(|p| p != "A/d/w")));
}

#[test]
fn minimum_size_empties_the_run_without_errors() {
    let records = run(
        vec![cand("A/one", 5), cand("A/two", 5)],
        &[("A/one", b"aaaaa"), ("A/two", b"aaaaa")],
        vec![],
        10,
    );
    assert!(records.is_empty());
}

#[test]
fn ignored_duplicate_leaves_a_singleton_behind() {
    // A/sub/copy duplicates A/keep, but A/sub is ignored: the record for
    // A/keep stays a singleton and the ignored path appears nowhere.
    let records = run(
        vec![cand("A/keep", 3), cand("A/sub/copy", 3)],
        &[("A/keep", b"foo"), ("A/sub/copy", b"foo")],
        vec![String::from("A/sub")],
        0,
    );
    assert_eq!(records.len(), 1);
    assert_eq!(records[0].file_paths, vec!["A/keep".to_string()]);
    let (shared, unique) = partition_records(records);
    assert_eq!(shared.len(), 0);
    assert_eq!(unique.len(), 1);
}

#[test]
fn record_exposes_name_length_and_paths() {
    let rec = Fileinfo {
        file_length: 3,
        full_hash: None,
        file_paths: vec![String::from("A/b/c.txt"), String::from("D/c.txt")],
    };
    assert_eq!(rec.get_length(), 3);
    assert_eq!(rec.get_paths().len(), 2);
    assert_eq!(rec.get_candidate_name(), "c.txt");
}

#[test]
fn candidate_name_handles_separators() {
    let plain = Fileinfo {
        file_length: 1,
        full_hash: None,
        file_paths: vec![String::from("noslash")],
    };
    assert_eq!(plain.get_candidate_name(), "noslash");
    let trailing = Fileinfo {
        file_length: 1,
        full_hash: None,
        file_paths: vec![String::from("dir/")],
    };
    assert_eq!(trailing.get_candidate_name(), "");
}

#[test]
fn error_log_keeps_every_failure_in_order() {
    let mut log = ErrorLog::new();
    assert_eq!(log.len(), 0);
    log.record(String::from("first"), ErrorKind::NotFound);
    log.record(String::from("second"), ErrorKind::Other);
    assert_eq!(log.len(), 2);
    let errors = log.into_errors();
    assert_eq!(errors[0].file_path, "first");
    assert_eq!(errors[0].kind, ErrorKind::NotFound);
    assert_eq!(errors[1].file_path, "second");
    assert_eq!(errors[1].kind, ErrorKind::Other);
}

#[test]
fn empty_run_produces_nothing() {
    let entries: Vec<HashedFile> = vec![];
    let records = deduplicate_entries(&entries);
    assert!(records.is_empty());
    let (shared, unique) = partition_records(records);
    assert!(shared.is_empty());
    assert!(unique.is_empty());
}
