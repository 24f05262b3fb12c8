use ddh::digest::{hash_bytes, hashed_entry};
use ddh::engine::{
    deduplicate_entries, group_by_size, partition_records, plan_hashing, Candidate, HashedFile,
    SizeBucket,
};

fn cand(path: &str, length: u64) -> Candidate {
    Candidate { file_path: String::from(path), file_length: length }
}

fn entry(path: &str, length: u64, hash: Option<u128>) -> HashedFile {
    HashedFile { file_path: String::from(path), file_length: length, full_hash: hash }
}

#[test]
fn grouping_buckets_by_length() {
    let cands = vec![cand("a/x", 3), cand("b/y", 3), cand("c/z", 7)];
    let buckets = group_by_size(&cands);
    assert_eq!(buckets.len(), 2);
    let three: Vec<&SizeBucket> = buckets.iter().filter(|b| b.bucket_length == 3).collect();
    assert_eq!(three.len(), 1);
    assert_eq!(three[0].bucket_paths, vec!["a/x".to_string(), "b/y".to_string()]);
    let seven: Vec<&SizeBucket> = buckets.iter().filter(|b| b.bucket_length == 7).collect();
    assert_eq!(seven.len(), 1);
    assert_eq!(seven[0].bucket_paths, vec!["c/z".to_string()]);
}

#[test]
fn grouping_keeps_discovery_order_within_bucket() {
    let cands = vec![cand("third", 5), cand("first", 5), cand("second", 5)];
    let buckets = group_by_size(&cands);
    assert_eq!(buckets.len(), 1);
    assert_eq!(
        buckets[0].bucket_paths,
        vec!["third".to_string(), "first".to_string(), "second".to_string()]
    );
}

#[test]
fn planning_splits_singletons_from_hash_work() {
    let buckets = vec![
        SizeBucket {
            bucket_length: 3,
            bucket_paths: vec!["a/x".to_string(), "b/y".to_string()],
        },
        SizeBucket { bucket_length: 7, bucket_paths: vec!["c/z".to_string()] },
    ];
    let (singles, work) = plan_hashing(&buckets);
    assert_eq!(singles.len(), 1);
    assert_eq!(singles[0].file_path, "c/z");
    assert_eq!(singles[0].file_length, 7);
    assert_eq!(singles[0].full_hash, None);
    assert_eq!(work.len(), 2);
    assert_eq!(work[0].file_path, "a/x");
    assert_eq!(work[1].file_path, "b/y");
    assert!(work.iter().all(|w| w.file_length == 3));
}

#[test]
fn unique_length_skips_the_hasher() {
    // A candidate whose length nothing else shares never appears in the
    // hashing work list.
    let cands = vec![cand("a/x", 3), cand("b/y", 3), cand("lone", 9)];
    let buckets = group_by_size(&cands);
    let (singles, work) = plan_hashing(&buckets);
    assert!(singles.iter().any(|e| e.file_path == "lone" && e.full_hash.is_none()));
    assert!(work.iter().all(|w| w.file_length != 9));
}

#[test]
fn merge_joins_equal_keys_into_one_record() {
    let h = hash_bytes(b"foo");
    let entries = vec![
        entry("a/x", 3, Some(h)),
        entry("b/y", 3, Some(h)),
    ];
    let records = deduplicate_entries(&entries);
    assert_eq!(records.len(), 1);
    assert_eq!(records[0].file_length, 3);
    assert_eq!(records[0].file_paths, vec!["a/x".to_string(), "b/y".to_string()]);
}

#[test]
fn merge_separates_equal_length_different_content() {
    let hf = hash_bytes(b"foo");
    let hb = hash_bytes(b"bar");
    assert_ne!(hf, hb);
    let entries = vec![entry("a/x", 3, Some(hf)), entry("b/y", 3, Some(hb))];
    let records = deduplicate_entries(&entries);
    assert_eq!(records.len(), 2);
    for r in &records {
        assert_eq!(r.file_paths.len(), 1);
    }
    let owners: Vec<&str> = records
        .iter()
        .flat_map(|r| r.file_paths.iter().map(|p| p.as_str()))
        .collect();
    assert!(owners.contains(&"a/x"));
    assert!(owners.contains(&"b/y"));
}

#[test]
fn merge_keeps_digestless_singletons_apart_from_hashed_keys() {
    let h = hash_bytes(b"abc");
    let entries = vec![entry("hashed", 3, Some(h)), entry("single", 3, None)];
    let records = deduplicate_entries(&entries);
    assert_eq!(records.len(), 2);
}

#[test]
fn merge_is_idempotent_up_to_ordering() {
    let h = hash_bytes(b"dup");
    let g = hash_bytes(b"one");
    let e1 = vec![
        entry("p/a", 3, Some(h)),
        entry("p/b", 3, Some(h)),
        entry("p/c", 3, Some(g)),
        entry("q/d", 8, None),
    ];
    // The same discoveries delivered in another traversal order.
    let e2 = vec![
        entry("q/d", 8, None),
        entry("p/c", 3, Some(g)),
        entry("p/b", 3, Some(h)),
        entry("p/a", 3, Some(h)),
    ];
    let r1 = deduplicate_entries(&e1);
    let r2 = deduplicate_entries(&e2);
    assert_eq!(r1.len(), r2.len());
    for rec in &r1 {
        let twin = r2
            .iter()
            .find(|o| o.file_length == rec.file_length && o.full_hash == rec.full_hash)
            .expect("record missing from the second run");
        let mut mine: Vec<String> = rec.file_paths.clone();
        let mut theirs: Vec<String> = twin.file_paths.clone();
        mine.sort();
        theirs.sort();
        assert_eq!(mine, theirs);
    }
}

#[test]
fn partition_splits_shared_from_unique() {
    let h = hash_bytes(b"xy");
    let entries = vec![
        entry("a", 2, Some(h)),
        entry("b", 2, Some(h)),
        entry("c", 5, None),
    ];
    let records = deduplicate_entries(&entries);
    let total = records.len();
    let (shared, unique) = partition_records(records);
    assert_eq!(shared.len() + unique.len(), total);
    assert!(shared.iter().all(|r| r.file_paths.len() >= 2));
    assert!(unique.iter().all(|r| r.file_paths.len() == 1));
    assert_eq!(shared.len(), 1);
    assert_eq!(unique.len(), 1);
}

#[test]
fn hashed_entry_carries_the_content_digest() {
    let e = hashed_entry(String::from("a/x"), 3, b"foo");
    assert_eq!(e.file_path, "a/x");
    assert_eq!(e.file_length, 3);
    assert_eq!(e.full_hash, Some(hash_bytes(b"foo")));
}

#[test]
fn digest_depends_only_on_content() {
    assert_eq!(hash_bytes(b"same bytes"), hash_bytes(b"same bytes"));
    assert_ne!(hash_bytes(b"same bytes"), hash_bytes(b"other bytes"));
    assert_ne!(hash_bytes(b""), hash_bytes(b"\0"));
}
