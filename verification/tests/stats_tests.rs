use ddh::fileinfo::Fileinfo;
use ddh::stats::{block_divisor, total_byte_count, total_file_count, unique_byte_count};

fn rec(length: u64, paths: &[&str]) -> Fileinfo {
    Fileinfo {
        file_length: length,
        full_hash: None,
        file_paths: paths.iter().map(|p| p.to_string()).collect(),
    }
}

#[test]
fn totals_over_a_mixed_collection() {
    let records = vec![rec(10, &["a", "b", "c"]), rec(4, &["d"])];
    // 3 + 1 instances, 3*10 + 1*4 bytes with duplicates, 10 + 4 distinct.
    assert_eq!(total_file_count(&records), Some(4));
    assert_eq!(total_byte_count(&records), Some(34));
    assert_eq!(unique_byte_count(&records), Some(14));
}

#[test]
fn totals_of_an_empty_collection_are_zero() {
    let records: Vec<Fileinfo> = vec![];
    assert_eq!(total_file_count(&records), Some(0));
    assert_eq!(total_byte_count(&records), Some(0));
    assert_eq!(unique_byte_count(&records), Some(0));
}

#[test]
fn byte_total_overflow_is_reported_not_wrapped() {
    let records = vec![rec(u64::MAX, &["a", "b"])];
    assert_eq!(total_byte_count(&records), None);
    assert_eq!(unique_byte_count(&records), Some(u64::MAX));
    let records2 = vec![rec(u64::MAX, &["a"]), rec(u64::MAX, &["b"])];
    assert_eq!(unique_byte_count(&records2), None);
}

#[test]
fn block_divisor_powers_of_1024() {
    assert_eq!(block_divisor(0), 1);
    assert_eq!(block_divisor(1), 1024);
    assert_eq!(block_divisor(2), 1024 * 1024);
    assert_eq!(block_divisor(3), 1024 * 1024 * 1024);
}
