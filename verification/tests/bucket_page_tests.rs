use pagestore::bucket_page::{HashTableBucketPage, InertResult, BLANK_SIZE, BYTE_NUM, KV_NUM};
use pagestore::disk::PAGE_SIZE;

#[test]
fn hash_table_bucket_page_test() {
    let page = HashTableBucketPage::new();
    println!("{}", page.kvs.len());
    println!("{}", page.readable.len());
    println!("{}", BLANK_SIZE);
    println!("{}", PAGE_SIZE);
}

#[test]
fn bucket_layout_constants() {
    assert_eq!(BYTE_NUM, PAGE_SIZE / (8 * (8 + 8) + 1));
    assert_eq!(KV_NUM, BYTE_NUM * 8);
    assert_eq!(BLANK_SIZE, PAGE_SIZE - (8 + 8) * KV_NUM - BYTE_NUM);
}

#[test]
fn bucket_insert_get_remove() {
    let mut page = HashTableBucketPage::new();
    assert!(matches!(page.insert(7, 70), InertResult::Success));
    assert!(matches!(page.insert(7, 71), InertResult::Success));
    assert!(matches!(page.insert(7, 70), InertResult::Duplicate));
    assert_eq!(page.get_value(7), vec![70, 71]);
    assert_eq!(page.get_value(8), Vec::<u64>::new());
    assert!(page.remove(7, 70));
    assert!(!page.remove(7, 70));
    assert_eq!(page.get_value(7), vec![71]);
}

#[test]
fn bucket_fills_up_exactly() {
    let mut page = HashTableBucketPage::new();
    for i in 0..KV_NUM as u64 {
        assert!(matches!(page.insert(i, i), InertResult::Success));
    }
    assert!(matches!(page.insert(9999, 9999), InertResult::Full));
    assert!(page.remove(0, 0));
    assert!(matches!(page.insert(9999, 9999), InertResult::Success));
}

#[test]
fn bucket_bitmap_counts_live_entries() {
    let mut page = HashTableBucketPage::new();
    for i in 0..10u64 {
        assert!(matches!(page.insert(i, i + 1), InertResult::Success));
    }
    assert!(page.remove(3, 4));
    assert!(page.remove(7, 8));
    let live: usize = (0..KV_NUM).filter(|&i| page.is_readable(i)).count();
    let bits: u32 = page.readable.iter().map(|b| b.count_ones()).sum();
    assert_eq!(live, 8);
    assert_eq!(bits as usize, live);
}

#[test]
fn bucket_serialization_round_trip() {
    let mut page = HashTableBucketPage::new();
    assert!(matches!(page.insert(11, 110), InertResult::Success));
    assert!(matches!(page.insert(22, 220), InertResult::Success));
    let bytes = page.serialize();
    assert_eq!(bytes.len(), PAGE_SIZE);
    let back = HashTableBucketPage::deserialize(&bytes);
    assert_eq!(back.get_value(11), vec![110]);
    assert_eq!(back.get_value(22), vec![220]);
    assert_eq!(back.readable, page.readable);
}
