use pagestore::directory_page::HashTableDirectoryPage;
use pagestore::replacer::PageId;

#[test]
fn test_hash_table_directory_page() {
    let mut dir = HashTableDirectoryPage::new();
    dir.set_global_depth(1);
    dir.set_local_depth(0, 1);
    dir.set_local_depth(1, 1);
    dir.set_page_id(PageId(1));
    dir.set_bucket_page_id(0, PageId(2));
    assert_eq!(dir.get_global_depth(), 1);
    assert_eq!(dir.get_local_depth(0), 1);
    assert_eq!(dir.get_local_depth(1), 1);
    assert_eq!(dir.get_page_id(), PageId(1));
    assert_eq!(dir.get_bucket_page_id(0), PageId(2));
    // A directory written as a page image and read back is the same.
    let bytes = dir.serialize();
    let dir_1 = HashTableDirectoryPage::deserialize(&bytes);
    assert_eq!(dir_1.get_global_depth(), 1);
    assert_eq!(dir_1.get_local_depth(0), 1);
    assert_eq!(dir_1.get_local_depth(1), 1);
    assert_eq!(dir_1.get_page_id(), PageId(1));
    assert_eq!(dir_1.get_bucket_page_id(0), PageId(2));
    let align = core::mem::align_of::<HashTableDirectoryPage>();
    println!("align: {}", align);
}

#[test]
fn directory_depth_increments() {
    let mut dir = HashTableDirectoryPage::new();
    dir.increase_global_depth();
    dir.increase_global_depth();
    assert_eq!(dir.get_global_depth(), 2);
    dir.increase_local_depth(3);
    dir.increase_local_depth(3);
    assert_eq!(dir.get_local_depth(3), 2);
    assert_eq!(dir.get_local_depth(2), 0);
}
