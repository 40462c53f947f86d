use pagestore::buffer_pool::ParallelBufferPoolManager;
use pagestore::disk::MemoryDiskManager;
use pagestore::hash_table::{ExtendibleHashTable, IdentityHasher};
use pagestore::replacer::LRUReplacer;

type Pool = ParallelBufferPoolManager<LRUReplacer, MemoryDiskManager>;
type Table = ExtendibleHashTable<LRUReplacer, MemoryDiskManager, IdentityHasher>;

fn new_table() -> Table {
    let disk_manager = MemoryDiskManager::new();
    let bpm: Pool = ParallelBufferPoolManager::new(5, 10, disk_manager);
    ExtendibleHashTable::new(bpm, IdentityHasher).unwrap()
}

#[test]
fn extendible_hash_table_test() {
    let mut eht = new_table();
    for i in 0..100u64 {
        eht.insert(i, i + 1);
    }
    for i in 0..100u64 {
        assert_eq!(eht.get_value(i), vec![i + 1]);
    }
    for i in 0..100u64 {
        eht.remove(i, i + 1);
    }
    for i in 0..100u64 {
        assert_eq!(eht.get_value(i), vec![]);
    }
}

#[test]
fn test_insert() {
    let mut eht = new_table();
    for i in 0..100u64 {
        eht.insert(i, i + 1);
    }
    for i in 0..100u64 {
        eht.insert(i, i);
    }
    for i in 0..100u64 {
        assert_eq!(eht.get_value(i).len(), 2);
    }
    for i in 0..100u64 {
        eht.remove(i, i);
    }
    for i in 0..100u64 {
        assert_eq!(eht.get_value(i), vec![i + 1]);
    }
}

#[test]
fn duplicate_insert_is_refused() {
    let mut eht = new_table();
    assert!(eht.insert(5, 50));
    assert!(!eht.insert(5, 50));
    assert_eq!(eht.get_value(5), vec![50]);
}

#[test]
fn insert_then_remove_round_trip() {
    let mut eht = new_table();
    assert!(eht.insert(9, 90));
    assert!(eht.remove(9, 90));
    assert_eq!(eht.get_value(9), vec![]);
    assert!(!eht.remove(9, 90));
}

#[test]
fn cascading_split_loses_nothing() {
    // All keys are multiples of 8, so with the identity hasher they
    // collide on the low three directory bits: filling one bucket past
    // its 248 slots forces splits that cascade the global depth from 0
    // beyond 3 before the keys separate.
    let mut eht = new_table();
    let n: u64 = 249;
    for k in 0..n {
        assert!(eht.insert(8 * k, 8 * k + 1));
    }
    for k in 0..n {
        assert_eq!(eht.get_value(8 * k), vec![8 * k + 1]);
    }
}

#[test]
fn values_keep_slot_order() {
    let mut eht = new_table();
    assert!(eht.insert(3, 31));
    assert!(eht.insert(3, 32));
    assert!(eht.insert(3, 33));
    assert_eq!(eht.get_value(3), vec![31, 32, 33]);
    assert!(eht.remove(3, 32));
    assert_eq!(eht.get_value(3), vec![31, 33]);
}
