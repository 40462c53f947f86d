use pagestore::buffer_pool::ParallelBufferPoolManager;
use pagestore::disk::{MemoryDiskManager, PAGE_SIZE};
use pagestore::replacer::{LRUReplacer, PageId};

type Pool = ParallelBufferPoolManager<LRUReplacer, MemoryDiskManager>;

#[test]
fn parallel_buffer_pool_test() {
    let disk_manager = MemoryDiskManager::new();
    let mut pbpm: Pool = ParallelBufferPoolManager::new(5, 10, disk_manager);
    for tid in 0..10u32 {
        let mut page_id = PageId(tid);
        let page = pbpm.new_page(&mut page_id).unwrap();
        let mut page = page;
        page[0] = page_id.0 as u8;
        pbpm.write_page_data(page_id, &page);
        pbpm.unpin_page(page_id, true);
    }
}

#[test]
fn full_pool_refuses_second_page() {
    // One instance with a single frame: a second page cannot be pinned.
    let disk_manager = MemoryDiskManager::new();
    let mut pbpm: Pool = ParallelBufferPoolManager::new(1, 1, disk_manager);
    let mut first = PageId(0);
    assert!(pbpm.new_page(&mut first).is_some());
    let mut second = PageId(0);
    assert!(pbpm.new_page(&mut second).is_none());
    assert!(pbpm.new_page_run(&mut second).is_none());
    pbpm.unpin_page(first, false);
    // Once the first page is unpinned its frame can be reclaimed.
    assert!(pbpm.new_page(&mut second).is_some());
    assert_ne!(first, second);
}

#[test]
fn dirty_page_survives_eviction_and_reopen() {
    let disk_manager = MemoryDiskManager::new();
    let mut pbpm: Pool = ParallelBufferPoolManager::new(1, 1, disk_manager);
    let mut first = PageId(0);
    let mut data = pbpm.new_page(&mut first).unwrap();
    data[0] = 0xAB;
    pbpm.write_page_data(first, &data);
    pbpm.unpin_page(first, true);
    // A second page takes over the only frame, forcing writeback.
    let mut second = PageId(0);
    assert!(pbpm.new_page(&mut second).is_some());
    pbpm.unpin_page(second, true);
    pbpm.flush_all_pages();
    // Close and reopen the pool over the same backing store; ids below
    // the watermark stay fetchable and are never re-issued.
    let disk_manager = pbpm.into_disk_manager();
    let mut reopened: Pool = ParallelBufferPoolManager::reopen(1, 1, disk_manager, 1024);
    let fetched = reopened.fetch_page(first).unwrap();
    assert_eq!(fetched[0], 0xAB);
}

#[test]
fn flush_all_persists_every_dirty_page() {
    let disk_manager = MemoryDiskManager::new();
    let mut pbpm: Pool = ParallelBufferPoolManager::new(2, 4, disk_manager);
    let mut pids = Vec::new();
    for seed in 0..4u32 {
        let mut pid = PageId(seed);
        let mut data = pbpm.new_page(&mut pid).unwrap();
        data[0] = seed as u8 + 1;
        pbpm.write_page_data(pid, &data);
        pbpm.unpin_page(pid, true);
        pids.push(pid);
    }
    pbpm.flush_all_pages();
    // Reconstructing a pool over the same store reads the same pages.
    let disk_manager = pbpm.into_disk_manager();
    let mut reopened: Pool = ParallelBufferPoolManager::reopen(2, 4, disk_manager, 1024);
    for (seed, pid) in pids.iter().enumerate() {
        let data = reopened.fetch_page(*pid).unwrap();
        assert_eq!(data[0], seed as u8 + 1);
        assert_eq!(data.len(), PAGE_SIZE);
        reopened.unpin_page(*pid, false);
    }
}

#[test]
fn striped_allocation_yields_distinct_pages() {
    let disk_manager = MemoryDiskManager::new();
    let mut pbpm: Pool = ParallelBufferPoolManager::new(5, 10, disk_manager);
    let mut pids = Vec::new();
    for seed in 0..10u32 {
        let mut pid = PageId(seed);
        let data = pbpm.new_page(&mut pid);
        assert!(data.is_some());
        pbpm.unpin_page(pid, true);
        // Ids are striped: the allocating instance is the seed modulo 5.
        assert_eq!(pid.0 % 5, seed % 5);
        pids.push(pid.0);
    }
    pids.sort();
    pids.dedup();
    assert_eq!(pids.len(), 10);
    pbpm.flush_all_pages();
    let disk_manager = pbpm.into_disk_manager();
    assert_eq!(disk_manager.pages.len(), 10);
}

#[test]
fn round_robin_skips_exhausted_instance() {
    let disk_manager = MemoryDiskManager::new();
    let mut pbpm: Pool = ParallelBufferPoolManager::new(3, 2, disk_manager);
    // Pin every frame of instance 0.
    for _ in 0..2 {
        let mut pid = PageId(0);
        assert!(pbpm.new_page(&mut pid).is_some());
    }
    // The rotation starts at instance 0 but still succeeds elsewhere,
    // and advances the start index past 0.
    assert_eq!(pbpm.start_index, 0);
    let mut pid = PageId(0);
    assert!(pbpm.new_page_run(&mut pid).is_some());
    assert_ne!(pbpm.start_index, 0);
    assert_ne!(pid.0 % 3, 0);
}

#[test]
fn delete_page_reuses_the_id() {
    let disk_manager = MemoryDiskManager::new();
    let mut pbpm: Pool = ParallelBufferPoolManager::new(1, 4, disk_manager);
    let mut pid = PageId(0);
    assert!(pbpm.new_page(&mut pid).is_some());
    let first = pid;
    pbpm.unpin_page(first, false);
    pbpm.delete_page(first);
    // The freed id is reused before the stream advances.
    let mut pid2 = PageId(0);
    assert!(pbpm.new_page(&mut pid2).is_some());
    assert_eq!(pid2, first);
}

#[test]
fn fetch_hit_returns_written_bytes() {
    let disk_manager = MemoryDiskManager::new();
    let mut pbpm: Pool = ParallelBufferPoolManager::new(2, 3, disk_manager);
    let mut pid = PageId(1);
    let mut data = pbpm.new_page(&mut pid).unwrap();
    data[7] = 42;
    pbpm.write_page_data(pid, &data);
    let again = pbpm.fetch_page(pid).unwrap();
    assert_eq!(again[7], 42);
    pbpm.unpin_page(pid, true);
    pbpm.unpin_page(pid, false);
    // The monotonic dirty flag persists the write on flush.
    pbpm.flush_page(pid);
    let disk_manager = pbpm.into_disk_manager();
    assert_eq!(disk_manager.pages.get(&pid.0).unwrap()[7], 42);
}
