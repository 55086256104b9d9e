use agentos_kernel::memory::frame_allocator::BitmapFrameAllocator;
use agentos_kernel::memory::kv_allocator::{
    KVCacheLocation, KVCacheMemoryManager, KV_CACHE_PAGE_SIZE,
};
use agentos_kernel::memory::paging::{pointer_is_mapped, pointer_is_plausible};
use agentos_kernel::memory::user_page::{
    inspect_user_page_at, map_user_page_at, map_user_test_page, test_pattern,
    USER_DISK_PROGRAM_DATA_ADDR, USER_TEST_PAGE_ADDR,
};

#[test]
fn frames_follow_one_another() {
    let mut a = BitmapFrameAllocator::init(0x10_0000, 0x10_3000);
    assert_eq!(a.allocate_frame(), Some(0x10_0000));
    assert_eq!(a.allocate_frame(), Some(0x10_1000));
    assert_eq!(a.allocate_frame(), Some(0x10_2000));
    assert_eq!(a.allocate_frame(), None);
    assert_eq!(a.allocate_frame(), None);
}

#[test]
fn a_first_frame_that_is_begun() {
    let mut a = BitmapFrameAllocator::init(0x1FFF, 0x4000);
    assert_eq!(a.allocate_frame(), Some(0x1000));
    assert!(BitmapFrameAllocator::init(0x4000, 0x4FFF).allocate_frame().is_none());
}

#[test]
fn pointers() {
    assert!(!pointer_is_mapped(0, Some(7)));
    assert!(pointer_is_mapped(0x4444_4444_0000, Some(3)));
    assert!(!pointer_is_mapped(0x4444_4444_0000, Some(2)));
    assert!(!pointer_is_mapped(0x1000, None));
    assert!(!pointer_is_mapped(0x8888_8888_0000, Some(7)));
    assert!(pointer_is_plausible(0x7FFF_FFFF_FFFF));
    assert!(!pointer_is_plausible(0x8000_0000_0000));
    assert!(!pointer_is_plausible(0xFFFF_7FFF_FFFF_FFFF));
    assert!(pointer_is_plausible(0xFFFF_8000_0000_0000));
}

#[test]
fn pages_for_user_code() {
    let m = map_user_test_page();
    assert_eq!((m.page, m.flags), (USER_TEST_PAGE_ADDR, 7));
    let m = map_user_page_at(USER_DISK_PROGRAM_DATA_ADDR + 0x123);
    assert_eq!(m.page, USER_DISK_PROGRAM_DATA_ADDR);
    let m = map_user_page_at(0xFFFF_8000_0000_1FFF);
    assert_eq!(m.page, 0xFFFF_8000_0000_1000);
}

#[test]
fn what_is_found_of_a_page() {
    let good = inspect_user_page_at(Some(7), test_pattern());
    assert!(good.present && good.writable && good.user_accessible && good.write_read_back_ok);
    let kernel = inspect_user_page_at(Some(3), test_pattern());
    assert!(kernel.present && kernel.writable && !kernel.user_accessible);
    let mut bad = test_pattern();
    bad[7] ^= 1;
    let none = inspect_user_page_at(None, bad);
    assert!(!none.present && !none.writable && !none.user_accessible && !none.write_read_back_ok);
}

#[test]
fn blocks_are_given_and_taken_back() {
    let mut kv = KVCacheMemoryManager::new();
    assert_eq!(kv.get_allocated_count(), 0);
    assert_eq!(kv.allocate_kv_block(2, 2048), Some(1));
    assert_eq!(kv.allocate_kv_block(3, 16), Some(2));
    assert_eq!(kv.get_allocated_count(), 2);
    {
        let blocks = kv.for_each_block();
        assert_eq!(blocks.len(), 2);
        assert_eq!((blocks[0].block_id, blocks[0].pid, blocks[0].token_capacity), (1, 2, 2048));
        assert_eq!(blocks[0].location, KVCacheLocation::SystemRam);
        assert_eq!(blocks[0].size_bytes(), KV_CACHE_PAGE_SIZE);
        assert!(blocks[0].data().iter().all(|&b| b == 0));
        assert_eq!(blocks[1].pid, 3);
    }
    assert_eq!(kv.free_kv_block(1), Some(2));
    assert_eq!(kv.free_kv_block(1), None);
    assert_eq!(kv.get_allocated_count(), 1);
    assert_eq!(kv.for_each_block().len(), 1);
    // The first place that is free is given next.
    assert_eq!(kv.allocate_kv_block(9, 1), Some(1));
}

#[test]
fn numbers_that_no_block_has() {
    let mut kv = KVCacheMemoryManager::new();
    assert_eq!(kv.free_kv_block(0), None);
    assert_eq!(kv.free_kv_block(9999), None);
    assert_eq!(kv.free_kv_block(128), None);
    assert_eq!(kv.free_kv_block(129), None);
}

#[test]
fn all_blocks_in_use() {
    let mut kv = KVCacheMemoryManager::new();
    for id in 1..=128 {
        assert_eq!(kv.allocate_kv_block(7, 1), Some(id));
    }
    assert_eq!(kv.allocate_kv_block(7, 1), None);
    assert_eq!(kv.get_allocated_count(), 128);
    assert_eq!(kv.free_kv_block(77), Some(7));
    assert!(kv.for_each_block().windows(2).all(|w| w[0].block_id < w[1].block_id));
    assert_eq!(kv.for_each_block().len(), 127);
    assert_eq!(kv.allocate_kv_block(8, 1), Some(77));
}
