use collam::arena::Arena;
use collam::collam::{Collam, FreeStatus};

const BASE: usize = 0x10000;
const LIMIT: usize = 0x10000 + (1 << 20);
const PAGE: usize = 4096;

#[test]
fn heap_test_request_block() {
    let mut heap = Arena::new(BASE, LIMIT, PAGE);
    let block = heap.request(256).expect("unable to request block");
    let size = heap.read(block.as_ptr()).size;
    assert_eq!(block.as_ptr() + 16 + size, heap.brk());
}

#[test]
fn heap_test_request_block_split() {
    let mut heap = Arena::new(BASE, LIMIT, PAGE);
    let block = heap.request(256).expect("unable to request block");
    heap.split_insert(block, 128);
    let free = heap.free_list();
    assert_eq!(free.len(), 1);
    let (addr, size) = free[0];
    assert_eq!(addr, block.as_ptr() + 16 + 128);
    assert_eq!(addr + 16 + size, heap.brk());
}

#[test]
fn arena_test_request_block() {
    let mut heap = Arena::new(BASE, LIMIT, PAGE);
    let block = heap.request(256).expect("unable to request block");
    assert_eq!(block.as_ptr(), BASE);
    assert_eq!(heap.brk(), BASE + PAGE);
    assert_eq!(heap.read(block.as_ptr()).size, PAGE - 16);
}

#[test]
fn arena_test_request_block_split() {
    let mut heap = Arena::new(BASE, LIMIT, PAGE);
    let block = heap.request(256).expect("unable to request block");
    heap.split_insert(block, 128);
    assert_eq!(heap.read(block.as_ptr()).size, 128);
    assert_eq!(heap.free_list(), vec![(BASE + 144, PAGE - 16 - 128 - 16)]);
}

#[test]
fn mod_test_request_block() {
    let mut heap = Arena::new(BASE, LIMIT, PAGE);
    let block = heap.request(PAGE).expect("unable to request block");
    // A page and a header round up to two pages.
    assert_eq!(heap.brk(), BASE + 2 * PAGE);
    assert_eq!(heap.read(block.as_ptr()).size, 2 * PAGE - 16);
}

#[test]
fn mod_test_request_block_split() {
    let mut heap = Arena::new(BASE, LIMIT, PAGE);
    let block = heap.request(256).expect("unable to request block");
    heap.split_insert(block, 128);
    let (addr, size) = heap.free_list()[0];
    assert_eq!(addr + 16 + size, heap.brk());
}

#[test]
fn request_fails_past_the_limit() {
    let mut heap = Arena::new(BASE, BASE + PAGE, PAGE);
    assert!(heap.request(PAGE).is_none());
    assert_eq!(heap.brk(), BASE);
    assert!(heap.request(PAGE - 16).is_some());
    assert_eq!(heap.brk(), BASE + PAGE);
}

#[test]
fn release_reports_double_free() {
    let mut heap = Arena::new(BASE, LIMIT, PAGE);
    let a = heap.request(64).expect("unable to request block");
    heap.split_insert(a, 64);
    let b = heap.request(64).expect("unable to request block");
    heap.split_insert(b, 64);
    assert!(heap.release(a).is_ok());
    assert!(heap.release(a).is_err());
}

#[test]
fn test_collam_alloc_ok() {
    let mut collam = Collam::new(BASE, LIMIT, PAGE);
    let ptr = collam.malloc(123);
    assert!(ptr != 0);
    assert_eq!(collam.free(ptr), FreeStatus::Freed);
}

#[test]
fn test_collam_alloc_zero_size() {
    let mut collam = Collam::new(BASE, LIMIT, PAGE);
    let ptr = collam.malloc(0);
    assert_eq!(ptr, 0);
}

#[test]
fn test_collam_realloc_bigger_size() {
    let mut collam = Collam::new(BASE, LIMIT, PAGE);
    let ptr = collam.malloc(16);
    assert!(ptr != 0);
    let ptr2 = collam.realloc(ptr, 789);
    assert!(ptr2 != 0);
    assert!(ptr2 != ptr);
    assert!(collam.usable_size(ptr2) >= 789);
    assert_eq!(collam.free(ptr2), FreeStatus::Freed);
}

#[test]
fn test_collam_realloc_smaller_size() {
    let mut collam = Collam::new(BASE, LIMIT, PAGE);
    let ptr = collam.malloc(512);
    assert!(ptr != 0);
    let ptr2 = collam.realloc(ptr, 128);
    assert_eq!(ptr2, ptr);
    assert_eq!(collam.usable_size(ptr2), 128);
    assert_eq!(collam.free(ptr2), FreeStatus::Freed);
}

#[test]
fn test_collam_realloc_same_size() {
    let mut collam = Collam::new(BASE, LIMIT, PAGE);
    let ptr = collam.malloc(512);
    assert!(ptr != 0);
    let ptr2 = collam.realloc(ptr, 512);
    assert!(ptr2 != 0);
    assert_eq!(ptr, ptr2);
    assert_eq!(collam.free(ptr), FreeStatus::Freed);
}

#[test]
fn test_collam_realloc_null() {
    // A null pointer makes `realloc` a `malloc`.
    let mut collam = Collam::new(BASE, LIMIT, PAGE);
    let ptr = collam.realloc(0, 789);
    assert_eq!(ptr, BASE + 16);
    assert_eq!(collam.usable_size(ptr), 800);
}

#[test]
fn test_collam_dealloc_null() {
    let mut collam = Collam::new(BASE, LIMIT, PAGE);
    assert_eq!(collam.free(0), FreeStatus::Null);
}

#[test]
fn test_collam_realloc_memory_corruption() {
    let mut collam = Collam::new(BASE, LIMIT, PAGE);
    let ptr = collam.malloc(16);
    assert!(ptr != 0);

    // Overwrite block metadata to simulate memory corruption
    collam.overwrite_header(ptr);

    // Calling realloc on a corrupt memory region
    let ptr2 = collam.realloc(ptr, 789);
    assert_eq!(ptr2, 0);

    // Calling alloc again. We expect to get a new block, the old memory is leaked.
    let ptr3 = collam.malloc(16);
    assert!(ptr3 != 0);
    assert!(ptr3 != ptr);
    assert_eq!(collam.free(ptr3), FreeStatus::Freed);
}

#[test]
fn test_collam_dealloc_memory_corruption() {
    let mut collam = Collam::new(BASE, LIMIT, PAGE);
    let ptr = collam.malloc(32);
    assert!(ptr != 0);
    collam.overwrite_header(ptr);
    assert_eq!(collam.free(ptr), FreeStatus::Invalid);
}

#[test]
fn calloc_multiplies() {
    let mut collam = Collam::new(BASE, LIMIT, PAGE);
    let ptr = collam.calloc(10, 10);
    assert_eq!(collam.usable_size(ptr), 112);
}

#[test]
fn calloc_overflow_gives_null() {
    let mut collam = Collam::new(BASE, LIMIT, PAGE);
    assert_eq!(collam.calloc(usize::MAX / 2, 3), 0);
    assert_eq!(collam.brk(), BASE);
    assert_eq!(collam.calloc(0, 3), 0);
}

#[test]
fn malloc_of_unpaddable_size_gives_null() {
    let mut collam = Collam::new(BASE, LIMIT, PAGE);
    assert_eq!(collam.malloc(usize::MAX - 14), 0);
    assert_eq!(collam.malloc(isize::MAX as usize), 0);
    assert_eq!(collam.brk(), BASE);
}

#[test]
fn malloc_out_of_memory_gives_null() {
    let mut collam = Collam::new(BASE, BASE + PAGE, PAGE);
    assert_eq!(collam.malloc(PAGE), 0);
    assert_eq!(collam.brk(), BASE);
}

#[test]
fn usable_size_of_foreign_pointers_is_zero() {
    let mut collam = Collam::new(BASE, LIMIT, PAGE);
    let ptr = collam.malloc(48);
    assert_eq!(collam.usable_size(0), 0);
    assert_eq!(collam.usable_size(8), 0);
    assert_eq!(collam.usable_size(ptr + 16), 0);
    assert_eq!(collam.usable_size(ptr), 48);
}

#[test]
fn free_of_foreign_pointer_is_refused() {
    let mut collam = Collam::new(BASE, LIMIT, PAGE);
    let ptr = collam.malloc(48);
    let before = collam.free_list();
    assert_eq!(collam.free(ptr + 16), FreeStatus::Invalid);
    assert_eq!(collam.free(8), FreeStatus::Invalid);
    assert_eq!(collam.free_list(), before);
}

#[test]
fn realloc_to_zero_frees() {
    let mut collam = Collam::new(BASE, LIMIT, PAGE);
    let ptr = collam.malloc(48);
    assert_eq!(collam.realloc(ptr, 0), 0);
    assert_eq!(collam.brk(), BASE);
    assert_eq!(collam.usable_size(ptr), 0);
}

#[test]
fn realloc_null_zero_gives_null() {
    let mut collam = Collam::new(BASE, LIMIT, PAGE);
    assert_eq!(collam.realloc(0, 0), 0);
    assert_eq!(collam.brk(), BASE);
}

#[test]
fn realloc_of_free_block_is_refused() {
    let mut collam = Collam::new(BASE, LIMIT, PAGE);
    let p = collam.malloc(64);
    let _guard = collam.malloc(64);
    assert_eq!(collam.free(p), FreeStatus::Freed);
    let before = collam.free_list();
    assert_eq!(collam.realloc(p, 32), 0);
    assert_eq!(collam.free_list(), before);
}

#[test]
fn realloc_grow_reuses_the_freed_space() {
    let mut collam = Collam::new(BASE, LIMIT, PAGE);
    let p = collam.malloc(64);
    let q = collam.realloc(p, 200);
    assert_eq!(q, BASE + 16 + 64 + 16);
    // The old block is free again and lies below the new one.
    assert_eq!(collam.free_list()[0], (BASE, 64));
}
