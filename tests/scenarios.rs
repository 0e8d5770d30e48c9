use collam::collam::{Collam, FreeStatus};

const BASE: usize = 0x10000;
const LIMIT: usize = 0x10000 + (1 << 20);
const PAGE: usize = 4096;

#[test]
fn sequential_alloc_free_realloc() {
    let mut c = Collam::new(BASE, LIMIT, PAGE);
    let first = c.malloc(100);
    assert!(first != 0);
    assert_eq!(c.usable_size(first), 112);
    let second = c.realloc(first, 50);
    assert_eq!(second, first);
    // The 48 spare bytes are too few for a free block: the block keeps them.
    assert_eq!(c.usable_size(second), 112);
    assert_eq!(c.free_list(), vec![(BASE + 128, PAGE - 128 - 16)]);
    assert_eq!(c.free(second), FreeStatus::Freed);
    // Merged with the rest of the page, the block of footprint 128 was topmost
    // and went back to the system.
    assert_eq!(c.free_list(), vec![]);
    assert_eq!(c.brk(), BASE);
}

#[test]
fn split_on_allocation() {
    let mut c = Collam::new(BASE, LIMIT, PAGE);
    let p = c.malloc(32);
    assert_eq!(p, BASE + 16);
    assert_eq!(c.brk(), BASE + PAGE);
    assert_eq!(c.usable_size(p), 32);
    assert_eq!(c.free_list(), vec![(BASE + 48, PAGE - 16 - 32 - 16)]);
}

#[test]
fn coalesce_on_free() {
    let mut c = Collam::new(BASE, LIMIT, PAGE);
    let first = c.malloc(64);
    let second = c.malloc(64);
    let _third = c.malloc(64);
    assert_eq!(c.free(first), FreeStatus::Freed);
    assert_eq!(c.free(second), FreeStatus::Freed);
    assert_eq!(c.free_list()[0], (BASE, 64 + 16 + 64));
    assert_eq!(c.free_list().len(), 2);
}

#[test]
fn coalesce_on_free_with_the_rest_of_the_page() {
    let mut c = Collam::new(BASE, LIMIT, PAGE);
    let first = c.malloc(64);
    let second = c.malloc(64);
    assert_eq!(c.free(first), FreeStatus::Freed);
    assert_eq!(c.free_list().len(), 2);
    assert_eq!(c.free(second), FreeStatus::Freed);
    // Both blocks and the tail of the page form one topmost block, released.
    assert_eq!(c.free_list(), vec![]);
    assert_eq!(c.brk(), BASE);
}

#[test]
fn top_release() {
    let mut c = Collam::new(BASE, LIMIT, PAGE);
    let keep = c.malloc(PAGE - 16);
    let before = c.brk();
    let p = c.malloc(3000);
    assert!(c.brk() > before);
    assert_eq!(c.free(p), FreeStatus::Freed);
    assert_eq!(c.brk(), before);
    assert_eq!(c.usable_size(keep), PAGE - 16);
}

#[test]
fn double_free() {
    let mut c = Collam::new(BASE, LIMIT, PAGE);
    let p = c.malloc(16);
    let _guard = c.malloc(16);
    assert_eq!(c.free(p), FreeStatus::Freed);
    let after_first = c.free_list();
    assert_eq!(c.free(p), FreeStatus::DoubleFree);
    assert_eq!(c.free_list(), after_first);
}

#[test]
fn double_free_after_release() {
    // Once the block went back to the system its header is gone too.
    let mut c = Collam::new(BASE, LIMIT, PAGE);
    let p = c.malloc(16);
    assert_eq!(c.free(p), FreeStatus::Freed);
    assert_eq!(c.free(p), FreeStatus::Invalid);
    assert_eq!(c.brk(), BASE);
}

#[test]
fn corrupted_magic_on_free() {
    let mut c = Collam::new(BASE, LIMIT, PAGE);
    let p = c.malloc(16);
    let before = c.free_list();
    c.overwrite_header(p);
    assert_eq!(c.free(p), FreeStatus::Invalid);
    assert_eq!(c.free_list(), before);
    assert_eq!(c.usable_size(p), 0);
}

#[test]
fn round_trip_from_the_free_list() {
    let mut c = Collam::new(BASE, LIMIT, PAGE);
    let a = c.malloc(64);
    let _b = c.malloc(64);
    c.free(a);
    let free_before = c.free_list();
    let brk_before = c.brk();
    let p = c.malloc(64);
    assert_eq!(p, a);
    c.free(p);
    assert_eq!(c.free_list(), free_before);
    assert_eq!(c.brk(), brk_before);
}

#[test]
fn round_trip_from_the_segment() {
    let mut c = Collam::new(BASE, LIMIT, PAGE);
    let _a = c.malloc(PAGE - 16);
    let free_before = c.free_list();
    let brk_before = c.brk();
    let p = c.malloc(5000);
    assert!(c.brk() > brk_before);
    c.free(p);
    assert_eq!(c.free_list(), free_before);
    assert_eq!(c.brk(), brk_before);
}

#[test]
fn usable_size_is_stable() {
    let mut c = Collam::new(BASE, LIMIT, PAGE);
    let p = c.malloc(200);
    let first = c.usable_size(p);
    assert_eq!(first, 208);
    assert_eq!(c.usable_size(p), first);
    let q = c.malloc(30);
    assert_eq!(c.usable_size(p), first);
    c.free(q);
    assert_eq!(c.usable_size(p), first);
}

#[test]
fn realloc_within_usable_size_stays() {
    let mut c = Collam::new(BASE, LIMIT, PAGE);
    let p = c.malloc(100);
    for s in [112, 100, 97, 50, 1].iter() {
        assert!(*s <= c.usable_size(p));
        assert_eq!(c.realloc(p, *s), p);
    }
}

#[test]
fn malloc_zero_and_realloc_boundaries() {
    let mut c = Collam::new(BASE, LIMIT, PAGE);
    assert_eq!(c.malloc(0), 0);
    assert_eq!(c.realloc(0, 0), 0);
    let p = c.realloc(0, 40);
    let mut d = Collam::new(BASE, LIMIT, PAGE);
    assert_eq!(p, d.malloc(40));
    assert_eq!(c.realloc(p, 0), 0);
    assert_eq!(c.usable_size(p), 0);
}

#[test]
fn footprints_add_up_to_the_segment() {
    let mut c = Collam::new(BASE, LIMIT, PAGE);
    let a = c.malloc(100);
    let b = c.malloc(5000);
    let d = c.malloc(16);
    c.free(b);
    let held: usize = [a, d].iter().map(|p| c.usable_size(*p) + 16).sum();
    let free: usize = c.free_list().iter().map(|(_, size)| size + 16).sum();
    assert_eq!(held + free, c.brk() - BASE);
}

#[test]
fn free_list_stays_ordered_and_apart() {
    let mut c = Collam::new(BASE, LIMIT, PAGE);
    let ptrs: Vec<usize> = (1..12).map(|i| c.malloc(i * 24)).collect();
    for p in ptrs.iter().step_by(2) {
        c.free(*p);
    }
    let list = c.free_list();
    for w in list.windows(2) {
        assert!(w[0].0 + 16 + w[0].1 < w[1].0);
    }
    for (addr, size) in list.iter() {
        assert_eq!(addr % 16, 0);
        assert_eq!(size % 16, 0);
    }
}

#[test]
fn usable_size_is_kept_by_realloc_of_another_block() {
    let mut c = Collam::new(BASE, LIMIT, PAGE);
    let p = c.malloc(200);
    let q = c.malloc(40);
    let q2 = c.realloc(q, 900);
    assert!(q2 != q);
    assert_eq!(c.usable_size(p), 208);
    c.realloc(q2, 32);
    assert_eq!(c.usable_size(p), 208);
}

#[test]
fn realloc_grow_frees_the_old_bytes_apart_from_the_new_block() {
    let mut c = Collam::new(BASE, LIMIT, PAGE);
    let p = c.malloc(64);
    let _guard = c.malloc(16);
    let q = c.realloc(p, 500);
    assert!(q >= p + 64 + 16 || q + 500 <= p - 16);
    assert_eq!(c.free_list()[0], (p - 16, 64));
}
