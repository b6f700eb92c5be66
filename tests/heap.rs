use tlsf_allocator::heap::CONTROLLER_SIZE;
use tlsf_allocator::{AllocError, Heap};

const BASE: usize = 0x4000_0000;

fn heap_of(size: usize) -> Heap {
    let mut h = Heap::new();
    h.init(BASE, size);
    h
}

#[test]
fn init_counts_the_first_block() {
    let h = heap_of(1 << 20);
    assert_eq!(h.total_bytes(), (1 << 20) - CONTROLLER_SIZE - 48);
    assert_eq!(h.available_bytes(), h.total_bytes());
    assert_eq!(h.used_bytes(), 0);
}

#[test]
fn empty_heap_has_no_memory() {
    let mut h = Heap::new();
    assert_eq!(h.allocate(8, 8), Err(AllocError::NoMemory));
    assert_eq!(h.total_bytes(), 0);
}

#[test]
fn freed_region_is_reused_and_counts_return() {
    let mut h = heap_of(1 << 20);
    let after_init = h.available_bytes();
    let a = h.allocate(100, 8).unwrap();
    let b = h.allocate(200, 8).unwrap();
    h.deallocate(a, 100, 8);
    let c = h.allocate(50, 8).unwrap();
    assert_eq!(c, a);
    h.deallocate(b, 200, 8);
    h.deallocate(c, 50, 8);
    assert_eq!(h.available_bytes(), after_init);
    assert_eq!(h.used_bytes(), 0);
}

#[test]
fn page_aligned_request_leaves_head_and_tail_free() {
    let mut h = heap_of(64 * 1024);
    let p = h.allocate(4096, 4096).unwrap();
    assert_eq!(p % 4096, 0);
    assert_eq!(p, BASE + 8192);
    let head = h.allocate(800, 8).unwrap();
    assert!(head < p);
    assert!(head >= BASE + CONTROLLER_SIZE);
    let tail = h.allocate(40_000, 8).unwrap();
    assert!(tail >= p + 4096);
}

#[test]
fn every_power_of_two_alignment_is_met() {
    let mut h = heap_of(1 << 20);
    let mut align: usize = 1;
    while align <= 4096 {
        let p = h.allocate(24, align).unwrap();
        assert_eq!(p % align, 0);
        align *= 2;
    }
}

#[test]
fn live_allocations_do_not_overlap() {
    let mut h = heap_of(1 << 20);
    let sizes = [1usize, 7, 16, 33, 100, 255, 256, 1000, 4096, 5000];
    let mut got: Vec<(usize, usize)> = Vec::new();
    for (i, s) in sizes.iter().enumerate() {
        let align = if i % 3 == 0 { 64 } else { 8 };
        let p = h.allocate(*s, align).unwrap();
        got.push((p, *s));
    }
    for i in 0..got.len() {
        for j in 0..got.len() {
            if i != j {
                let (p, s) = got[i];
                let (q, t) = got[j];
                assert!(p + s <= q || q + t <= p);
            }
        }
    }
}

#[test]
fn counters_stay_within_total() {
    let mut h = heap_of(1 << 20);
    let mut live: Vec<(usize, usize)> = Vec::new();
    for s in [10usize, 300, 4000, 70, 12345] {
        let p = h.allocate(s, 8).unwrap();
        live.push((p, s));
        assert!(h.used_bytes() + h.available_bytes() <= h.total_bytes());
    }
    assert_eq!(h.used_bytes(), 10 + 300 + 4000 + 70 + 12345);
    for (p, s) in live {
        h.deallocate(p, s, 8);
        assert!(h.used_bytes() + h.available_bytes() <= h.total_bytes());
    }
    assert_eq!(h.used_bytes(), 0);
}

#[test]
fn alloc_then_free_restores_available() {
    let mut h = heap_of(1 << 20);
    let before = h.available_bytes();
    let p = h.allocate(500, 16).unwrap();
    assert!(h.available_bytes() < before);
    h.deallocate(p, 500, 16);
    assert_eq!(h.available_bytes(), before);
}

#[test]
fn freed_allocation_fails_the_free_check() {
    let mut h = heap_of(1 << 20);
    let a = h.allocate(100, 8).unwrap();
    let _b = h.allocate(100, 8).unwrap();
    assert!(h.can_deallocate(a, 100, 8));
    h.deallocate(a, 100, 8);
    assert!(!h.can_deallocate(a, 100, 8));
    assert!(!h.can_deallocate(a + 8, 100, 8));
}

#[test]
fn neighbours_merge_into_one_block() {
    let mut h = heap_of(1 << 20);
    let a = h.allocate(1000, 8).unwrap();
    let b = h.allocate(1000, 8).unwrap();
    let _guard = h.allocate(1000, 8).unwrap();
    assert_eq!(b, a + 1000 + 16);
    h.deallocate(a, 1000, 8);
    h.deallocate(b, 1000, 8);
    let c = h.allocate(2000, 8).unwrap();
    assert_eq!(c, a);
}

#[test]
fn too_large_request_fails_and_changes_nothing() {
    let mut h = heap_of(64 * 1024);
    let avail = h.available_bytes();
    assert_eq!(h.allocate(64 * 1024, 8), Err(AllocError::NoMemory));
    assert_eq!(h.allocate(usize::MAX / 2, 8), Err(AllocError::NoMemory));
    assert_eq!(h.available_bytes(), avail);
    assert_eq!(h.used_bytes(), 0);
}

#[test]
fn added_range_serves_what_the_first_cannot() {
    let mut h = heap_of(64 * 1024);
    let total = h.total_bytes();
    assert_eq!(h.allocate(100_000, 8), Err(AllocError::NoMemory));
    h.add_memory(BASE + 0x10_0000, 0x4_0000);
    assert_eq!(h.total_bytes(), total + 0x4_0000 - 48);
    let p = h.allocate(100_000, 8).unwrap();
    assert!(p >= BASE + 0x10_0000);
    assert!(p + 100_000 <= BASE + 0x14_0000);
}

#[test]
fn exhausting_then_freeing_all_restores_the_arena() {
    let mut h = heap_of(64 * 1024);
    let avail = h.available_bytes();
    let mut live = Vec::new();
    while let Ok(p) = h.allocate(256, 8) {
        live.push(p);
    }
    assert!(live.len() > 100);
    for p in live.iter().rev() {
        h.deallocate(*p, 256, 8);
    }
    assert_eq!(h.available_bytes(), avail);
    assert_eq!(avail, 58_168);
    assert_eq!(h.allocate(avail, 8), Err(AllocError::NoMemory));
    let big = h.allocate(57_000, 8);
    assert_eq!(big, Ok(BASE + CONTROLLER_SIZE + 16));
}

#[test]
fn aligned_alloc_then_free_restores_available() {
    let mut h = heap_of(64 * 1024);
    let before = h.available_bytes();
    let p = h.allocate(4096, 4096).unwrap();
    assert_eq!(h.available_bytes(), before - 4096 - 2 * 16);
    h.deallocate(p, 4096, 4096);
    assert_eq!(h.available_bytes(), before);
    assert_eq!(h.used_bytes(), 0);
}
