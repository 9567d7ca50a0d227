use fat32_slab::{LockedAlloc, SlabAllocator, align_up, is_power_of_two};

#[test]
fn uninitialized_allocator_returns_null() {
    let mut a = SlabAllocator::new();
    assert_eq!(a.allocate(8, 8), 0);
    assert_eq!(a.allocate(10_000, 8), 0);
    let mut l = LockedAlloc::new();
    assert_eq!(l.allocate(16, 16), 0);
}

#[test]
fn lifo_reuse_full_sequence() {
    let mut a = SlabAllocator::new();
    a.init(0x10_0000, 64 * 1024);
    let p = a.allocate(100, 8);
    let q = a.allocate(100, 8);
    a.dealloc(p, 100, 8);
    a.dealloc(q, 100, 8);
    let r = a.allocate(100, 8);
    let s = a.allocate(100, 8);
    assert_eq!(r, q);
    assert_eq!(s, p);
}

#[test]
fn exhaustion_then_reuse_after_free() {
    let mut a = SlabAllocator::new();
    a.init(0x20_0000, 4096);
    let mut got = Vec::new();
    loop {
        let p = a.allocate(1024, 8);
        if p == 0 {
            break;
        }
        got.push(p);
    }
    assert_eq!(got.len(), 4);
    assert_eq!(a.allocate(1024, 8), 0);
    assert_eq!(a.allocate(2048, 8), 0);
    a.dealloc(got[1], 1024, 8);
    assert_eq!(a.allocate(1024, 8), got[1]);
    assert_eq!(a.allocate(1024, 8), 0);
}

#[test]
fn alignment_for_many_requests() {
    let mut a = SlabAllocator::new();
    a.init(0x30_0000 + 8, 256 * 1024);
    for align in [1usize, 2, 4, 8, 16, 64, 256, 1024, 4096, 8192] {
        for size in [1usize, 7, 24, 100, 3000, 5000] {
            let p = a.allocate(size, align);
            assert_ne!(p, 0, "size {size} align {align}");
            assert_eq!(p % align, 0, "size {size} align {align}");
        }
    }
}

#[test]
fn live_blocks_never_overlap() {
    let mut a = SlabAllocator::new();
    a.init(0x40_0000, 128 * 1024);
    let mut live: Vec<(usize, usize)> = Vec::new();
    for (i, size) in [8usize, 9, 16, 33, 64, 200, 1000, 5000, 12, 4096, 4097].iter().enumerate() {
        let p = a.allocate(*size, 8);
        assert_ne!(p, 0);
        live.push((p, *size));
        if i % 3 == 0 {
            let (q, s) = live.remove(0);
            a.dealloc(q, s, 8);
        }
    }
    for i in 0..live.len() {
        for j in i + 1..live.len() {
            let (p, s) = live[i];
            let (q, t) = live[j];
            assert!(p + s <= q || q + t <= p, "{p:#x}+{s} overlaps {q:#x}+{t}");
        }
    }
}

#[test]
fn large_requests_take_the_bump_tail() {
    let mut a = SlabAllocator::new();
    a.init(0x50_0000, 64 * 1024);
    let p = a.allocate(5000, 16);
    assert_eq!(p, 0x50_0000);
    let q = a.allocate(5000, 16);
    assert_eq!(q, 0x50_0000 + 5008);
    a.dealloc(p, 5000, 16);
    let r = a.allocate(5000, 16);
    assert_eq!(r, 0x50_0000 + 10016);
}

#[test]
fn chunk_blocks_come_from_the_top() {
    let mut a = SlabAllocator::new();
    a.init(0x60_0000, 64 * 1024);
    assert_eq!(a.allocate(512, 8), 0x60_0000 + 4096 - 512);
    assert_eq!(a.allocate(512, 8), 0x60_0000 + 4096 - 1024);
    assert_eq!(a.allocate(4096, 1), 0x60_0000 + 4096);
}

#[test]
fn align_up_and_power_of_two() {
    assert_eq!(align_up(0, 8), 0);
    assert_eq!(align_up(1, 8), 8);
    assert_eq!(align_up(8, 8), 8);
    assert_eq!(align_up(4097, 4096), 8192);
    assert!(is_power_of_two(1));
    assert!(is_power_of_two(4096));
    assert!(!is_power_of_two(0));
    assert!(!is_power_of_two(12));
}
