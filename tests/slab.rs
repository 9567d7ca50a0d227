use fat32_slab::LockedAlloc;

#[test]
fn small_alloc_dealloc() {
    let mut buf = vec![0u8; 8192];
    let mut alloc = LockedAlloc::new();
    alloc.init(buf.as_mut_ptr() as usize, buf.len());

    let p = alloc.allocate(32, 8);
    assert!(p != 0);
    alloc.dealloc(p, 32, 8);
    let q = alloc.allocate(32, 8);
    assert!(q != 0);
}

#[test]
fn refill_many_objects() {
    let mut buf = vec![0u8; 64 * 1024];
    let mut alloc = LockedAlloc::new();
    alloc.init(buf.as_mut_ptr() as usize, buf.len());

    let mut ptrs = [0usize; 200];
    for i in 0..ptrs.len() {
        ptrs[i] = alloc.allocate(16, 8);
        assert!(ptrs[i] != 0);
    }
    for &p in &ptrs {
        alloc.dealloc(p, 16, 8);
    }
    for i in 0..ptrs.len() {
        ptrs[i] = alloc.allocate(16, 8);
        assert!(ptrs[i] != 0);
    }
}

#[test]
fn alignment_constraints_respected() {
    let mut buf = vec![0u8; 32 * 1024];
    let mut alloc = LockedAlloc::new();
    alloc.init(buf.as_mut_ptr() as usize, buf.len());

    let p = alloc.allocate(24, 32);
    assert_ne!(p, 0);
    assert_eq!(p % 32, 0);
}

#[test]
fn boundary_classes_and_large() {
    let mut buf = vec![0u8; 128 * 1024];
    let mut alloc = LockedAlloc::new();
    alloc.init(buf.as_mut_ptr() as usize, buf.len());

    let p1 = alloc.allocate(4096, 64);
    assert_ne!(p1, 0);

    let q1 = alloc.allocate(4097, 8);
    let q2 = alloc.allocate(4097, 8);
    assert_ne!(q1, 0);
    assert_ne!(q2, 0);
    assert_ne!(q1, q2);
}

#[test]
fn freelist_reuse_lifo() {
    let mut buf = vec![0u8; 32 * 1024];
    let mut alloc = LockedAlloc::new();
    alloc.init(buf.as_mut_ptr() as usize, buf.len());

    let a = alloc.allocate(64, 8);
    let b = alloc.allocate(64, 8);
    alloc.dealloc(a, 64, 8);
    alloc.dealloc(b, 64, 8);
    let c = alloc.allocate(64, 8);
    assert_eq!(c, b);
}
