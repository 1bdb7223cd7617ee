use kmem::addr::PAddr;
use kmem::frame_alloc::{FrameAllocator, MemError};

const BASE: u64 = 0x8000_0000;

#[test]
fn init_links_frames_in_ascending_order() {
    let mut a = FrameAllocator::init(BASE, 4);
    assert_eq!(a.total_frames(), 4);
    assert_eq!(a.free_count(), 4);
    // ascending reuse straight after init: 0, 1, 2, 3
    for i in 0..4u64 {
        let pa = a.alloc_frame().ok().unwrap();
        assert_eq!(pa.0, BASE + i * 4096);
    }
}

#[test]
fn exhaustion_after_n_allocations() {
    let n = 4;
    let mut a = FrameAllocator::init(BASE, n);
    for _ in 0..n {
        assert!(a.alloc_frame().is_ok());
    }
    // the (N+1)th allocation fails
    assert_eq!(a.alloc_frame().err().unwrap(), MemError::Exhausted);
    assert_eq!(a.free_count(), 0);
}

#[test]
fn reuse_order_most_recently_freed_first() {
    let mut a = FrameAllocator::init(BASE, 4);
    let p0 = a.alloc_frame().ok().unwrap();
    let p1 = a.alloc_frame().ok().unwrap();
    assert_ne!(p0.0, p1.0);
    a.free(p0).unwrap();
    // freeing then immediately reallocating returns that same frame
    let p2 = a.alloc_frame().ok().unwrap();
    assert_eq!(p2.0, p0.0);
}

#[test]
fn free_count_plus_outstanding_is_constant() {
    let n = 6;
    let mut a = FrameAllocator::init(BASE, n);
    let mut held: Vec<PAddr> = Vec::new();
    let mut outstanding = 0usize;
    assert_eq!(a.free_count() + outstanding, n);
    for _ in 0..4 {
        held.push(a.alloc_frame().ok().unwrap());
        outstanding += 1;
        assert_eq!(a.free_count() + outstanding, n);
    }
    for _ in 0..2 {
        a.free(held.pop().unwrap()).unwrap();
        outstanding -= 1;
        assert_eq!(a.free_count() + outstanding, n);
    }
    held.push(a.alloc_frame().ok().unwrap());
    outstanding += 1;
    assert_eq!(a.free_count() + outstanding, n);
}

#[test]
fn zalloc_zero_fills_dirty_frames() {
    let mut a = FrameAllocator::init(BASE, 2);
    let p = a.alloc_frame().ok().unwrap();
    let idx = ((p.0 - BASE) / 4096) as usize;
    // dirty every word of the frame
    for w in 0..512 {
        a.write_word(idx, w, 0xdead_beef_dead_beef);
    }
    a.free(p).unwrap();
    // most-recently-freed-first: zalloc hands the dirty frame back
    let p2 = a.zalloc().ok().unwrap();
    assert_eq!(p2.0, p.0);
    for w in 0..512 {
        assert_eq!(a.read_word(idx, w), 0);
    }
}

#[test]
fn alloc_preserves_frame_content() {
    let mut a = FrameAllocator::init(BASE, 2);
    let p = a.alloc_frame().ok().unwrap();
    let idx = ((p.0 - BASE) / 4096) as usize;
    a.write_word(idx, 7, 42);
    a.free(p).unwrap();
    // plain alloc does not touch content beyond the free-list bookkeeping
    let p2 = a.alloc_frame().ok().unwrap();
    assert_eq!(p2.0, p.0);
    assert_eq!(a.read_word(idx, 7), 42);
}

#[test]
fn free_rejects_address_below_arena() {
    let mut a = FrameAllocator::init(BASE, 2);
    assert_eq!(a.free(PAddr::new(BASE - 4096)).err().unwrap(), MemError::OutOfArena);
}

#[test]
fn free_rejects_address_past_arena() {
    let mut a = FrameAllocator::init(BASE, 2);
    assert_eq!(a.free(PAddr::new(BASE + 2 * 4096)).err().unwrap(), MemError::OutOfArena);
}

#[test]
fn free_rejects_misaligned_address() {
    let mut a = FrameAllocator::init(BASE, 2);
    let p = a.alloc_frame().ok().unwrap();
    assert_eq!(a.free(PAddr::new(p.0 + 1)).err().unwrap(), MemError::Misaligned);
}

#[test]
fn free_rejects_double_free() {
    let mut a = FrameAllocator::init(BASE, 2);
    let p = a.alloc_frame().ok().unwrap();
    a.free(p).unwrap();
    assert_eq!(a.free(p).err().unwrap(), MemError::DoubleFree);
}

#[test]
fn get_index_addr_is_base_plus_stride() {
    let a = FrameAllocator::init(BASE, 8);
    assert_eq!(a.get_index_addr(0).0, BASE);
    assert_eq!(a.get_index_addr(5).0, BASE + 5 * 4096);
    assert_eq!(a.get_index_addr(7).0, BASE + 7 * 4096);
}

#[test]
fn empty_arena_is_exhausted_immediately() {
    let mut a = FrameAllocator::init(BASE, 0);
    assert_eq!(a.free_count(), 0);
    assert_eq!(a.alloc_frame().err().unwrap(), MemError::Exhausted);
}
