use kmem::addr::{PAddr, VAddr};
use kmem::entry::{
    Entry, EntryFlags, FLAG_R, FLAG_RW, FLAG_RX, FLAG_V, FLAG_W,
};
use kmem::frame_alloc::{FrameAllocator, MemError};
use kmem::vmm::{id_map_range, AddrSpaceHandle, Table};

const BASE: u64 = 0x8000_0000;

#[test]
fn vpn_fields_decompose_an_address() {
    let va = VAddr::new((3 << 30) | (5 << 21) | (7 << 12) | 0xabc);
    let vpn = va.vpn();
    assert_eq!(vpn[0], 7);
    assert_eq!(vpn[1], 5);
    assert_eq!(vpn[2], 3);
}

#[test]
fn ppn_fields_decompose_an_address() {
    let pa = PAddr::new((0x12345u64 << 30) | (9 << 21) | (2 << 12));
    let ppn = pa.ppn();
    assert_eq!(ppn[0], 2);
    assert_eq!(ppn[1], 9);
    assert_eq!(ppn[2], 0x12345);
}

#[test]
fn entry_classification_and_address() {
    // a leaf for physical page 0x3000 with read+write
    let leaf = Entry::new((0x3000 >> 2) | (FLAG_RW as u64) | (FLAG_V as u64));
    assert!(leaf.is_valid());
    assert!(!leaf.is_branch());
    assert_eq!(leaf.as_address().0, 0x3000);
    assert_eq!(leaf.flags(), FLAG_RW | FLAG_V);
    // a branch to a table at 0x5000
    let branch = Entry::new((0x5000 >> 2) | (FLAG_V as u64));
    assert!(branch.is_valid());
    assert!(branch.is_branch());
    assert_eq!(branch.as_address().0, 0x5000);
    // all-zero entries are invalid
    assert!(!Entry::new(0).is_valid());
}

#[test]
fn table_len_is_512() {
    assert_eq!(Table::len(), 512);
}

#[test]
fn null_address_space_is_empty() {
    let asp = AddrSpaceHandle::null();
    let root = asp.get_ptr();
    for i in 0..512 {
        assert_eq!(root.get(i), 0);
    }
    let a = FrameAllocator::init(BASE, 1);
    assert!(asp.walk(&a, VAddr::new(0x2000)).is_none());
}

#[test]
fn default_address_space_is_empty() {
    let asp = AddrSpaceHandle::default();
    let root = asp.get_ptr();
    for i in 0..512 {
        assert_eq!(root.get(i), 0);
    }
}

#[test]
fn map_round_trip_yields_leaf_with_address_and_permissions() {
    let mut a = FrameAllocator::init(BASE, 8);
    let mut asp = AddrSpaceHandle::null();
    let flags = EntryFlags::new(FLAG_RW);
    asp.map(&mut a, VAddr::new(0x4000_2000), PAddr::new(0x7000), flags).unwrap();
    let leaf = asp.walk(&a, VAddr::new(0x4000_2000)).unwrap();
    assert!(leaf.is_valid());
    assert!(!leaf.is_branch());
    assert_eq!(leaf.as_address().0, 0x7000);
    assert_eq!(leaf.flags(), FLAG_RW | FLAG_V);
    // a neighbouring page is not mapped
    assert!(asp.walk(&a, VAddr::new(0x4000_3000)).is_none());
}

#[test]
fn map_consumes_up_to_two_table_frames_per_call() {
    let mut a = FrameAllocator::init(BASE, 8);
    let mut asp = AddrSpaceHandle::null();
    let flags = EntryFlags::new(FLAG_RW);
    assert_eq!(a.free_count(), 8);
    // first mapping: level-1 and level-0 tables are both missing
    asp.map(&mut a, VAddr::new(0x2000), PAddr::new(0x3000), flags).unwrap();
    assert_eq!(a.free_count(), 6);
    // same level-0 table: no new frame
    asp.map(&mut a, VAddr::new(0x3000), PAddr::new(0x4000), flags).unwrap();
    assert_eq!(a.free_count(), 6);
    // a fresh VPN2 slot: a new level-1 table and a new level-0 table
    asp.map(&mut a, VAddr::new(0x4000_0000), PAddr::new(0x5000), flags).unwrap();
    assert_eq!(a.free_count(), 4);
}

#[test]
fn map_overwrites_an_existing_mapping_silently() {
    let mut a = FrameAllocator::init(BASE, 8);
    let mut asp = AddrSpaceHandle::null();
    let flags = EntryFlags::new(FLAG_RW);
    asp.map(&mut a, VAddr::new(0x2000), PAddr::new(0x3000), flags).unwrap();
    asp.map(&mut a, VAddr::new(0x2000), PAddr::new(0x9000), EntryFlags::new(FLAG_RX)).unwrap();
    let leaf = asp.walk(&a, VAddr::new(0x2000)).unwrap();
    assert_eq!(leaf.as_address().0, 0x9000);
    assert_eq!(leaf.flags(), FLAG_RX | FLAG_V);
}

#[test]
fn map_rejects_permissionless_leaf() {
    let mut a = FrameAllocator::init(BASE, 8);
    let mut asp = AddrSpaceHandle::null();
    let r = asp.map(&mut a, VAddr::new(0x2000), PAddr::new(0x3000), EntryFlags::new(0));
    assert_eq!(r.err().unwrap(), MemError::NoLeafPerm);
    // nothing was allocated
    assert_eq!(a.free_count(), 8);
}

#[test]
fn map_reports_exhaustion_before_mutating() {
    let mut a = FrameAllocator::init(BASE, 1);
    let mut asp = AddrSpaceHandle::null();
    let flags = EntryFlags::new(FLAG_RW);
    // a fresh path needs two table frames; only one is free
    let r = asp.map(&mut a, VAddr::new(0x2000), PAddr::new(0x3000), flags);
    assert_eq!(r.err().unwrap(), MemError::Exhausted);
    assert_eq!(a.free_count(), 1);
    assert!(asp.walk(&a, VAddr::new(0x2000)).is_none());
}

#[test]
fn id_map_range_covers_every_page() {
    let mut a = FrameAllocator::init(BASE, 16);
    let mut asp = AddrSpaceHandle::null();
    let flags = EntryFlags::new(FLAG_RW);
    id_map_range(&mut asp, &mut a, 0x4000, 0x8000, flags).unwrap();
    for va in [0x4000u64, 0x5000, 0x6000, 0x7000] {
        let leaf = asp.walk(&a, VAddr::new(va)).unwrap();
        assert_eq!(leaf.as_address().0, va);
        assert_eq!(leaf.flags(), FLAG_RW | FLAG_V);
    }
    // the bounds are exclusive on the right, and nothing below is touched
    assert!(asp.walk(&a, VAddr::new(0x8000)).is_none());
    assert!(asp.walk(&a, VAddr::new(0x3000)).is_none());
}

#[test]
fn id_map_range_empty_range_maps_nothing() {
    let mut a = FrameAllocator::init(BASE, 4);
    let mut asp = AddrSpaceHandle::null();
    id_map_range(&mut asp, &mut a, 0x4000, 0x4000, EntryFlags::new(FLAG_R)).unwrap();
    assert_eq!(a.free_count(), 4);
    assert!(asp.walk(&a, VAddr::new(0x4000)).is_none());
}

#[test]
fn id_map_range_reports_exhaustion() {
    let mut a = FrameAllocator::init(BASE, 1);
    let mut asp = AddrSpaceHandle::null();
    let r = id_map_range(&mut asp, &mut a, 0x4000, 0x10_0000, EntryFlags::new(FLAG_RW));
    assert_eq!(r.err().unwrap(), MemError::Exhausted);
}

#[test]
fn teardown_returns_exactly_the_branch_frames() {
    let mut a = FrameAllocator::init(BASE, 8);
    let mut asp = AddrSpaceHandle::null();
    let flags = EntryFlags::new(FLAG_RW);
    // the test's own page, standing for leaf-mapped memory
    let page = a.zalloc().ok().unwrap();
    let page_idx = ((page.0 - BASE) / 4096) as usize;
    asp.map(&mut a, VAddr::new(0x2000), PAddr::new(page.0), flags).unwrap();
    // a second page under a different VPN2, so a second level-1 table
    asp.map(&mut a, VAddr::new(0x4000_0000), PAddr::new(0x5000), flags).unwrap();
    let before = a.free_count();
    let freed = asp.teardown(&mut a);
    assert_eq!(a.free_count(), before + freed);
    // the leaf target page is still allocated, not on the free list
    assert!(!a.is_free[page_idx]);
    // the address space is empty again
    assert!(asp.walk(&a, VAddr::new(0x2000)).is_none());
    for i in 0..512 {
        assert_eq!(asp.get_ptr().get(i), 0);
    }
    // each mapping built one level-1 and one level-0 table
    assert_eq!(freed, 4);
}

#[test]
fn teardown_of_empty_space_frees_nothing() {
    let mut a = FrameAllocator::init(BASE, 4);
    let mut asp = AddrSpaceHandle::null();
    assert_eq!(asp.teardown(&mut a), 0);
    assert_eq!(a.free_count(), 4);
}

#[test]
fn boot_scenario_with_four_frames() {
    // arena of 4 frames based where the scenario's physical page lives
    let mut a = FrameAllocator::init(0x3000, 4);
    // one zalloc: frame 0, every word zero
    let page = a.zalloc().ok().unwrap();
    assert_eq!(page.0, 0x3000);
    for w in 0..512 {
        assert_eq!(a.read_word(0, w), 0);
    }
    // map virtual 0x2000 to physical 0x3000, read+write
    let mut asp = AddrSpaceHandle::null();
    asp.map(&mut a, VAddr::new(0x2000), PAddr::new(0x3000), EntryFlags::new(FLAG_RW)).unwrap();
    // walk by the VPN fields of 0x2000: a leaf back to 0x3000, V|R|W
    let leaf = asp.walk(&a, VAddr::new(0x2000)).unwrap();
    assert_eq!(leaf.as_address().0, 0x3000);
    assert_eq!(leaf.flags(), FLAG_V | FLAG_R | FLAG_W);
    // teardown: the two branch tables come back; the frame still in use as
    // the test's own leaf-holding page does not
    let freed = asp.teardown(&mut a);
    assert_eq!(freed, 2);
    assert_eq!(a.free_count(), 4 - 1);
    assert!(!a.is_free[0]);
}

#[test]
fn map_forces_the_validity_bit() {
    let mut a = FrameAllocator::init(BASE, 8);
    let mut asp = AddrSpaceHandle::null();
    // V clear in the request: the installed leaf still carries it
    asp.map(&mut a, VAddr::new(0x2000), PAddr::new(0x3000), EntryFlags::new(FLAG_RW)).unwrap();
    assert_eq!(asp.walk(&a, VAddr::new(0x2000)).unwrap().flags(), FLAG_RW | FLAG_V);
    // V already set in the request: same result
    asp.map(&mut a, VAddr::new(0x3000), PAddr::new(0x4000), EntryFlags::new(FLAG_RW | FLAG_V))
        .unwrap();
    assert_eq!(asp.walk(&a, VAddr::new(0x3000)).unwrap().flags(), FLAG_RW | FLAG_V);
}

#[test]
fn walk_misses_unmapped_slots_of_a_built_path() {
    let mut a = FrameAllocator::init(BASE, 8);
    let mut asp = AddrSpaceHandle::null();
    asp.map(&mut a, VAddr::new(0x2000), PAddr::new(0x3000), EntryFlags::new(FLAG_RW)).unwrap();
    // same level-0 table, different VPN0: invalid entry, no translation
    assert!(asp.walk(&a, VAddr::new(0x0)).is_none());
    assert!(asp.walk(&a, VAddr::new(0x1000)).is_none());
    // same root, different VPN1: branch missing at level 1
    assert!(asp.walk(&a, VAddr::new(0x20_0000)).is_none());
}
