//! Physical and virtual addresses and their Sv39 decomposition.
//!
//! An address splits into a 12-bit page offset and three page-number fields,
//! 9 bits each for the virtual side (VPN0..VPN2) and, on the physical side,
//! 9 + 9 + 26 bits (PPN0..PPN2), the top field wider so that the whole
//! physical range is covered.  Addresses are 64-bit machine words.

use vstd::prelude::*;

verus! {

/// Size in bytes of one frame of physical memory and of one virtual page.
pub const PAGE_SIZE: u64 = 4096;

/// Number of entries (machine words) in one translation table; a table
/// occupies exactly one frame.
pub const TABLE_LEN: usize = 512;

/// VPN0 of a virtual address: bits 20..12.
pub open spec fn spec_vpn0(va: u64) -> int {
    (va as int / 0x1000) % 512
}

/// VPN1 of a virtual address: bits 29..21.
pub open spec fn spec_vpn1(va: u64) -> int {
    (va as int / 0x200000) % 512
}

/// VPN2 of a virtual address: bits 38..30.
pub open spec fn spec_vpn2(va: u64) -> int {
    (va as int / 0x40000000) % 512
}

/// PPN0 of a physical address: bits 20..12.
pub open spec fn spec_ppn0(pa: u64) -> int {
    (pa as int / 0x1000) % 512
}

/// PPN1 of a physical address: bits 29..21.
pub open spec fn spec_ppn1(pa: u64) -> int {
    (pa as int / 0x200000) % 512
}

/// PPN2 of a physical address: bits 55..30.
pub open spec fn spec_ppn2(pa: u64) -> int {
    (pa as int / 0x40000000) % 0x4000000
}

/// A virtual address: an opaque machine word until decomposed.
#[derive(Clone, Copy)]
pub struct VAddr(pub u64);

impl VAddr {
    pub fn new(inner: u64) -> (r: Self)
        ensures
            r.0 == inner,
    {
        Self(inner)
    }

    /// The three virtual page numbers, lowest level first.
    pub fn vpn(&self) -> (r: [usize; 3])
        ensures
            r[0] == spec_vpn0(self.0),
            r[1] == spec_vpn1(self.0),
            r[2] == spec_vpn2(self.0),
    {
        [
            // VPN[0] = vaddr[20:12]
            ((self.0 / 0x1000) % 512) as usize,
            // VPN[1] = vaddr[29:21]
            ((self.0 / 0x200000) % 512) as usize,
            // VPN[2] = vaddr[38:30]
            ((self.0 / 0x40000000) % 512) as usize,
        ]
    }
}

/// A physical address: an opaque machine word until decomposed.
#[derive(Clone, Copy)]
pub struct PAddr(pub u64);

impl PAddr {
    pub fn new(inner: u64) -> (r: Self)
        ensures
            r.0 == inner,
    {
        Self(inner)
    }

    /// The three physical page numbers, lowest level first.
    pub fn ppn(&self) -> (r: [u64; 3])
        ensures
            r[0] == spec_ppn0(self.0),
            r[1] == spec_ppn1(self.0),
            r[2] == spec_ppn2(self.0),
    {
        [
            // PPN[0] = paddr[20:12]
            (self.0 / 0x1000) % 512,
            // PPN[1] = paddr[29:21]
            (self.0 / 0x200000) % 512,
            // PPN[2] = paddr[55:30]
            (self.0 / 0x40000000) % 0x4000000,
        ]
    }
}

} // verus!
