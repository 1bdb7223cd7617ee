//! Page-table entries: one machine word holding a validity bit, permission
//! bits, and a physical page number packed into the high bits.
//!
//! A valid entry is either a *branch* (none of R/W/X set; its page number
//! names the frame of the next-level table) or a *leaf* (at least one of
//! R/W/X set; its page number names the mapped physical frame).  The stored
//! page number sits at bit 10, i.e. it is the physical address shifted right
//! by 12 and the whole entry is the address shifted right by 2 plus the low
//! flag bits; reconstructing the address clears the low 12 bits.

use vstd::prelude::*;

verus! {

/// Validity bit: an entry with this bit clear carries no meaning.
pub const FLAG_V: u8 = 1;
/// Readable.
pub const FLAG_R: u8 = 2;
/// Writable.
pub const FLAG_W: u8 = 4;
/// Executable.
pub const FLAG_X: u8 = 8;
/// User-accessible.
pub const FLAG_U: u8 = 16;
/// Global mapping.
pub const FLAG_G: u8 = 32;
/// Accessed.
pub const FLAG_A: u8 = 64;
/// Dirty.
pub const FLAG_D: u8 = 128;
/// Readable and writable.
pub const FLAG_RW: u8 = 6;
/// Readable and executable.
pub const FLAG_RX: u8 = 10;
/// Readable, writable and executable.
pub const FLAG_RWX: u8 = 14;

/// Entries no larger than this reconstruct their address without overflow;
/// every entry this crate writes stays well below it.
pub const ENTRY_BOUND: u64 = 0x4000_0000_0000_0000;

/// The permission-bit set handed to the mapping operation.
#[derive(Clone, Copy, PartialEq, Eq, Structural)]
pub struct EntryFlags {
    pub bits: u8,
}

impl EntryFlags {
    pub fn new(bits: u8) -> (r: Self)
        ensures
            r.bits == bits,
    {
        Self { bits }
    }

    /// At least one of R/W/X is set, so a leaf built from these flags is a
    /// leaf and not mistaken for a branch.
    pub open spec fn spec_has_rwx(self) -> bool {
        (self.bits as int / 2) % 8 != 0
    }

    pub fn has_rwx(&self) -> (r: bool)
        ensures
            r == self.spec_has_rwx(),
    {
        (self.bits / 2) % 8 != 0
    }
}

/// Flag bits with the validity bit forced set.
pub open spec fn spec_with_valid(bits: u8) -> u8 {
    if bits % 2 == 1 {
        bits
    } else {
        (bits + 1) as u8
    }
}

/// The validity bit (bit 0) is set.
pub open spec fn entry_is_valid(e: u64) -> bool {
    e % 2 == 1
}

/// All of R/W/X (bits 1..3) are clear.
pub open spec fn entry_rwx_clear(e: u64) -> bool {
    (e as int / 2) % 8 == 0
}

/// Valid and pointing at a next-level table.
pub open spec fn entry_is_branch(e: u64) -> bool {
    entry_is_valid(e) && entry_rwx_clear(e)
}

/// Valid and terminal: at least one permission bit set.
pub open spec fn entry_is_leaf(e: u64) -> bool {
    entry_is_valid(e) && !entry_rwx_clear(e)
}

/// The physical address an entry names: the entry shifted left by 2 with the
/// low 12 bits cleared.
pub open spec fn entry_target(e: u64) -> int {
    (e as int / 1024) * 4096
}

/// The low 8 flag bits of an entry.
pub open spec fn entry_flag_bits(e: u64) -> u8 {
    (e % 256) as u8
}

/// The branch entry naming a page-aligned table address: the address shifted
/// right by 2, validity set.
pub open spec fn spec_branch_entry(addr: u64) -> u64 {
    (addr as int / 4 + 1) as u64
}

/// The leaf entry mapping to a physical address with the given flag bits:
/// the page number at bit 10, flags (validity forced) below.
pub open spec fn spec_leaf_entry(pa: u64, bits: u8) -> u64 {
    ((pa as int / 4096) * 1024 + spec_with_valid(bits)) as u64
}

/// A branch entry for an aligned in-range address is a branch and names that
/// same address back.
pub proof fn lemma_branch_entry(addr: u64)
    requires
        addr % 4096 == 0,
    ensures
        spec_branch_entry(addr) < ENTRY_BOUND,
        entry_is_branch(spec_branch_entry(addr)),
        !entry_is_leaf(spec_branch_entry(addr)),
        entry_target(spec_branch_entry(addr)) == addr,
{
    let m = addr as int / 4096;
    assert(addr == 4096 * m) by {
        lemma_div_exact_mul(addr as int, 4096);
    }
    let e = 1024 * m + 1;
    assert(addr as int / 4 == 1024 * m) by (nonlinear_arith)
        requires
            addr == 4096 * m,
            m >= 0,
    ;
    assert(spec_branch_entry(addr) == e);
    assert(e % 2 == 1 && (e / 2) % 8 == 0 && e / 1024 == m) by (nonlinear_arith)
        requires
            e == 1024 * m + 1,
            m >= 0,
    ;
    assert(entry_target(e as u64) == 1024 * m * 4);
    assert(1024 * m * 4 == 4096 * m) by (nonlinear_arith);
}

/// A leaf entry built from a bounded physical address and RWX-bearing flags
/// is a leaf; it reconstructs the address rounded down to its page, and its
/// low bits are exactly the flags with validity set.
pub proof fn lemma_leaf_entry(pa: u64, bits: u8)
    requires
        pa < 0x100_0000_0000_0000,
        (bits as int / 2) % 8 != 0,
    ensures
        spec_leaf_entry(pa, bits) < ENTRY_BOUND,
        entry_is_leaf(spec_leaf_entry(pa, bits)),
        !entry_is_branch(spec_leaf_entry(pa, bits)),
        entry_target(spec_leaf_entry(pa, bits)) == (pa as int / 4096) * 4096,
        entry_flag_bits(spec_leaf_entry(pa, bits)) == spec_with_valid(bits),
{
    let q = pa as int / 4096;
    let w = spec_with_valid(bits) as int;
    let e = 1024 * q + w;
    assert(0 <= q < 0x10_0000_0000_0000) by (nonlinear_arith)
        requires
            0 <= pa < 0x100_0000_0000_0000,
            q == pa as int / 4096,
    ;
    assert(spec_leaf_entry(pa, bits) == e);
    assert(w % 2 == 1 && 1 <= w < 256 && (w / 2) % 8 == (bits as int / 2) % 8);
    assert(e % 2 == 1 && (e / 2) % 8 == (w / 2) % 8 && e / 1024 == q && e % 256 == w)
        by (nonlinear_arith)
        requires
            e == 1024 * q + w,
            q >= 0,
            w % 2 == 1,
            1 <= w < 256,
    ;
    assert(entry_target(e as u64) == q * 4 * 1024);
    assert(q * 4 * 1024 == q * 4096) by (nonlinear_arith);
}

/// Division by a positive divisor with remainder zero is exact.
proof fn lemma_div_exact_mul(x: int, d: int)
    requires
        d > 0,
        x >= 0,
        x % d == 0,
    ensures
        x == d * (x / d),
{
    vstd::arithmetic::div_mod::lemma_fundamental_div_mod(x, d);
}

/// A page-table entry as read back from a table.
#[derive(Clone, Copy, PartialEq, Eq, Structural)]
pub struct Entry(pub u64);

impl Entry {
    pub fn new(inner: u64) -> (r: Self)
        ensures
            r.0 == inner,
    {
        Self(inner)
    }

    /// The validity bit is set; a clear bit makes every other field
    /// meaningless.
    pub fn is_valid(&self) -> (r: bool)
        ensures
            r == entry_is_valid(self.0),
    {
        self.0 % 2 == 1
    }

    /// All of R/W/X are clear.  Classification pairs this with `is_valid`:
    /// a valid entry with the permission bits clear points at the next-level
    /// table, a valid entry with any of them set is a terminal leaf.
    pub fn is_branch(&self) -> (r: bool)
        ensures
            r == entry_rwx_clear(self.0),
    {
        (self.0 / 2) % 8 == 0
    }

    /// The physical address this entry names.  The bound keeps the
    /// reconstruction free of overflow; every entry a well-formed table
    /// holds satisfies it.
    pub fn as_address(&self) -> (r: crate::addr::PAddr)
        requires
            self.0 < ENTRY_BOUND,
        ensures
            r.0 == entry_target(self.0),
    {
        crate::addr::PAddr::new((self.0 / 1024) * 4096)
    }

    /// The low 8 flag bits.
    pub fn flags(&self) -> (r: u8)
        ensures
            r == entry_flag_bits(self.0),
    {
        (self.0 % 256) as u8
    }
}

} // verus!
