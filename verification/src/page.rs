use vstd::prelude::*;

verus! {

/// Size of a page frame in bytes.
pub const PAGE_SIZE: u32 = 0x1000;

/// Number of entries in a page table or a page directory.
pub const ENTRIES: u32 = 1024;

/// Bytes mapped by one page-directory entry: a whole page table.
pub const TABLE_SPAN: u32 = 0x40_0000;

/// The low bits of an entry that hold flags; the others hold a frame address.
pub const FLAG_MASK: u32 = 0xFFF;

/// The bits of an entry that hold the frame address.
pub const ADDR_MASK: u32 = 0xFFFF_F000;

/// Flags of a page-table or page-directory entry.
#[derive(Clone, Copy, Debug, PartialEq, Eq, Structural)]
pub struct Flags(pub u32);

/// The entry maps something.
pub const PRESENT_BIT: u32 = 1;

/// Writes are allowed.
pub const RW_BIT: u32 = 2;

/// User-mode accesses are allowed.
pub const USER_BIT: u32 = 4;

/// Set by the processor when the entry is used.
pub const ACCESSED_BIT: u32 = 0x20;

/// The directory entry maps a 4 MiB page.
pub const HUGE_BIT: u32 = 0x80;

impl Flags {
    /// No flag set.
    pub fn zero() -> (f: Flags)
        ensures
            f.0 == 0,
    {
        Flags(0)
    }

    pub fn present() -> (f: Flags)
        ensures
            f.0 == PRESENT_BIT,
    {
        Flags(PRESENT_BIT)
    }

    pub fn rw() -> (f: Flags)
        ensures
            f.0 == RW_BIT,
    {
        Flags(RW_BIT)
    }

    pub fn user() -> (f: Flags)
        ensures
            f.0 == USER_BIT,
    {
        Flags(USER_BIT)
    }

    pub fn accessed() -> (f: Flags)
        ensures
            f.0 == ACCESSED_BIT,
    {
        Flags(ACCESSED_BIT)
    }

    pub fn huge() -> (f: Flags)
        ensures
            f.0 == HUGE_BIT,
    {
        Flags(HUGE_BIT)
    }

    /// The flags set in either operand.
    pub fn union(self, other: Flags) -> (f: Flags)
        ensures
            f.0 == self.0 | other.0,
    {
        Flags(self.0 | other.0)
    }
}

/// An entry of a page table or a page directory: a frame address in the high
/// 20 bits, flags in the low 12.
#[derive(Clone, Copy, Debug, PartialEq, Eq, Structural)]
pub struct Page(pub u32);

/// Whether the entry `e` has its present bit set.
pub open spec fn is_present(e: u32) -> bool {
    e & PRESENT_BIT != 0
}

/// The frame address held by the entry `e`.
pub open spec fn frame_of(e: u32) -> u32 {
    e & ADDR_MASK
}

/// The entry for frame number `i` with `flags` (the frame address wraps
/// around at 4 GiB).
pub open spec fn frame_entry(i: u32, flags: u32) -> u32 {
    vstd::wrapping::u32_specs::wrapping_mul(i, PAGE_SIZE) | flags
}

impl Page {
    /// The entry that refers to the frame at `addr` with `flags`.
    pub fn new(addr: u32, flags: Flags) -> (p: Page)
        ensures
            p.0 == addr | flags.0,
    {
        Page(addr).bitor(flags)
    }

    /// The entry that refers to frame number `i` with `flags`.
    pub fn at_frame(i: u32, flags: Flags) -> (p: Page)
        ensures
            p.0 == frame_entry(i, flags.0),
    {
        Page(i.wrapping_mul(PAGE_SIZE)).bitor(flags)
    }

    /// The frame address that the entry refers to.
    pub fn physical(&self) -> (a: u32)
        ensures
            a == frame_of(self.0),
    {
        self.0 & ADDR_MASK
    }

    /// Whether the entry is present.
    pub fn present(self) -> (b: bool)
        ensures
            b == is_present(self.0),
    {
        self.bitand(Flags(PRESENT_BIT))
    }

    /// The entry with `other` added to its flags.
    pub fn bitor(self, other: Flags) -> (p: Page)
        ensures
            p.0 == self.0 | other.0,
    {
        Page(self.0 | other.0)
    }

    /// Whether the entry has any of the flags of `other`.
    pub fn bitand(self, other: Flags) -> (b: bool)
        ensures
            b == (self.0 & other.0 != 0),
    {
        self.0 & other.0 != 0
    }
}

/// An entry made from a page-aligned frame address and flags that fit in the
/// low 12 bits gives back that frame address and those flags, and it is
/// present exactly when the flags hold the present bit.
pub proof fn lemma_entry_round_trip(addr: u32, flags: u32)
    requires
        addr % PAGE_SIZE == 0,
        flags <= FLAG_MASK,
    ensures
        frame_of(addr | flags) == addr,
        (addr | flags) & FLAG_MASK == flags,
        is_present(addr | flags) == (flags & PRESENT_BIT != 0),
{
    assert((addr | flags) & 0xFFFF_F000u32 == addr && (addr | flags) & 0xFFFu32 == flags && (
    (addr | flags) & 1u32 != 0) == (flags & 1u32 != 0)) by (bit_vector)
        requires
            addr % 0x1000u32 == 0,
            flags <= 0xFFFu32,
    ;
}

/// The entry for frame number `i` refers to the frame at `i * PAGE_SIZE`.
pub proof fn lemma_frame_entry(i: u32, flags: u32)
    requires
        i < 0x10_0000,
        flags <= FLAG_MASK,
    ensures
        frame_of(frame_entry(i, flags)) == i * PAGE_SIZE,
        is_present(frame_entry(i, flags)) == (flags & PRESENT_BIT != 0),
{
    let a = vstd::wrapping::u32_specs::wrapping_mul(i, PAGE_SIZE);
    assert(i * 4096 < 0x1_0000_0000) by (nonlinear_arith)
        requires
            i < 0x10_0000,
    ;
    assert((i * 4096) % 0x1_0000_0000 == i * 4096) by (nonlinear_arith)
        requires
            0 <= i * 4096 < 0x1_0000_0000,
    ;
    assert(a == i * 4096);
    assert(a % 4096 == 0);
    lemma_entry_round_trip(a, flags);
}

} // verus!
