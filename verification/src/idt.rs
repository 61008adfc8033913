use vstd::prelude::*;

verus! {

/// Type and presence flags of an interrupt-descriptor-table entry.
#[derive(Clone, Copy, Debug, PartialEq, Eq, Structural)]
pub struct IdtFlags(pub u8);

/// A 32-bit interrupt gate.
pub const INTR_GATE: u8 = 0b1110;

/// A 32-bit trap gate.
pub const TRAP_GATE: u8 = 0b1111;

/// The entry is present.
pub const PRESENT: u8 = 1 << 7;

impl IdtFlags {
    pub fn intr_gate() -> (f: IdtFlags)
        ensures
            f.0 == INTR_GATE,
    {
        IdtFlags(INTR_GATE)
    }

    pub fn trap_gate() -> (f: IdtFlags)
        ensures
            f.0 == TRAP_GATE,
    {
        IdtFlags(TRAP_GATE)
    }

    pub fn present() -> (f: IdtFlags)
        ensures
            f.0 == PRESENT,
    {
        IdtFlags(PRESENT)
    }

    /// The flags set in either operand.
    pub fn union(self, other: IdtFlags) -> (f: IdtFlags)
        ensures
            f.0 == self.0 | other.0,
    {
        IdtFlags(self.0 | other.0)
    }
}

/// An entry of the interrupt descriptor table: the handler's address split in
/// two halves, the code-segment selector, a zero byte and the flags. Its
/// eight bytes in memory are given by `to_bytes`.
#[derive(Clone, Copy, Debug, PartialEq, Eq, Structural)]
pub struct IdtEntry {
    pub addr_lo: u16,
    pub sel: u16,
    pub zero: u8,
    pub flags: IdtFlags,
    pub addr_hi: u16,
}

/// The handler address that an entry with halves `hi` and `lo` points to.
pub open spec fn handler_of(hi: u16, lo: u16) -> u32 {
    ((hi as u32) << 16u32) | (lo as u32)
}

impl IdtEntry {
    /// The entry for the handler at address `func`, run with the code segment
    /// `sel`.
    pub fn new(func: u32, sel: u16, flags: IdtFlags) -> (e: IdtEntry)
        ensures
            e.addr_lo == func & 0xFFFF,
            e.addr_hi == (func & 0xFFFF_0000) >> 16u32,
            e.sel == sel,
            e.zero == 0,
            e.flags == flags,
    {
        let addr: u32 = func;
        let (addr_hi, addr_lo) = ((addr & 0xFFFF_0000) >> 16u32, addr & 0xFFFF);
        assert(((addr & 0xFFFF_0000) >> 16u32) <= 0xFFFF) by (bit_vector);
        assert(addr & 0xFFFF <= 0xFFFF) by (bit_vector);
        IdtEntry { addr_lo: addr_lo as u16, addr_hi: addr_hi as u16, sel: sel, zero: 0, flags: flags }
    }

    /// The entry as eight bytes, lowest address first.
    pub fn to_bytes(&self) -> (b: [u8; 8])
        ensures
            b@ == seq![
                (self.addr_lo & 0xFF) as u8,
                (self.addr_lo >> 8u16) as u8,
                (self.sel & 0xFF) as u8,
                (self.sel >> 8u16) as u8,
                self.zero,
                self.flags.0,
                (self.addr_hi & 0xFF) as u8,
                (self.addr_hi >> 8u16) as u8,
            ],
    {
        let b = [
            (self.addr_lo & 0xFF) as u8,
            (self.addr_lo >> 8u16) as u8,
            (self.sel & 0xFF) as u8,
            (self.sel >> 8u16) as u8,
            self.zero,
            self.flags.0,
            (self.addr_hi & 0xFF) as u8,
            (self.addr_hi >> 8u16) as u8,
        ];
        assert(b@ =~= seq![
            (self.addr_lo & 0xFF) as u8,
            (self.addr_lo >> 8u16) as u8,
            (self.sel & 0xFF) as u8,
            (self.sel >> 8u16) as u8,
            self.zero,
            self.flags.0,
            (self.addr_hi & 0xFF) as u8,
            (self.addr_hi >> 8u16) as u8,
        ]);
        b
    }

    /// The address of the handler that the entry points to.
    pub fn handler(&self) -> (a: u32)
        ensures
            a == handler_of(self.addr_hi, self.addr_lo),
    {
        ((self.addr_hi as u32) << 16u32) | (self.addr_lo as u32)
    }
}

/// An entry made for a handler points to that handler.
pub proof fn lemma_new_keeps_handler(func: u32)
    ensures
        handler_of(
            ((func & 0xFFFF_0000) >> 16u32) as u16,
            (func & 0xFFFF) as u16,
        ) == func,
{
    assert(((((((func & 0xFFFF_0000) >> 16u32) as u16) as u32) << 16u32) | (((func & 0xFFFF) as u16) as u32)) == func)
        by (bit_vector);
}

} // verus!
