use vstd::prelude::*;
use crate::exception::{fault_code, Fault};
use crate::page::{
    frame_entry, frame_of, is_present, Flags, Page, ADDR_MASK, ENTRIES, FLAG_MASK, PAGE_SIZE,
    PRESENT_BIT, RW_BIT, TABLE_SPAN, USER_BIT,
};

verus! {

// Physical memory is modelled as 32-bit words: the word at byte address `a`
// (a multiple of four) is `mem[a / 4]`. A table (page table or page
// directory) is a page-aligned frame of `ENTRIES` words.

/// The virtual address at which the current page directory maps itself.
pub const DIR_VADDR: u32 = 0xFFFF_F000;

/// A virtual page used for a moment to reach a fresh page directory.
pub const TEMP1: u32 = 0xFF7F_F000;

/// The paging bit of `CR0`.
pub const CR0_PG: u32 = 0x8000_0000;

/// The end of the user part of the address space: directory entries below
/// it are copied when a directory is cloned.
pub const USER_END: u32 = 0xC000_0000;

/// The frame at byte address `a` lies in a memory of `len` words and is page
/// aligned.
pub open spec fn frame_fits(len: int, a: u32) -> bool {
    &&& a % PAGE_SIZE == 0
    &&& a / 4 + ENTRIES <= len
}

/// The word that holds the entry for `addr` in the table at `base`, each of
/// whose entries covers `span` bytes.
pub open spec fn slot(base: u32, span: u32, addr: u32) -> int {
    (base / 4) as int + ((addr / span) % ENTRIES) as int
}

/// Memory with the frame at `a` cleared.
pub open spec fn zero_frame(m: Seq<u32>, a: u32) -> Seq<u32> {
    Seq::new(m.len(), |i: int| if a / 4 <= i < a / 4 + ENTRIES { 0 } else { m[i] })
}

/// Memory after the page table at `base` is filled so that entry `i` maps
/// frame number `start + i` with `flags`.
pub open spec fn identity_spec(m: Seq<u32>, base: u32, start: u32, flags: u32) -> Seq<u32> {
    Seq::new(
        m.len(),
        |i: int|
            if base / 4 <= i < base / 4 + ENTRIES {
                frame_entry((start + (i - base / 4)) as u32, flags)
            } else {
                m[i]
            },
    )
}

/// A table: the byte address of its frame, and how many bytes each of its
/// entries maps (`PAGE_SIZE` for a page table, `TABLE_SPAN` for a page
/// directory).
#[derive(Clone, Copy, Debug, PartialEq, Eq, Structural)]
pub struct Table {
    pub base: u32,
    pub span: u32,
}

impl Table {
    /// A page-aligned table of one of the two kinds.
    pub open spec fn wf(&self) -> bool {
        &&& self.base % PAGE_SIZE == 0
        &&& (self.span == PAGE_SIZE || self.span == TABLE_SPAN)
    }

    /// The page table at `base`.
    pub fn page_table(base: u32) -> (t: Table)
        ensures
            t.base == base,
            t.span == PAGE_SIZE,
    {
        Table { base, span: PAGE_SIZE }
    }

    /// The page directory at `base`.
    pub fn page_directory(base: u32) -> (t: Table)
        ensures
            t.base == base,
            t.span == TABLE_SPAN,
    {
        Table { base, span: TABLE_SPAN }
    }

    /// Stores `page` as the entry for `addr`.
    pub fn set(&self, mem: &mut Vec<u32>, addr: u32, page: Page)
        requires
            self.wf(),
            frame_fits(old(mem).len() as int, self.base),
        ensures
            final(mem)@ == old(mem)@.update(slot(self.base, self.span, addr), page.0),
    {
        let index: u32 = (addr / self.span) % ENTRIES;
        mem[(self.base / 4) as usize + index as usize] = page.0;
    }

    /// The entry for `addr`.
    pub fn get(&self, mem: &Vec<u32>, addr: u32) -> (p: Page)
        requires
            self.wf(),
            frame_fits(mem.len() as int, self.base),
        ensures
            p.0 == mem@[slot(self.base, self.span, addr)],
    {
        let index: u32 = (addr / self.span) % ENTRIES;
        Page(mem[(self.base / 4) as usize + index as usize])
    }

    /// Fills the page table so that entry `i` maps frame number `start + i`
    /// with `flags`.
    fn identity_map(&self, mem: &mut Vec<u32>, start: u32, flags: Flags)
        requires
            self.wf(),
            self.span == PAGE_SIZE,
            frame_fits(old(mem).len() as int, self.base),
            start + ENTRIES - 1 <= u32::MAX,
        ensures
            final(mem)@ == identity_spec(old(mem)@, self.base, start, flags.0),
    {
        let ghost lo = self.base / 4;
        let mut i: u32 = 0;
        while i < ENTRIES
            invariant
                self.wf(),
                self.span == PAGE_SIZE,
                lo == self.base / 4,
                frame_fits(old(mem).len() as int, self.base),
                start + ENTRIES - 1 <= u32::MAX,
                i <= ENTRIES,
                mem@ == Seq::new(
                    old(mem)@.len(),
                    |j: int|
                        if lo <= j < lo + i {
                            frame_entry((start + (j - lo)) as u32, flags.0)
                        } else {
                            old(mem)@[j]
                        },
                ),
            decreases ENTRIES - i,
        {
            let page = Page::at_frame(start + i, flags);
            self.set(mem, i * PAGE_SIZE, page);
            assert(((i * PAGE_SIZE) as u32) / PAGE_SIZE == i) by (nonlinear_arith)
                requires
                    i < ENTRIES,
            ;
            i = i + 1;
            assert(mem@ =~= Seq::new(
                old(mem)@.len(),
                |j: int|
                    if lo <= j < lo + i {
                        frame_entry((start + (j - lo)) as u32, flags.0)
                    } else {
                        old(mem)@[j]
                    },
            ));
        }
        assert(mem@ =~= identity_spec(old(mem)@, self.base, start, flags.0));
    }
}

/// An operation on the processor that paging asks for. The operations are
/// recorded in `Machine::ops` in the order they are asked for, for the code
/// that drives the processor to carry out.
#[derive(Clone, Copy, Debug, PartialEq, Eq, Structural)]
pub enum HwOp {
    /// Invalidate the TLB entry of the page at this virtual address.
    FlushTlb(u32),
    /// Load `CR3` with this value.
    LoadCr3(u32),
    /// Load `CR0` with this value.
    LoadCr0(u32),
    /// Install the exception handler in the interrupt table for this vector,
    /// with this flag of the table's `set_isr`.
    InstallHandler(u8, bool),
}

/// The machine state that paging works on: physical memory, the frames that
/// are free to allocate (byte addresses; the last one is handed out first),
/// the control registers `CR3` (the current page directory) and `CR0`, and
/// the processor operations asked for so far.
pub struct Machine {
    pub mem: Vec<u32>,
    pub free: Vec<u32>,
    pub cr3: Page,
    pub cr0: u32,
    pub ops: Vec<HwOp>,
}

/// The entry `e`, if present, refers to a frame inside a memory of `len` words.
pub open spec fn entry_ok(len: int, e: u32) -> bool {
    is_present(e) ==> frame_fits(len, frame_of(e))
}

/// The directory at `d` lies in memory, and every present entry of it refers
/// to a frame in memory.
pub open spec fn dir_ok(mem: Seq<u32>, d: u32) -> bool {
    &&& frame_fits(mem.len() as int, d)
    &&& forall|i: int| d / 4 <= i < d / 4 + ENTRIES ==> #[trigger] entry_ok(mem.len() as int, mem[i])
}

/// Every free frame lies in a memory of `len` words.
pub open spec fn frames_fit(len: int, free: Seq<u32>) -> bool {
    forall|i: int| 0 <= i < free.len() ==> #[trigger] frame_fits(len, free[i])
}

/// The table that `fetch_table` returns, the memory after it, and the free
/// frames after it: the page table that the directory at `dir` holds for
/// `vptr` if its entry is present; otherwise the last free frame, cleared and
/// entered in the directory with `flags`.
pub open spec fn fetch_spec(mem: Seq<u32>, free: Seq<u32>, dir: u32, vptr: u32, flags: u32) -> (
    u32,
    Seq<u32>,
    Seq<u32>,
) {
    let e = mem[slot(dir, TABLE_SPAN, vptr)];
    if is_present(e) {
        (frame_of(e), mem, free)
    } else {
        let f = free.last();
        (f, zero_frame(mem, f).update(slot(dir, TABLE_SPAN, vptr), f | flags), free.drop_last())
    }
}

/// The memory and free frames after `set_page` maps `vptr` to the frame at
/// `phys` with `flags` through the directory at `dir`.
pub open spec fn set_page_spec(
    mem: Seq<u32>,
    free: Seq<u32>,
    dir: u32,
    vptr: u32,
    phys: u32,
    flags: u32,
) -> (Seq<u32>, Seq<u32>) {
    let (t, m1, f1) = fetch_spec(mem, free, dir, vptr, flags);
    (m1.update(slot(t, PAGE_SIZE, vptr), phys | flags), f1)
}

/// `set_page` through the directory at `dir` for `vptr` touches memory only
/// inside it: the directory is in memory, and so is the page table that its
/// entry for `vptr` refers to when that entry is present, or else the next
/// free frame, which becomes the page table.
pub open spec fn set_page_ok(mem: Seq<u32>, free: Seq<u32>, dir: u32, vptr: u32) -> bool {
    let e = mem[slot(dir, TABLE_SPAN, vptr)];
    &&& frame_fits(mem.len() as int, dir)
    &&& is_present(e) ==> frame_fits(mem.len() as int, frame_of(e))
    &&& !is_present(e) ==> free.len() > 0 && frame_fits(mem.len() as int, free.last())
}

proof fn lemma_slot_in_frame(base: u32, span: u32, addr: u32)
    requires
        span > 0,
    ensures
        base / 4 <= slot(base, span, addr) < base / 4 + ENTRIES,
{
}

/// Takes the next free frame.
fn alloc_frame(free: &mut Vec<u32>) -> (f: u32)
    requires
        old(free).len() > 0,
    ensures
        f == old(free)@.last(),
        final(free)@ == old(free)@.drop_last(),
{
    free.pop().unwrap()
}

/// Takes the next free frame and clears it.
fn zero_alloc_frame(m: &mut Machine) -> (f: u32)
    requires
        old(m).free.len() > 0,
        frame_fits(old(m).mem.len() as int, old(m).free@.last()),
    ensures
        f == old(m).free@.last(),
        final(m).free@ == old(m).free@.drop_last(),
        final(m).mem@ == zero_frame(old(m).mem@, f),
        final(m).cr3 == old(m).cr3,
        final(m).cr0 == old(m).cr0,
        final(m).ops@ == old(m).ops@,
{
    let f = alloc_frame(&mut m.free);
    let lo: usize = (f / 4) as usize;
    let mut i: usize = 0;
    while i < ENTRIES as usize
        invariant
            lo == f / 4,
            lo + ENTRIES <= m.mem.len(),
            m.free@ == old(m).free@.drop_last(),
            m.cr3 == old(m).cr3,
            m.cr0 == old(m).cr0,
            m.ops@ == old(m).ops@,
            m.mem@.len() == old(m).mem@.len(),
            i <= ENTRIES,
            m.mem@ == Seq::new(
                old(m).mem@.len(),
                |j: int| if lo <= j < lo + i { 0 } else { old(m).mem@[j] },
            ),
        decreases ENTRIES - i,
    {
        m.mem[lo + i] = 0;
        i = i + 1;
        assert(m.mem@ =~= Seq::new(
            old(m).mem@.len(),
            |j: int| if lo <= j < lo + i { 0 } else { old(m).mem@[j] },
        ));
    }
    assert(m.mem@ =~= zero_frame(old(m).mem@, f));
    f
}

/// Asks for the TLB entry of the page at `addr` to be invalidated.
fn flush_tlb(m: &mut Machine, addr: u32)
    ensures
        final(m).ops@ == old(m).ops@.push(HwOp::FlushTlb(addr)),
        final(m).mem@ == old(m).mem@,
        final(m).free@ == old(m).free@,
        final(m).cr3 == old(m).cr3,
        final(m).cr0 == old(m).cr0,
{
    m.ops.push(HwOp::FlushTlb(addr));
}

/// The operations that `fetch_table` asks for: the invalidation of `vptr`
/// when it enters a new page table in the directory.
pub open spec fn fetch_ops(mem: Seq<u32>, dir: u32, vptr: u32) -> Seq<HwOp> {
    if is_present(mem[slot(dir, TABLE_SPAN, vptr)]) {
        Seq::empty()
    } else {
        seq![HwOp::FlushTlb(vptr)]
    }
}

/// The operations that `set_page` asks for: those of `fetch_table`, then the
/// invalidation of `vptr` after the page-table entry is written.
pub open spec fn set_page_ops(mem: Seq<u32>, dir: u32, vptr: u32) -> Seq<HwOp> {
    fetch_ops(mem, dir, vptr).push(HwOp::FlushTlb(vptr))
}

impl Table {
    /// Enters the frame at `phys` with `flags` for `vaddr`, and asks for the
    /// TLB entry of `vaddr` to be invalidated.
    fn set_addr(&self, m: &mut Machine, vaddr: u32, phys: u32, flags: Flags)
        requires
            self.wf(),
            frame_fits(old(m).mem@.len() as int, self.base),
        ensures
            final(m).mem@ == old(m).mem@.update(slot(self.base, self.span, vaddr), phys | flags.0),
            final(m).ops@ == old(m).ops@.push(HwOp::FlushTlb(vaddr)),
            final(m).free@ == old(m).free@,
            final(m).cr3 == old(m).cr3,
            final(m).cr0 == old(m).cr0,
    {
        self.set(&mut m.mem, vaddr, Page::new(phys, flags));
        flush_tlb(m, vaddr);
    }

    /// The page table that this directory holds for `vptr`, made from a fresh
    /// cleared frame when the directory has none there.
    fn fetch_table(&self, m: &mut Machine, vptr: u32, flags: Flags) -> (t: Table)
        requires
            self.wf(),
            self.span == TABLE_SPAN,
            set_page_ok(old(m).mem@, old(m).free@, self.base, vptr),
        ensures
            t.span == PAGE_SIZE,
            final(m).mem@.len() == old(m).mem@.len(),
            t.base == fetch_spec(old(m).mem@, old(m).free@, self.base, vptr, flags.0).0,
            final(m).mem@ == fetch_spec(old(m).mem@, old(m).free@, self.base, vptr, flags.0).1,
            final(m).free@ == fetch_spec(old(m).mem@, old(m).free@, self.base, vptr, flags.0).2,
            final(m).ops@ == old(m).ops@ + fetch_ops(old(m).mem@, self.base, vptr),
            final(m).cr3 == old(m).cr3,
            final(m).cr0 == old(m).cr0,
    {
        let e = self.get(&m.mem, vptr);
        if e.present() {
            assert(m.ops@ =~= old(m).ops@ + fetch_ops(old(m).mem@, self.base, vptr));
            Table::page_table(e.physical())
        } else {
            let table = zero_alloc_frame(m);
            self.set_addr(m, vptr, table, flags);
            assert(m.ops@ =~= old(m).ops@ + fetch_ops(old(m).mem@, self.base, vptr));
            Table::page_table(table)
        }
    }

    /// Maps `vptr` to the frame at `phys` with `flags` through this
    /// directory, making the page table if there is none; returns `vptr`.
    pub fn set_page(&self, m: &mut Machine, vptr: u32, phys: u32, flags: Flags) -> (r: u32)
        requires
            self.wf(),
            self.span == TABLE_SPAN,
            set_page_ok(old(m).mem@, old(m).free@, self.base, vptr),
        ensures
            r == vptr,
            final(m).mem@.len() == old(m).mem@.len(),
            final(m).mem@ == set_page_spec(old(m).mem@, old(m).free@, self.base, vptr, phys, flags.0).0,
            final(m).free@ == set_page_spec(old(m).mem@, old(m).free@, self.base, vptr, phys, flags.0).1,
            final(m).ops@ == old(m).ops@ + set_page_ops(old(m).mem@, self.base, vptr),
            final(m).cr3 == old(m).cr3,
            final(m).cr0 == old(m).cr0,
    {
        let table = self.fetch_table(m, vptr, flags);
        table.set_addr(m, vptr, phys, flags);
        assert(m.ops@ =~= old(m).ops@ + set_page_ops(old(m).mem@, self.base, vptr));
        vptr
    }

    /// Maps `vptr` to the next free frame, with `flags` and the present bit.
    pub fn map_frame(&self, m: &mut Machine, vptr: u32, flags: Flags)
        requires
            self.wf(),
            self.span == TABLE_SPAN,
            old(m).free.len() > 0,
            set_page_ok(old(m).mem@, old(m).free@.drop_last(), self.base, vptr),
        ensures
            final(m).mem@ == set_page_spec(
                old(m).mem@,
                old(m).free@.drop_last(),
                self.base,
                vptr,
                old(m).free@.last(),
                flags.0 | PRESENT_BIT,
            ).0,
            final(m).free@ == set_page_spec(
                old(m).mem@,
                old(m).free@.drop_last(),
                self.base,
                vptr,
                old(m).free@.last(),
                flags.0 | PRESENT_BIT,
            ).1,
            final(m).ops@ == old(m).ops@ + set_page_ops(old(m).mem@, self.base, vptr),
            final(m).cr3 == old(m).cr3,
            final(m).cr0 == old(m).cr0,
    {
        let frame: u32 = alloc_frame(&mut m.free);
        self.set_page(m, vptr, frame, flags.union(Flags::present()));
    }
}

/// Reading an entry of a table after `set` gives the page stored when the
/// address falls on the same entry, and the old entry otherwise.
pub proof fn lemma_get_after_set(mem: Seq<u32>, t: Table, addr: u32, other: u32, page: Page)
    requires
        t.wf(),
        frame_fits(mem.len() as int, t.base),
    ensures
        mem.update(slot(t.base, t.span, addr), page.0)[slot(t.base, t.span, other)] == if (other
            / t.span) % ENTRIES == (addr / t.span) % ENTRIES {
            page.0
        } else {
            mem[slot(t.base, t.span, other)]
        },
{
    lemma_slot_in_frame(t.base, t.span, addr);
    lemma_slot_in_frame(t.base, t.span, other);
}

/// Where the directory at `dir` sends the virtual address `v`, walking the
/// two levels of tables (4 KiB pages only): the frame of the page-table entry
/// plus the offset of `v` within its page, or nothing when an entry on the way
/// is not present.
pub open spec fn translate(mem: Seq<u32>, dir: u32, v: u32) -> Option<int> {
    let pde = mem[slot(dir, TABLE_SPAN, v)];
    if !is_present(pde) {
        None
    } else {
        let pte = mem[slot(frame_of(pde), PAGE_SIZE, v)];
        if !is_present(pte) {
            None
        } else {
            Some(frame_of(pte) + v % PAGE_SIZE)
        }
    }
}

/// A word of one page-aligned frame lies outside any other such frame.
proof fn lemma_frames_disjoint(a: u32, b: u32, j: int)
    requires
        a % PAGE_SIZE == 0,
        b % PAGE_SIZE == 0,
        a != b,
        b / 4 <= j < b / 4 + ENTRIES,
    ensures
        !(a / 4 <= j < a / 4 + ENTRIES),
{
    assert(!(a / 4 <= j < a / 4 + 1024)) by (nonlinear_arith)
        requires
            a % 4096 == 0,
            b % 4096 == 0,
            a != b,
            b / 4 <= j < b / 4 + 1024,
    ;
}

/// A write of a good entry keeps every directory good.
proof fn lemma_update_keeps_dir_ok(mem: Seq<u32>, d: u32, j: int, w: u32)
    requires
        dir_ok(mem, d),
        0 <= j < mem.len(),
        entry_ok(mem.len() as int, w),
    ensures
        dir_ok(mem.update(j, w), d),
{
    let m2 = mem.update(j, w);
    assert forall|i: int| d / 4 <= i < d / 4 + ENTRIES implies #[trigger] entry_ok(
        m2.len() as int,
        m2[i],
    ) by {
        if i != j {
            assert(entry_ok(mem.len() as int, mem[i]));
        }
    }
}

/// Clearing a frame keeps every directory good.
proof fn lemma_zero_keeps_dir_ok(mem: Seq<u32>, d: u32, f: u32)
    requires
        dir_ok(mem, d),
    ensures
        dir_ok(zero_frame(mem, f), d),
{
    let m2 = zero_frame(mem, f);
    assert forall|i: int| d / 4 <= i < d / 4 + ENTRIES implies #[trigger] entry_ok(
        m2.len() as int,
        m2[i],
    ) by {
        if f / 4 <= i < f / 4 + ENTRIES {
            assert(!is_present(0u32)) by (bit_vector);
        } else {
            assert(entry_ok(mem.len() as int, mem[i]));
        }
    }
}

/// An entry made of a frame in memory and flags in the low bits is good.
proof fn lemma_entry_ok_of(len: int, f: u32, flags: u32)
    requires
        frame_fits(len, f),
        flags <= FLAG_MASK,
    ensures
        entry_ok(len, f | flags),
{
    crate::page::lemma_entry_round_trip(f, flags);
}

/// `set_page` keeps every directory good and the free frames in memory, as
/// long as the frame it maps is in memory or the flags leave it not present.
pub proof fn lemma_set_page_keeps_ok(
    mem: Seq<u32>,
    free: Seq<u32>,
    dir: u32,
    vptr: u32,
    phys: u32,
    flags: u32,
    other: u32,
)
    requires
        set_page_ok(mem, free, dir, vptr),
        frames_fit(mem.len() as int, free),
        flags <= FLAG_MASK,
        dir_ok(mem, other),
        entry_ok(mem.len() as int, phys | flags),
    ensures
        dir_ok(set_page_spec(mem, free, dir, vptr, phys, flags).0, other),
        set_page_spec(mem, free, dir, vptr, phys, flags).0.len() == mem.len(),
        frames_fit(mem.len() as int, set_page_spec(mem, free, dir, vptr, phys, flags).1),
        set_page_spec(mem, free, dir, vptr, phys, flags).1.len() + 1 >= free.len(),
{
    let len = mem.len() as int;
    let ds = slot(dir, TABLE_SPAN, vptr);
    lemma_slot_in_frame(dir, TABLE_SPAN, vptr);
    let e = mem[ds];
    assert(entry_ok(len, e));
    let (t, m1, f1) = fetch_spec(mem, free, dir, vptr, flags);
    if is_present(e) {
        assert(frame_fits(len, t));
    } else {
        let f = free.last();
        assert(frame_fits(len, free[free.len() - 1]));
        lemma_zero_keeps_dir_ok(mem, other, f);
        lemma_entry_ok_of(len, f, flags);
        lemma_update_keeps_dir_ok(zero_frame(mem, f), other, ds, f | flags);
        assert forall|i: int| 0 <= i < f1.len() implies #[trigger] frame_fits(len, f1[i]) by {
            assert(frame_fits(len, free[i]));
        }
    }
    lemma_slot_in_frame(t, PAGE_SIZE, vptr);
    lemma_update_keeps_dir_ok(m1, other, slot(t, PAGE_SIZE, vptr), phys | flags);
}

/// `set_page` keeps the size of memory.
proof fn lemma_set_page_len(mem: Seq<u32>, free: Seq<u32>, dir: u32, vptr: u32, phys: u32, flags: u32)
    requires
        set_page_ok(mem, free, dir, vptr),
    ensures
        set_page_spec(mem, free, dir, vptr, phys, flags).0.len() == mem.len(),
{
    lemma_slot_in_frame(dir, TABLE_SPAN, vptr);
    let (t, m1, f1) = fetch_spec(mem, free, dir, vptr, flags);
    lemma_slot_in_frame(t, PAGE_SIZE, vptr);
}

/// A good directory, with a free frame in memory at hand, is ready for any
/// `set_page`.
proof fn lemma_set_page_ok_of(mem: Seq<u32>, free: Seq<u32>, dir: u32, vptr: u32)
    requires
        dir_ok(mem, dir),
        frames_fit(mem.len() as int, free),
        free.len() > 0,
    ensures
        set_page_ok(mem, free, dir, vptr),
{
    lemma_slot_in_frame(dir, TABLE_SPAN, vptr);
    assert(entry_ok(mem.len() as int, mem[slot(dir, TABLE_SPAN, vptr)]));
    assert(frame_fits(mem.len() as int, free[free.len() - 1]));
}

/// After `set_page` maps `vptr` to the page-aligned frame `phys` with present
/// flags through the directory at `dir`, the directory translates `vptr` to
/// `phys` plus the offset of `vptr` in its page. This holds when the page
/// table used is not the directory itself.
pub proof fn lemma_set_page_maps(
    mem: Seq<u32>,
    free: Seq<u32>,
    dir: u32,
    vptr: u32,
    phys: u32,
    flags: u32,
)
    requires
        set_page_ok(mem, free, dir, vptr),
        flags <= FLAG_MASK,
        flags & PRESENT_BIT != 0,
        phys % PAGE_SIZE == 0,
        fetch_spec(mem, free, dir, vptr, flags).0 != dir,
    ensures
        translate(set_page_spec(mem, free, dir, vptr, phys, flags).0, dir, vptr) == Some(
            phys + vptr % PAGE_SIZE,
        ),
        frame_of(set_page_spec(mem, free, dir, vptr, phys, flags).0[slot(dir, TABLE_SPAN, vptr)])
            == fetch_spec(mem, free, dir, vptr, flags).0,
        set_page_spec(mem, free, dir, vptr, phys, flags).0[slot(
            fetch_spec(mem, free, dir, vptr, flags).0,
            PAGE_SIZE,
            vptr,
        )] == phys | flags,
{
    let len = mem.len() as int;
    let ds = slot(dir, TABLE_SPAN, vptr);
    lemma_slot_in_frame(dir, TABLE_SPAN, vptr);
    let e = mem[ds];
    assert(entry_ok(len, e));
    let (t, m1, f1) = fetch_spec(mem, free, dir, vptr, flags);
    let ts = slot(t, PAGE_SIZE, vptr);
    lemma_slot_in_frame(t, PAGE_SIZE, vptr);
    if is_present(e) {
        assert(frame_fits(len, t));
        assert(m1[ds] == e);
    } else {
        assert(frame_fits(len, free[free.len() - 1]));
        lemma_frames_disjoint(t, dir, ds);
        crate::page::lemma_entry_round_trip(t, flags);
        assert(m1[ds] == t | flags);
    }
    lemma_frames_disjoint(dir, t, ts);
    let m2 = m1.update(ts, phys | flags);
    assert(m2[ds] == m1[ds]);
    assert(frame_of(m2[ds]) == t);
    crate::page::lemma_entry_round_trip(phys, flags);
    assert(m2[ts] == phys | flags);
}

/// How many steps of `PAGE_SIZE` it takes to pass `len` bytes: `len / PAGE_SIZE`
/// rounded up.
pub open spec fn page_count(len: u32) -> nat {
    ((len + PAGE_SIZE - 1) / (PAGE_SIZE as int)) as nat
}

/// The current page directory: the frame that `CR3` refers to.
pub open spec fn current_dir(cr3: Page) -> u32 {
    frame_of(cr3.0)
}

/// The memory and free frames after `map` has mapped `n` pages from `p` on:
/// for each page, the next free frame is taken and mapped at that page with
/// `flags` and the present bit, first through the directory at `d`, then
/// through the current directory `c`.
pub open spec fn map_spec(
    mem: Seq<u32>,
    free: Seq<u32>,
    d: u32,
    c: u32,
    p: u32,
    n: nat,
    flags: u32,
) -> (Seq<u32>, Seq<u32>)
    decreases n,
{
    if n == 0 {
        (mem, free)
    } else {
        let f = free.last();
        let (m1, f1) = set_page_spec(mem, free.drop_last(), d, p, f, flags | PRESENT_BIT);
        let (m2, f2) = set_page_spec(m1, f1, c, p, f, flags | PRESENT_BIT);
        map_spec(m2, f2, d, c, (p + PAGE_SIZE) as u32, (n - 1) as nat, flags)
    }
}

/// The operations that `map` of `n` pages from `p` on asks for: those of each
/// `set_page`, in order.
pub open spec fn map_ops(
    mem: Seq<u32>,
    free: Seq<u32>,
    d: u32,
    c: u32,
    p: u32,
    n: nat,
    flags: u32,
) -> Seq<HwOp>
    decreases n,
{
    if n == 0 {
        Seq::empty()
    } else {
        let f = free.last();
        let (m1, f1) = set_page_spec(mem, free.drop_last(), d, p, f, flags | PRESENT_BIT);
        let (m2, f2) = set_page_spec(m1, f1, c, p, f, flags | PRESENT_BIT);
        set_page_ops(mem, d, p) + set_page_ops(m1, c, p) + map_ops(
            m2,
            f2,
            d,
            c,
            (p + PAGE_SIZE) as u32,
            (n - 1) as nat,
            flags,
        )
    }
}

/// Every step of `map` of `n` pages from `p` on touches memory only inside
/// it: before each page a frame is free, and each `set_page` is safe.
pub open spec fn map_ok(
    mem: Seq<u32>,
    free: Seq<u32>,
    d: u32,
    c: u32,
    p: u32,
    n: nat,
    flags: u32,
) -> bool
    decreases n,
{
    n == 0 || {
        let f = free.last();
        let (m1, f1) = set_page_spec(mem, free.drop_last(), d, p, f, flags | PRESENT_BIT);
        let (m2, f2) = set_page_spec(m1, f1, c, p, f, flags | PRESENT_BIT);
        &&& free.len() > 0
        &&& set_page_ok(mem, free.drop_last(), d, p)
        &&& set_page_ok(m1, f1, c, p)
        &&& map_ok(m2, f2, d, c, (p + PAGE_SIZE) as u32, (n - 1) as nat, flags)
    }
}

impl Table {
    /// Maps every page of the `len` bytes from `page_ptr` on to a frame of its
    /// own, taken from the free frames, with `flags` and the present bit: in
    /// this directory and in the current one.
    pub fn map(&self, m: &mut Machine, page_ptr: u32, len: u32, flags: Flags)
        requires
            self.wf(),
            self.span == TABLE_SPAN,
            map_ok(
                old(m).mem@,
                old(m).free@,
                self.base,
                current_dir(old(m).cr3),
                page_ptr,
                page_count(len),
                flags.0,
            ),
            page_ptr + PAGE_SIZE * page_count(len) <= u32::MAX,
        ensures
            final(m).mem@ == map_spec(
                old(m).mem@,
                old(m).free@,
                self.base,
                current_dir(old(m).cr3),
                page_ptr,
                page_count(len),
                flags.0,
            ).0,
            final(m).free@ == map_spec(
                old(m).mem@,
                old(m).free@,
                self.base,
                current_dir(old(m).cr3),
                page_ptr,
                page_count(len),
                flags.0,
            ).1,
            final(m).ops@ == old(m).ops@ + map_ops(
                old(m).mem@,
                old(m).free@,
                self.base,
                current_dir(old(m).cr3),
                page_ptr,
                page_count(len),
                flags.0,
            ),
            final(m).cr3 == old(m).cr3,
            final(m).cr0 == old(m).cr0,
    {
        let ghost d = self.base;
        let ghost c = current_dir(old(m).cr3);
        let ghost total = page_count(len);
        let end: u32 = page_ptr + len;
        let mut p: u32 = page_ptr;
        let with_present = flags.union(Flags::present());
        let ghost mut k: nat = 0;
        while p < end
            invariant
                self.wf(),
                self.span == TABLE_SPAN,
                d == self.base,
                c == current_dir(m.cr3),
                m.cr3 == old(m).cr3,
                m.cr0 == old(m).cr0,
                with_present.0 == flags.0 | PRESENT_BIT,
                end == page_ptr + len,
                total == page_count(len),
                page_ptr + PAGE_SIZE * total <= u32::MAX,
                k <= total,
                p == page_ptr + PAGE_SIZE * k,
                map_ok(m.mem@, m.free@, d, c, p, (total - k) as nat, flags.0),
                old(m).ops@ + map_ops(old(m).mem@, old(m).free@, d, c, page_ptr, total, flags.0)
                    == m.ops@ + map_ops(m.mem@, m.free@, d, c, p, (total - k) as nat, flags.0),
                map_spec(old(m).mem@, old(m).free@, d, c, page_ptr, total, flags.0) == map_spec(
                    m.mem@,
                    m.free@,
                    d,
                    c,
                    p,
                    (total - k) as nat,
                    flags.0,
                ),
            decreases total - k,
        {
            proof {
                assert(k < total) by (nonlinear_arith)
                    requires
                        p == page_ptr + 4096 * k,
                        p < page_ptr + len,
                        total == (len + 4095) / 4096,
                ;
                assert(p + PAGE_SIZE <= u32::MAX) by (nonlinear_arith)
                    requires
                        p == page_ptr + 4096 * k,
                        k < total,
                        page_ptr + 4096 * total <= u32::MAX,
                ;
            }
            let ghost ops0 = m.ops@;
            let ghost mem0 = m.mem@;
            let ghost rest = (total - k) as nat;
            let frame: u32 = alloc_frame(&mut m.free);
            self.set_page(m, p, frame, with_present);
            let ghost mem1 = m.mem@;
            let current = Table::page_directory(m.cr3.physical());
            current.set_page(m, p, frame, with_present);
            proof {
                let tail = map_ops(m.mem@, m.free@, d, c, (p + PAGE_SIZE) as u32, (rest - 1) as nat, flags.0);
                assert(ops0 + (set_page_ops(mem0, d, p) + set_page_ops(mem1, c, p) + tail) =~= m.ops@ + tail);
            }
            p = p + PAGE_SIZE;
            proof {
                k = k + 1;
            }
        }
        proof {
            assert(k >= total) by (nonlinear_arith)
                requires
                    p == page_ptr + 4096 * k,
                    p >= page_ptr + len,
                    total == (len + 4095) / 4096,
            ;
        }
    }
}

/// Maps the `len` bytes from `page_ptr` on in the current page directory
/// (see `Table::map`).
pub fn map(m: &mut Machine, page_ptr: u32, len: u32, flags: Flags)
    requires
        map_ok(
            old(m).mem@,
            old(m).free@,
            current_dir(old(m).cr3),
            current_dir(old(m).cr3),
            page_ptr,
            page_count(len),
            flags.0,
        ),
        page_ptr + PAGE_SIZE * page_count(len) <= u32::MAX,
    ensures
        final(m).mem@ == map_spec(
            old(m).mem@,
            old(m).free@,
            current_dir(old(m).cr3),
            current_dir(old(m).cr3),
            page_ptr,
            page_count(len),
            flags.0,
        ).0,
        final(m).free@ == map_spec(
            old(m).mem@,
            old(m).free@,
            current_dir(old(m).cr3),
            current_dir(old(m).cr3),
            page_ptr,
            page_count(len),
            flags.0,
        ).1,
        final(m).ops@ == old(m).ops@ + map_ops(
            old(m).mem@,
            old(m).free@,
            current_dir(old(m).cr3),
            current_dir(old(m).cr3),
            page_ptr,
            page_count(len),
            flags.0,
        ),
        final(m).cr3 == old(m).cr3,
        final(m).cr0 == old(m).cr0,
{
    let directory = Table::page_directory(m.cr3.physical());
    proof {
        let e = m.cr3.0;
        assert((e & 0xFFFF_F000) % 4096 == 0) by (bit_vector);
    }
    directory.map(m, page_ptr, len, flags);
}

/// Memory after entries `k .. k + n` of the directory at `src` are copied, one
/// after the other, to the same entries of the directory at `dst`.
pub open spec fn copy_entries(m: Seq<u32>, src: u32, dst: u32, k: nat, n: nat) -> Seq<u32>
    decreases n,
{
    if n == 0 {
        m
    } else {
        copy_entries(m.update(dst / 4 + k, m[src / 4 + k]), src, dst, k + 1, (n - 1) as nat)
    }
}

/// The number of directory entries below `USER_END`.
pub open spec fn user_entries() -> nat {
    (USER_END / TABLE_SPAN) as nat
}

/// The new directory, the memory and the free frames after `clone` of the
/// directory at `s` while `c` is the current one: a cleared frame from the
/// free list becomes the new directory; it is mapped at `TEMP1` through the
/// current directory; its last entry maps itself; its entry 0 and its entries
/// for the rest of the user part are copied from `s`.
pub open spec fn clone_spec(mem: Seq<u32>, free: Seq<u32>, s: u32, c: u32) -> (u32, Seq<u32>, Seq<u32>) {
    let nd = free.last();
    let (m2, f2) = set_page_spec(
        zero_frame(mem, nd),
        free.drop_last(),
        c,
        TEMP1,
        nd,
        PRESENT_BIT | RW_BIT | USER_BIT,
    );
    let m3 = m2.update(slot(nd, TABLE_SPAN, DIR_VADDR), nd | (PRESENT_BIT | RW_BIT));
    let m4 = m3.update(slot(nd, TABLE_SPAN, 0), m3[slot(s, TABLE_SPAN, 0)]);
    (nd, copy_entries(m4, s, nd, 1, (user_entries() - 1) as nat), f2)
}

impl Table {
    /// Makes a new page directory that shares this directory's user part
    /// (the entries below `USER_END`) and maps itself at its last entry;
    /// returns the new directory's frame. The new directory is reached
    /// through the current directory at `TEMP1`.
    pub fn clone(&self, m: &mut Machine) -> (nd: u32)
        requires
            self.wf(),
            self.span == TABLE_SPAN,
            frame_fits(old(m).mem@.len() as int, self.base),
            old(m).free@.len() >= 1,
            frame_fits(old(m).mem@.len() as int, old(m).free@.last()),
            set_page_ok(
                zero_frame(old(m).mem@, old(m).free@.last()),
                old(m).free@.drop_last(),
                current_dir(old(m).cr3),
                TEMP1,
            ),
        ensures
            nd == clone_spec(old(m).mem@, old(m).free@, self.base, current_dir(old(m).cr3)).0,
            final(m).mem@ == clone_spec(
                old(m).mem@,
                old(m).free@,
                self.base,
                current_dir(old(m).cr3),
            ).1,
            final(m).free@ == clone_spec(
                old(m).mem@,
                old(m).free@,
                self.base,
                current_dir(old(m).cr3),
            ).2,
            final(m).ops@ == old(m).ops@ + set_page_ops(
                zero_frame(old(m).mem@, old(m).free@.last()),
                current_dir(old(m).cr3),
                TEMP1,
            ),
            final(m).cr3 == old(m).cr3,
            final(m).cr0 == old(m).cr0,
    {
        let ghost len0 = old(m).mem@.len() as int;
        let ghost c = current_dir(old(m).cr3);
        let dir_phys: u32 = zero_alloc_frame(m);
        let current = Table::page_directory(m.cr3.physical());
        let user_rw = Flags::present().union(Flags::rw()).union(Flags::user());
        assert(1u32 | 2u32 | 4u32 == 7u32) by (bit_vector);
        current.set_page(m, TEMP1, dir_phys, user_rw);
        let dir_temp = Table::page_directory(dir_phys);
        dir_temp.set(&mut m.mem, DIR_VADDR, Page::new(dir_phys, Flags::present().union(Flags::rw())));
        let first = self.get(&m.mem, 0);
        dir_temp.set(&mut m.mem, 0, first);
        let ghost m4 = m.mem@;
        let mut i: u32 = ENTRIES * PAGE_SIZE;
        let ghost mut k: nat = 1;
        assert(ENTRIES * PAGE_SIZE == TABLE_SPAN);
        while i < USER_END
            invariant
                self.wf(),
                self.span == TABLE_SPAN,
                dir_temp.wf(),
                dir_temp.span == TABLE_SPAN,
                dir_temp.base == dir_phys,
                frame_fits(len0, self.base),
                frame_fits(len0, dir_phys),
                m.mem@.len() == len0,
                m.cr3 == old(m).cr3,
                m.cr0 == old(m).cr0,
                m.ops@ == old(m).ops@ + set_page_ops(
                    zero_frame(old(m).mem@, old(m).free@.last()),
                    c,
                    TEMP1,
                ),
                1 <= k <= user_entries(),
                i == k * TABLE_SPAN,
                m.free@ == clone_spec(old(m).mem@, old(m).free@, self.base, c).2,
                copy_entries(m4, self.base, dir_phys, 1, (user_entries() - 1) as nat) == copy_entries(
                    m.mem@,
                    self.base,
                    dir_phys,
                    k,
                    (user_entries() - k) as nat,
                ),
            decreases user_entries() - k,
        {
            assert(i / TABLE_SPAN == k && k < 1024) by (nonlinear_arith)
                requires
                    i == k * 0x40_0000,
                    i < 0xC000_0000,
            ;
            let entry = self.get(&m.mem, i);
            dir_temp.set(&mut m.mem, i, entry);
            i = i + TABLE_SPAN;
            proof {
                k = k + 1;
            }
        }
        proof {
            assert(k == user_entries()) by (nonlinear_arith)
                requires
                    i == k * 0x40_0000,
                    i >= 0xC000_0000,
                    k <= 768,
            ;
        }
        dir_phys
    }
}

/// Loads `CR3` with the page directory at `dir`.
pub fn switch_directory(m: &mut Machine, dir: u32)
    ensures
        final(m).cr3.0 == dir | 0,
        final(m).ops@ == old(m).ops@.push(HwOp::LoadCr3(dir | 0)),
        final(m).mem@ == old(m).mem@,
        final(m).free@ == old(m).free@,
        final(m).cr0 == old(m).cr0,
{
    m.cr3 = Page::new(dir, Flags::zero());
    m.ops.push(HwOp::LoadCr3(m.cr3.0));
}

/// Sets the paging bit of `CR0`.
fn enable_paging(m: &mut Machine)
    ensures
        final(m).cr0 == old(m).cr0 | CR0_PG,
        final(m).ops@ == old(m).ops@.push(HwOp::LoadCr0(old(m).cr0 | CR0_PG)),
        final(m).mem@ == old(m).mem@,
        final(m).free@ == old(m).free@,
        final(m).cr3 == old(m).cr3,
{
    m.cr0 = m.cr0 | CR0_PG;
    m.ops.push(HwOp::LoadCr0(m.cr0));
}

/// Asks for the exception handler to be installed in the interrupt table for
/// page faults.
fn install_page_fault_handler(m: &mut Machine)
    ensures
        final(m).ops@ == old(m).ops@.push(
            HwOp::InstallHandler(fault_code(Fault::PageFault), true),
        ),
        final(m).mem@ == old(m).mem@,
        final(m).free@ == old(m).free@,
        final(m).cr3 == old(m).cr3,
        final(m).cr0 == old(m).cr0,
{
    m.ops.push(HwOp::InstallHandler(Fault::PageFault.code(), true));
}

/// The directory, memory and free frames after `init`: a cleared frame
/// becomes the directory, the next free frame a page table that maps the
/// first 4 MiB to themselves; the directory's entry 0 holds that table and
/// its last entry the directory itself, both present and writable.
pub open spec fn init_spec(mem: Seq<u32>, free: Seq<u32>) -> (u32, Seq<u32>, Seq<u32>) {
    let dir = free.last();
    let table = free[free.len() - 2];
    let m1 = zero_frame(mem, dir);
    let m2 = identity_spec(m1, table, 0, PRESENT_BIT | RW_BIT);
    let m3 = m2.update(slot(dir, TABLE_SPAN, 0), table | (PRESENT_BIT | RW_BIT));
    let m4 = m3.update(slot(dir, TABLE_SPAN, DIR_VADDR), dir | (PRESENT_BIT | RW_BIT));
    (dir, m4, free.drop_last().drop_last())
}

/// Sets up paging: a new page directory that maps the first 4 MiB to
/// themselves and itself at `DIR_VADDR`; makes it current and turns paging on.
pub fn init(m: &mut Machine)
    requires
        old(m).free@.len() >= 2,
        frame_fits(old(m).mem@.len() as int, old(m).free@.last()),
        frame_fits(old(m).mem@.len() as int, old(m).free@[old(m).free@.len() - 2]),
    ensures
        final(m).mem@ == init_spec(old(m).mem@, old(m).free@).1,
        final(m).free@ == init_spec(old(m).mem@, old(m).free@).2,
        final(m).cr3.0 == init_spec(old(m).mem@, old(m).free@).0,
        final(m).cr0 == old(m).cr0 | CR0_PG,
        final(m).ops@ == old(m).ops@ + seq![
            HwOp::FlushTlb(0),
            HwOp::FlushTlb(DIR_VADDR),
            HwOp::InstallHandler(fault_code(Fault::PageFault), true),
            HwOp::LoadCr3(init_spec(old(m).mem@, old(m).free@).0),
            HwOp::LoadCr0(old(m).cr0 | CR0_PG),
        ],
{
    let dir: u32 = zero_alloc_frame(m);
    let table: u32 = alloc_frame(&mut m.free);
    let rw = Flags::present().union(Flags::rw());
    Table::page_table(table).identity_map(&mut m.mem, 0, rw);
    let d = Table::page_directory(dir);
    d.set_addr(m, 0, table, rw);
    d.set_addr(m, DIR_VADDR, dir, rw);
    install_page_fault_handler(m);
    switch_directory(m, dir);
    assert(dir | 0 == dir) by (bit_vector);
    enable_paging(m);
}

/// After `init`, the new directory (when the two frames it takes differ)
/// maps each address of the first 4 MiB to itself, maps the 4 KiB at
/// `DIR_VADDR` onto the directory itself, and maps nothing else below the
/// last 4 MiB.
pub proof fn lemma_init_maps(mem: Seq<u32>, free: Seq<u32>)
    requires
        free.len() >= 2,
        frame_fits(mem.len() as int, free.last()),
        frame_fits(mem.len() as int, free[free.len() - 2]),
        free.last() != free[free.len() - 2],
    ensures
        forall|v: u32|
            v < TABLE_SPAN ==> #[trigger] translate(init_spec(mem, free).1, init_spec(mem, free).0, v)
                == Some(v as int),
        forall|o: u32|
            o < PAGE_SIZE ==> #[trigger] translate(
                init_spec(mem, free).1,
                init_spec(mem, free).0,
                (DIR_VADDR + o) as u32,
            ) == Some(init_spec(mem, free).0 + o),
        forall|v: u32|
            TABLE_SPAN <= v < 0xFFC0_0000 ==> #[trigger] translate(
                init_spec(mem, free).1,
                init_spec(mem, free).0,
                v,
            ) is None,
{
    let len = mem.len() as int;
    let dir = free.last();
    let table = free[free.len() - 2];
    assert(frame_fits(len, free[free.len() - 1]));
    assert(frame_fits(len, table));
    let m1 = zero_frame(mem, dir);
    let m2 = identity_spec(m1, table, 0, 3);
    let m3 = m2.update(slot(dir, TABLE_SPAN, 0), table | 3);
    let m4 = m3.update(slot(dir, TABLE_SPAN, DIR_VADDR), dir | 3);
    assert(1u32 | 2u32 == 3u32) by (bit_vector);
    assert(init_spec(mem, free).1 == m4);
    assert(slot(dir, TABLE_SPAN, 0) == dir / 4);
    assert(slot(dir, TABLE_SPAN, DIR_VADDR) == dir / 4 + 1023);
    crate::page::lemma_entry_round_trip(table, 3);
    crate::page::lemma_entry_round_trip(dir, 3);
    assert(3u32 & 1u32 != 0) by (bit_vector);
    assert(m1.len() == len && m2.len() == len && m4.len() == len);
    lemma_frames_disjoint(table, dir, dir / 4 + 0);
    lemma_frames_disjoint(table, dir, dir / 4 + 1023);
    assert(m4[dir / 4 + 0] == table | 3);
    assert(m4[dir / 4 + 1023] == dir | 3);
    assert forall|v: u32| v < TABLE_SPAN implies #[trigger] translate(m4, dir, v) == Some(
        v as int,
    ) by {
        assert(v / TABLE_SPAN == 0);
        assert(m4[slot(dir, TABLE_SPAN, v)] == table | 3);
        let j = v / PAGE_SIZE;
        assert(j < ENTRIES);
        let ts = slot(table, PAGE_SIZE, v);
        assert(ts == table / 4 + j);
        lemma_frames_disjoint(dir, table, ts);
        assert(m4[ts] == m2[ts]);
        assert(m2[ts] == frame_entry(j, 3));
        crate::page::lemma_frame_entry(j, 3);
        assert(j * PAGE_SIZE + v % PAGE_SIZE == v);
    }
    assert forall|o: u32| o < PAGE_SIZE implies #[trigger] translate(
        m4,
        dir,
        (DIR_VADDR + o) as u32,
    ) == Some(dir + o) by {
        let v = (DIR_VADDR + o) as u32;
        assert(v / TABLE_SPAN == 1023);
        assert(v / PAGE_SIZE % ENTRIES == 1023);
        assert(v % PAGE_SIZE == o);
    }
    assert forall|v: u32| TABLE_SPAN <= v < 0xFFC0_0000 implies #[trigger] translate(
        m4,
        dir,
        v,
    ) is None by {
        let k = v / TABLE_SPAN;
        assert(1 <= k < 1023);
        let ds = slot(dir, TABLE_SPAN, v);
        assert(ds == dir / 4 + k);
        lemma_frames_disjoint(table, dir, ds);
        assert(m4[ds] == m1[ds]);
        assert(m1[ds] == 0);
        assert(!is_present(0u32)) by (bit_vector);
    }
}

/// The words that `clone` writes through `TEMP1` reach the new directory:
/// once `TEMP1` is mapped, the current directory `c` sends each address of
/// the page at `TEMP1` to the same offset in the new directory's frame. This
/// holds when the page table that maps `TEMP1` is not `c` itself.
pub proof fn lemma_clone_reaches_new_directory(mem: Seq<u32>, free: Seq<u32>, c: u32)
    requires
        free.len() >= 1,
        frame_fits(mem.len() as int, free.last()),
        set_page_ok(zero_frame(mem, free.last()), free.drop_last(), c, TEMP1),
        fetch_spec(
            zero_frame(mem, free.last()),
            free.drop_last(),
            c,
            TEMP1,
            PRESENT_BIT | RW_BIT | USER_BIT,
        ).0 != c,
    ensures
        forall|o: u32|
            o < PAGE_SIZE ==> #[trigger] translate(
                set_page_spec(
                    zero_frame(mem, free.last()),
                    free.drop_last(),
                    c,
                    TEMP1,
                    free.last(),
                    PRESENT_BIT | RW_BIT | USER_BIT,
                ).0,
                c,
                (TEMP1 + o) as u32,
            ) == Some(free.last() + o),
{
    let nd = free.last();
    let m1 = zero_frame(mem, nd);
    let f1 = free.drop_last();
    let fl = PRESENT_BIT | RW_BIT | USER_BIT;
    assert(1u32 | 2u32 | 4u32 == 7u32) by (bit_vector);
    assert(7u32 & 1u32 != 0) by (bit_vector);
    assert(frame_fits(mem.len() as int, free[free.len() - 1]));
    lemma_set_page_maps(m1, f1, c, TEMP1, nd, fl);
    let m2 = set_page_spec(m1, f1, c, TEMP1, nd, fl).0;
    assert forall|o: u32| o < PAGE_SIZE implies #[trigger] translate(m2, c, (TEMP1 + o) as u32)
        == Some(nd + o) by {
        let v = (TEMP1 + o) as u32;
        assert(v / TABLE_SPAN == TEMP1 / TABLE_SPAN);
        assert(v / PAGE_SIZE == TEMP1 / PAGE_SIZE);
        assert(v % PAGE_SIZE == o);
        assert(slot(c, TABLE_SPAN, v) == slot(c, TABLE_SPAN, TEMP1));
    }
}

/// The directory that `clone` makes holds this directory's entries below
/// `USER_END`, maps itself in its last entry, and holds nothing in between,
/// when the frames involved are distinct: the new frame is neither this
/// directory nor the current one nor the table that maps `TEMP1`, and a
/// table made for `TEMP1` is neither this directory nor the new one.
pub proof fn lemma_clone_entries(mem: Seq<u32>, free: Seq<u32>, s: u32, c: u32)
    requires
        frame_fits(mem.len() as int, s),
        free.len() >= 1,
        frame_fits(mem.len() as int, free.last()),
        set_page_ok(zero_frame(mem, free.last()), free.drop_last(), c, TEMP1),
        free.last() != s,
        free.last() != c,
        is_present(mem[slot(c, TABLE_SPAN, TEMP1)]) ==> frame_of(mem[slot(c, TABLE_SPAN, TEMP1)])
            != free.last(),
        !is_present(mem[slot(c, TABLE_SPAN, TEMP1)]) ==> free[free.len() - 2] != s
            && free[free.len() - 2] != free.last(),
    ensures
        clone_spec(mem, free, s, c).0 == free.last(),
        forall|k: int|
            0 <= k < user_entries() ==> #[trigger] clone_spec(mem, free, s, c).1[free.last() / 4 + k]
                == mem[s / 4 + k],
        clone_spec(mem, free, s, c).1[free.last() / 4 + 1023] == free.last() | (PRESENT_BIT
            | RW_BIT),
        forall|k: int|
            user_entries() <= k < 1023 ==> #[trigger] clone_spec(mem, free, s, c).1[free.last() / 4
                + k] == 0,
{
    let len = mem.len() as int;
    let nd = free.last();
    assert(frame_fits(len, free[free.len() - 1]));
    let m1 = zero_frame(mem, nd);
    let f1 = free.drop_last();
    let cs = slot(c, TABLE_SPAN, TEMP1);
    lemma_slot_in_frame(c, TABLE_SPAN, TEMP1);
    lemma_frames_disjoint(nd, c, cs);
    assert(m1[cs] == mem[cs]);
    lemma_set_page_len(m1, f1, c, TEMP1, nd, 7);
    let (t, ma, fa) = fetch_spec(m1, f1, c, TEMP1, 7);
    let tn = free[free.len() - 2];
    if !is_present(mem[cs]) {
        assert(f1.last() == tn);
    }
    assert(t % PAGE_SIZE == 0);
    assert(t != nd);
    let ts = slot(t, PAGE_SIZE, TEMP1);
    assert(ts == t / 4 + 1023);
    let (m2, f2) = set_page_spec(m1, f1, c, TEMP1, nd, 7);
    assert(m2 == ma.update(ts, nd | 7));
    assert(m2.len() == len);
    assert(1u32 | 2u32 | 4u32 == 7u32) by (bit_vector);
    assert(1u32 | 2u32 == 3u32) by (bit_vector);
    assert(cs == c / 4 + 1021);
    // The mapping at TEMP1 leaves the user entries of `s` alone.
    assert forall|j: int| s / 4 <= j < s / 4 + user_entries() implies #[trigger] m2[j] == mem[j] by {
        lemma_frames_disjoint(nd, s, j);
        assert(m1[j] == mem[j]);
        if !is_present(mem[cs]) {
            lemma_frames_disjoint(tn, s, j);
            if c != s {
                lemma_frames_disjoint(c, s, j);
            }
            assert(ma == zero_frame(m1, tn).update(cs, tn | 7));
            assert(ma[j] == m1[j]);
        }
        if t != s {
            lemma_frames_disjoint(t, s, j);
        }
        assert(m2[j] == ma[j]);
    }
    // ... and the new directory cleared but for its last entry.
    assert forall|j: int| nd / 4 <= j < nd / 4 + 1023 implies #[trigger] m2[j] == 0 by {
        assert(m1[j] == 0);
        lemma_frames_disjoint(c, nd, j);
        if !is_present(mem[cs]) {
            if tn != nd {
                lemma_frames_disjoint(tn, nd, j);
            }
            assert(ma == zero_frame(m1, tn).update(cs, tn | 7));
            assert(ma[j] == 0);
        }
        lemma_frames_disjoint(t, nd, j);
        assert(m2[j] == ma[j]);
    }
    let m3 = m2.update(slot(nd, TABLE_SPAN, DIR_VADDR), nd | 3);
    assert(slot(nd, TABLE_SPAN, DIR_VADDR) == nd / 4 + 1023);
    assert(slot(nd, TABLE_SPAN, 0) == nd / 4);
    assert(slot(s, TABLE_SPAN, 0) == s / 4);
    lemma_frames_disjoint(nd, s, (s / 4) as int);
    let m4 = m3.update((nd / 4) as int, m3[(s / 4) as int]);
    lemma_copy_entries(m4, s, nd, 1, (user_entries() - 1) as nat);
    let r = copy_entries(m4, s, nd, 1, (user_entries() - 1) as nat);
    assert(clone_spec(mem, free, s, c).1 == r);
    assert forall|k: int| 0 <= k < user_entries() implies #[trigger] r[nd / 4 + k] == mem[s / 4
        + k] by {
        lemma_frames_disjoint(nd, s, s / 4 + k);
        if k == 0 {
        } else {
            assert(m4[s / 4 + k] == m2[s / 4 + k]);
        }
    }
    assert forall|k: int| user_entries() <= k < 1023 implies #[trigger] r[nd / 4 + k] == 0 by {
        assert(m4[nd / 4 + k] == m2[nd / 4 + k]);
    }
    assert(r[nd / 4 + 1023] == m4[nd / 4 + 1023]);
}

/// Copying entries `k .. k + n` from the directory at `src` to a different
/// directory at `dst` gives those entries of `dst` the values of `src`, and
/// changes no other word.
proof fn lemma_copy_entries(m: Seq<u32>, src: u32, dst: u32, k: nat, n: nat)
    requires
        src % PAGE_SIZE == 0,
        dst % PAGE_SIZE == 0,
        src != dst,
        src / 4 + ENTRIES <= m.len(),
        dst / 4 + ENTRIES <= m.len(),
        k + n <= ENTRIES,
    ensures
        copy_entries(m, src, dst, k, n).len() == m.len(),
        forall|j: int|
            k <= j < k + n ==> #[trigger] copy_entries(m, src, dst, k, n)[dst / 4 + j] == m[src / 4
                + j],
        forall|i: int|
            0 <= i < m.len() && !(dst / 4 + k <= i < dst / 4 + k + n) ==> #[trigger] copy_entries(
                m,
                src,
                dst,
                k,
                n,
            )[i] == m[i],
    decreases n,
{
    if n > 0 {
        let m1 = m.update(dst / 4 + k, m[src / 4 + k]);
        lemma_copy_entries(m1, src, dst, k + 1, (n - 1) as nat);
        assert forall|j: int| k <= j < k + n implies #[trigger] copy_entries(m, src, dst, k, n)[dst
            / 4 + j] == m[src / 4 + j] by {
            lemma_frames_disjoint(dst, src, src / 4 + j);
        }
    }
}

/// The entry `e`, if present, refers to a table that is neither of the
/// directories `d` and `c` nor a free frame.
pub open spec fn entry_apart(e: u32, d: u32, c: u32, free: Seq<u32>) -> bool {
    is_present(e) ==> (frame_of(e) != d && frame_of(e) != c && !free.contains(frame_of(e)))
}

/// The frames that `map` works with are kept apart: the free frames are all
/// different and are neither directory, and each present entry of either
/// directory refers to a table that is neither directory nor free.
pub open spec fn map_fresh(mem: Seq<u32>, free: Seq<u32>, d: u32, c: u32) -> bool {
    &&& free.no_duplicates()
    &&& !free.contains(d)
    &&& !free.contains(c)
    &&& forall|i: int| d / 4 <= i < d / 4 + ENTRIES ==> #[trigger] entry_apart(mem[i], d, c, free)
    &&& forall|i: int| c / 4 <= i < c / 4 + ENTRIES ==> #[trigger] entry_apart(mem[i], d, c, free)
}

proof fn lemma_drop_last_fresh(free: Seq<u32>)
    requires
        free.len() > 0,
        free.no_duplicates(),
    ensures
        free.drop_last().no_duplicates(),
        !free.drop_last().contains(free.last()),
        forall|a: u32| #[trigger] free.drop_last().contains(a) ==> free.contains(a),
{
    let f1 = free.drop_last();
    assert forall|a: u32| #[trigger] f1.contains(a) implies free.contains(a) by {
        let i = choose|i: int| 0 <= i < f1.len() && f1[i] == a;
        assert(free[i] == a);
    }
    if f1.contains(free.last()) {
        let i = choose|i: int| 0 <= i < f1.len() && f1[i] == free.last();
        assert(free[i] == free[free.len() - 1]);
    }
}

/// One `set_page` through either directory keeps the frames apart, and an
/// address that either directory mapped stays mapped.
#[verifier::spinoff_prover]
#[verifier::rlimit(50)]
proof fn lemma_set_page_keeps_mapped(
    mem: Seq<u32>,
    free: Seq<u32>,
    y: u32,
    p: u32,
    f: u32,
    fl: u32,
    d: u32,
    c: u32,
    x: u32,
    v: u32,
)
    requires
        set_page_ok(mem, free, y, p),
        fl <= FLAG_MASK,
        y == d || y == c,
        x == d || x == c,
        dir_ok(mem, d),
        dir_ok(mem, c),
        map_fresh(mem, free, d, c),
        fl & PRESENT_BIT != 0,
    ensures
        map_fresh(set_page_spec(mem, free, y, p, f, fl).0, set_page_spec(mem, free, y, p, f, fl).1, d, c),
        translate(mem, x, v) is Some ==> translate(set_page_spec(mem, free, y, p, f, fl).0, x, v) is Some,
        forall|i: int|
            (d / 4 <= i < d / 4 + ENTRIES || c / 4 <= i < c / 4 + ENTRIES) && !(!is_present(
                mem[slot(y, TABLE_SPAN, p)],
            ) && i == slot(y, TABLE_SPAN, p)) ==> #[trigger] set_page_spec(mem, free, y, p, f, fl).0[i]
                == mem[i],
        !is_present(mem[slot(y, TABLE_SPAN, p)]) ==> set_page_spec(mem, free, y, p, f, fl).0[slot(
            y,
            TABLE_SPAN,
            p,
        )] == free.last() | fl,
{
    let len = mem.len() as int;
    let ys = slot(y, TABLE_SPAN, p);
    lemma_slot_in_frame(y, TABLE_SPAN, p);
    let e = mem[ys];
    assert(entry_apart(e, d, c, free));
    assert(entry_ok(len, e));
    let (t, m1, f1) = fetch_spec(mem, free, y, p, fl);
    if is_present(e) {
        assert(t != d && t != c && !free.contains(t));
        assert(t % PAGE_SIZE == 0);
    } else {
        assert(free.contains(free[free.len() - 1]));
        assert(frame_fits(len, free[free.len() - 1]));
        assert(t != d && t != c);
        lemma_drop_last_fresh(free);
    }
    let ts = slot(t, PAGE_SIZE, p);
    lemma_slot_in_frame(t, PAGE_SIZE, p);
    let m2 = m1.update(ts, f | fl);
    assert(set_page_spec(mem, free, y, p, f, fl).0 == m2);
    assert(set_page_spec(mem, free, y, p, f, fl).1 == f1);
    assert((fl & 1 != 0) ==> ((f | fl) & 1 != 0)) by (bit_vector);
    crate::page::lemma_entry_round_trip(t, fl);
    // Words of either directory change only at the new directory entry.
    assert forall|i: int|
        (d / 4 <= i < d / 4 + ENTRIES || c / 4 <= i < c / 4 + ENTRIES) && !(!is_present(e) && i
            == ys) implies #[trigger] m2[i] == mem[i] by {
        if d / 4 <= i < d / 4 + ENTRIES {
            lemma_frames_disjoint(t, d, i);
        } else {
            lemma_frames_disjoint(t, c, i);
        }
        if !is_present(e) {
            assert(m1 == zero_frame(mem, t).update(ys, t | fl));
        }
    }
    assert forall|i: int| d / 4 <= i < d / 4 + ENTRIES implies #[trigger] entry_apart(
        m2[i],
        d,
        c,
        f1,
    ) by {
        assert(entry_apart(mem[i], d, c, free));
        if !is_present(e) && i == ys {
            lemma_frames_disjoint(t, d, i);
            assert(m2[i] == t | fl);
        } else {
            assert(m2[i] == mem[i]);
        }
    }
    assert forall|i: int| c / 4 <= i < c / 4 + ENTRIES implies #[trigger] entry_apart(
        m2[i],
        d,
        c,
        f1,
    ) by {
        assert(entry_apart(mem[i], d, c, free));
        if !is_present(e) && i == ys {
            lemma_frames_disjoint(t, c, i);
            assert(m2[i] == t | fl);
        } else {
            assert(m2[i] == mem[i]);
        }
    }
    if translate(mem, x, v) is Some {
        let xs = slot(x, TABLE_SPAN, v);
        lemma_slot_in_frame(x, TABLE_SPAN, v);
        assert(entry_apart(mem[xs], d, c, free));
        assert(entry_ok(len, mem[xs]));
        let tv = frame_of(mem[xs]);
        let vs = slot(tv, PAGE_SIZE, v);
        lemma_slot_in_frame(tv, PAGE_SIZE, v);
        if !is_present(e) {
            assert(xs != ys);
        }
        assert(m2[xs] == mem[xs]);
        assert(tv != d && tv != c && !free.contains(tv));
        if !is_present(e) {
            assert(t != tv);
            lemma_frames_disjoint(t, tv, vs);
            assert(m1 == zero_frame(mem, t).update(ys, t | fl));
            lemma_frames_disjoint(tv, y, ys);
        }
        if ts != vs {
            assert(m2[vs] == mem[vs]);
        }
    }
}

/// What `map` needs before each page, and keeps for the next.
pub open spec fn map_ready(mem: Seq<u32>, free: Seq<u32>, d: u32, c: u32, n: nat, fl: u32) -> bool {
    &&& dir_ok(mem, d)
    &&& dir_ok(mem, c)
    &&& frames_fit(mem.len() as int, free)
    &&& free.len() >= 3 * n
    &&& fl <= FLAG_MASK
    &&& map_fresh(mem, free, d, c)
}

/// The first page of `map`: after it the rest of the walk is ready, and every
/// address that either directory mapped before is still mapped.
proof fn lemma_map_step(mem: Seq<u32>, free: Seq<u32>, d: u32, c: u32, p: u32, n: nat, fl: u32, v: u32)
    requires
        n > 0,
        map_ready(mem, free, d, c, n, fl),
    ensures
        ({
            let f = free.last();
            let (m1, f1) = set_page_spec(mem, free.drop_last(), d, p, f, fl | PRESENT_BIT);
            let (m2, f2) = set_page_spec(m1, f1, c, p, f, fl | PRESENT_BIT);
            &&& map_ready(m2, f2, d, c, (n - 1) as nat, fl)
            &&& free.len() > 0
            &&& set_page_ok(mem, free.drop_last(), d, p)
            &&& set_page_ok(m1, f1, c, p)
            &&& m2.len() == mem.len()
            &&& translate(m2, d, p) is Some
            &&& translate(m2, c, p) is Some
            &&& translate(mem, d, v) is Some ==> translate(m2, d, v) is Some
            &&& translate(mem, c, v) is Some ==> translate(m2, c, v) is Some
            &&& tables_unshared(mem, d, c) ==> {
                &&& tables_unshared(m2, d, c)
                &&& translate(m2, d, p) == Some(f + p % PAGE_SIZE)
                &&& translate(m2, c, p) == Some(f + p % PAGE_SIZE)
                &&& translate(mem, d, v) is Some && v / PAGE_SIZE != p / PAGE_SIZE ==> translate(
                    m2,
                    d,
                    v,
                ) == translate(mem, d, v)
                &&& translate(mem, c, v) is Some && v / PAGE_SIZE != p / PAGE_SIZE ==> translate(
                    m2,
                    c,
                    v,
                ) == translate(mem, c, v)
                &&& translate(mem, d, v) is None && v / PAGE_SIZE != p / PAGE_SIZE ==> translate(
                    m2,
                    d,
                    v,
                ) is None
                &&& translate(mem, c, v) is None && v / PAGE_SIZE != p / PAGE_SIZE ==> translate(
                    m2,
                    c,
                    v,
                ) is None
            }
        }),
{
    let len = mem.len() as int;
    let f = free.last();
    let f0 = free.drop_last();
    let fl1 = fl | PRESENT_BIT;
    assert(fl <= 0xFFF ==> (fl | 1) <= 0xFFF && (fl | 1) & 1 != 0) by (bit_vector);
    assert(frame_fits(len, free[free.len() - 1]));
    lemma_drop_last_fresh(free);
    assert forall|i: int| 0 <= i < f0.len() implies #[trigger] frame_fits(len, f0[i]) by {
        assert(frame_fits(len, free[i]));
    }
    assert forall|i: int| d / 4 <= i < d / 4 + ENTRIES implies #[trigger] entry_apart(
        mem[i],
        d,
        c,
        f0,
    ) by {
        assert(entry_apart(mem[i], d, c, free));
    }
    assert forall|i: int| c / 4 <= i < c / 4 + ENTRIES implies #[trigger] entry_apart(
        mem[i],
        d,
        c,
        f0,
    ) by {
        assert(entry_apart(mem[i], d, c, free));
    }
    assert(map_fresh(mem, f0, d, c));
    lemma_entry_ok_of(len, f, fl1);
    // Through `d`.
    lemma_set_page_ok_of(mem, f0, d, p);
    let (m1, f1) = set_page_spec(mem, f0, d, p, f, fl1);
    lemma_set_page_keeps_ok(mem, f0, d, p, f, fl1, d);
    lemma_set_page_keeps_ok(mem, f0, d, p, f, fl1, c);
    lemma_set_page_keeps_mapped(mem, f0, d, p, f, fl1, d, c, d, v);
    lemma_set_page_keeps_mapped(mem, f0, d, p, f, fl1, d, c, c, v);
    let ds = slot(d, TABLE_SPAN, p);
    lemma_slot_in_frame(d, TABLE_SPAN, p);
    assert(entry_apart(mem[ds], d, c, f0));
    if !is_present(mem[ds]) {
        assert(f0.contains(f0[f0.len() - 1]));
    }
    lemma_set_page_maps(mem, f0, d, p, f, fl1);
    // Through `c`.
    lemma_set_page_ok_of(m1, f1, c, p);
    let (m2, f2) = set_page_spec(m1, f1, c, p, f, fl1);
    lemma_set_page_keeps_ok(m1, f1, c, p, f, fl1, d);
    lemma_set_page_keeps_ok(m1, f1, c, p, f, fl1, c);
    lemma_set_page_keeps_mapped(m1, f1, c, p, f, fl1, d, c, d, v);
    lemma_set_page_keeps_mapped(m1, f1, c, p, f, fl1, d, c, c, v);
    lemma_set_page_keeps_mapped(m1, f1, c, p, f, fl1, d, c, d, p);
    let cs = slot(c, TABLE_SPAN, p);
    lemma_slot_in_frame(c, TABLE_SPAN, p);
    assert(entry_apart(m1[cs], d, c, f1));
    if !is_present(m1[cs]) {
        assert(f1.len() > 0);
        assert(f1.contains(f1[f1.len() - 1]));
    }
    lemma_set_page_maps(m1, f1, c, p, f, fl1);
    if tables_unshared(mem, d, c) {
        lemma_set_page_keeps_translation(mem, f0, d, p, f, fl1, d, c, d, v);
        lemma_set_page_keeps_translation(mem, f0, d, p, f, fl1, d, c, c, v);
        lemma_set_page_keeps_translation(m1, f1, c, p, f, fl1, d, c, d, v);
        lemma_set_page_keeps_translation(m1, f1, c, p, f, fl1, d, c, c, v);
        lemma_set_page_keeps_translation(m1, f1, c, p, f, fl1, d, c, d, p);
    }
}

/// `map` keeps mapped every address that either directory already mapped.
proof fn lemma_map_keeps_mapped(
    mem: Seq<u32>,
    free: Seq<u32>,
    d: u32,
    c: u32,
    p: u32,
    n: nat,
    fl: u32,
    x: u32,
    v: u32,
)
    requires
        map_ready(mem, free, d, c, n, fl),
        x == d || x == c,
        translate(mem, x, v) is Some,
    ensures
        translate(map_spec(mem, free, d, c, p, n, fl).0, x, v) is Some,
    decreases n,
{
    if n > 0 {
        lemma_map_step(mem, free, d, c, p, n, fl, v);
        let f = free.last();
        let (m1, f1) = set_page_spec(mem, free.drop_last(), d, p, f, fl | PRESENT_BIT);
        let (m2, f2) = set_page_spec(m1, f1, c, p, f, fl | PRESENT_BIT);
        lemma_map_keeps_mapped(m2, f2, d, c, (p + PAGE_SIZE) as u32, (n - 1) as nat, fl, x, v);
    }
}

/// After `map` of `n` pages from `p` on, with the frames kept apart, every
/// one of those pages is mapped both in the directory at `d` and in the
/// current directory at `c`, and everything mapped before stays mapped.
pub proof fn lemma_map_maps(mem: Seq<u32>, free: Seq<u32>, d: u32, c: u32, p: u32, n: nat, fl: u32)
    requires
        map_ready(mem, free, d, c, n, fl),
        p + PAGE_SIZE * n <= u32::MAX,
    ensures
        forall|k: int|
            0 <= k < n ==> #[trigger] translate(
                map_spec(mem, free, d, c, p, n, fl).0,
                d,
                (p + PAGE_SIZE * k) as u32,
            ) is Some && translate(
                map_spec(mem, free, d, c, p, n, fl).0,
                c,
                (p + PAGE_SIZE * k) as u32,
            ) is Some,
        forall|v: u32|
            #[trigger] translate(mem, d, v) is Some ==> translate(
                map_spec(mem, free, d, c, p, n, fl).0,
                d,
                v,
            ) is Some,
        forall|v: u32|
            #[trigger] translate(mem, c, v) is Some ==> translate(
                map_spec(mem, free, d, c, p, n, fl).0,
                c,
                v,
            ) is Some,
    decreases n,
{
    assert forall|v: u32| #[trigger] translate(mem, d, v) is Some implies translate(
        map_spec(mem, free, d, c, p, n, fl).0,
        d,
        v,
    ) is Some by {
        lemma_map_keeps_mapped(mem, free, d, c, p, n, fl, d, v);
    }
    assert forall|v: u32| #[trigger] translate(mem, c, v) is Some implies translate(
        map_spec(mem, free, d, c, p, n, fl).0,
        c,
        v,
    ) is Some by {
        lemma_map_keeps_mapped(mem, free, d, c, p, n, fl, c, v);
    }
    if n > 0 {
        lemma_map_step(mem, free, d, c, p, n, fl, p);
        let f = free.last();
        let (m1, f1) = set_page_spec(mem, free.drop_last(), d, p, f, fl | PRESENT_BIT);
        let (m2, f2) = set_page_spec(m1, f1, c, p, f, fl | PRESENT_BIT);
        let q = (p + PAGE_SIZE) as u32;
        assert(q == p + PAGE_SIZE);
        assert(q + PAGE_SIZE * (n - 1) <= u32::MAX) by (nonlinear_arith)
            requires
                q == p + 4096,
                p + 4096 * n <= u32::MAX,
                n > 0,
        ;
        lemma_map_maps(m2, f2, d, c, q, (n - 1) as nat, fl);
        assert(map_spec(mem, free, d, c, p, n, fl) == map_spec(m2, f2, d, c, q, (n - 1) as nat, fl));
        assert forall|k: int| 0 <= k < n implies #[trigger] translate(
            map_spec(mem, free, d, c, p, n, fl).0,
            d,
            (p + PAGE_SIZE * k) as u32,
        ) is Some && translate(map_spec(mem, free, d, c, p, n, fl).0, c, (p + PAGE_SIZE * k) as u32)
            is Some by {
            if k == 0 {
                assert((p + PAGE_SIZE * k) as u32 == p);
                lemma_map_keeps_mapped(m2, f2, d, c, q, (n - 1) as nat, fl, d, p);
                lemma_map_keeps_mapped(m2, f2, d, c, q, (n - 1) as nat, fl, c, p);
            } else {
                assert((p + PAGE_SIZE * k) as u32 == (q + PAGE_SIZE * (k - 1)) as u32) by (nonlinear_arith)
                    requires
                        q == p + 4096,
                ;
                assert(translate(
                    map_spec(m2, f2, d, c, q, (n - 1) as nat, fl).0,
                    d,
                    (q + PAGE_SIZE * (k - 1)) as u32,
                ) is Some);
            }
        }
    }
}

/// Good directories, frames kept apart, and three free frames in memory for
/// each page make every step of `map` safe.
pub proof fn lemma_map_ready_ok(mem: Seq<u32>, free: Seq<u32>, d: u32, c: u32, p: u32, n: nat, fl: u32)
    requires
        map_ready(mem, free, d, c, n, fl),
    ensures
        map_ok(mem, free, d, c, p, n, fl),
    decreases n,
{
    if n > 0 {
        lemma_map_step(mem, free, d, c, p, n, fl, p);
        let f = free.last();
        let (m1, f1) = set_page_spec(mem, free.drop_last(), d, p, f, fl | PRESENT_BIT);
        let (m2, f2) = set_page_spec(m1, f1, c, p, f, fl | PRESENT_BIT);
        lemma_map_ready_ok(m2, f2, d, c, (p + PAGE_SIZE) as u32, (n - 1) as nat, fl);
    }
}

/// The page table that the directory at `x` holds for the 4 MiB region `r`,
/// if its entry is present.
pub open spec fn region_table(mem: Seq<u32>, x: u32, r: int) -> Option<u32> {
    if is_present(mem[x / 4 + r]) {
        Some(frame_of(mem[x / 4 + r]))
    } else {
        None
    }
}

/// No page table serves two different regions in the directories `d` and
/// `c` (one table may serve the same region in both).
pub open spec fn tables_unshared(mem: Seq<u32>, d: u32, c: u32) -> bool {
    forall|x: u32, y: u32, r: int, s: int|
        #![trigger region_table(mem, x, r), region_table(mem, y, s)]
        (x == d || x == c) && (y == d || y == c) && 0 <= r < ENTRIES && 0 <= s < ENTRIES
            && region_table(mem, x, r) is Some && region_table(mem, x, r) == region_table(mem, y, s)
            ==> r == s
}

/// Two addresses in the same region and at the same entry of its table lie
/// in the same page.
proof fn lemma_same_page(v: u32, p: u32)
    requires
        (v / TABLE_SPAN) % ENTRIES == (p / TABLE_SPAN) % ENTRIES,
        (v / PAGE_SIZE) % ENTRIES == (p / PAGE_SIZE) % ENTRIES,
    ensures
        v / PAGE_SIZE == p / PAGE_SIZE,
{
    assert(v / 4096 == (v / 0x40_0000) * 1024 + (v / 4096) % 1024) by (nonlinear_arith);
    assert(p / 4096 == (p / 0x40_0000) * 1024 + (p / 4096) % 1024) by (nonlinear_arith);
    assert(v / 0x40_0000 < 1024 && p / 0x40_0000 < 1024);
}

/// One `set_page` for the page of `p` keeps tables unshared and keeps the
/// translation of any address `v` that either directory maps, unless `v`
/// lies in that page and is sent to another frame.
proof fn lemma_set_page_keeps_translation(
    mem: Seq<u32>,
    free: Seq<u32>,
    y: u32,
    p: u32,
    f: u32,
    fl: u32,
    d: u32,
    c: u32,
    x: u32,
    v: u32,
)
    requires
        set_page_ok(mem, free, y, p),
        fl <= FLAG_MASK,
        y == d || y == c,
        x == d || x == c,
        dir_ok(mem, d),
        dir_ok(mem, c),
        map_fresh(mem, free, d, c),
        tables_unshared(mem, d, c),
        fl & PRESENT_BIT != 0,
    ensures
        tables_unshared(set_page_spec(mem, free, y, p, f, fl).0, d, c),
        translate(mem, x, v) is Some && (v / PAGE_SIZE != p / PAGE_SIZE || mem[slot(
            frame_of(mem[slot(x, TABLE_SPAN, v)]),
            PAGE_SIZE,
            v,
        )] == f | fl) ==> translate(set_page_spec(mem, free, y, p, f, fl).0, x, v) == translate(
            mem,
            x,
            v,
        ),
        translate(mem, x, v) is None && v / PAGE_SIZE != p / PAGE_SIZE ==> translate(
            set_page_spec(mem, free, y, p, f, fl).0,
            x,
            v,
        ) is None,
{
    lemma_set_page_keeps_mapped(mem, free, y, p, f, fl, d, c, x, v);
    let len = mem.len() as int;
    let ys = slot(y, TABLE_SPAN, p);
    lemma_slot_in_frame(y, TABLE_SPAN, p);
    let e = mem[ys];
    assert(entry_apart(e, d, c, free));
    assert(entry_ok(len, e));
    let (t, m1, f1) = fetch_spec(mem, free, y, p, fl);
    if !is_present(e) {
        assert(free.contains(free[free.len() - 1]));
        assert(frame_fits(len, free[free.len() - 1]));
    }
    let ts = slot(t, PAGE_SIZE, p);
    lemma_slot_in_frame(t, PAGE_SIZE, p);
    let m2 = m1.update(ts, f | fl);
    assert(set_page_spec(mem, free, y, p, f, fl).0 == m2);
    crate::page::lemma_entry_round_trip(t, fl);
    assert(d % PAGE_SIZE == 0 && c % PAGE_SIZE == 0);
    // Tables stay unshared.
    assert forall|x1: u32, y1: u32, r: int, s1: int|
        #![trigger region_table(m2, x1, r), region_table(m2, y1, s1)]
        (x1 == d || x1 == c) && (y1 == d || y1 == c) && 0 <= r < ENTRIES && 0 <= s1 < ENTRIES
            && region_table(m2, x1, r) is Some && region_table(m2, x1, r) == region_table(m2, y1, s1)
            implies r == s1 by {
        let i = x1 / 4 + r;
        let j = y1 / 4 + s1;
        let new_i = !is_present(e) && i == ys;
        let new_j = !is_present(e) && j == ys;
        if !new_i {
            assert(m2[i] == mem[i]);
        }
        if !new_j {
            assert(m2[j] == mem[j]);
        }
        if !new_i && !new_j {
            assert(region_table(mem, x1, r) == region_table(m2, x1, r));
            assert(region_table(mem, y1, s1) == region_table(m2, y1, s1));
        } else if new_i && new_j {
            if x1 != y1 {
                lemma_frames_disjoint(x1, y1, j);
            }
        } else if new_i {
            assert(m2[i] == t | fl);
            assert(entry_apart(mem[j], d, c, free));
            assert(free.contains(t));
        } else {
            assert(m2[j] == t | fl);
            assert(entry_apart(mem[i], d, c, free));
            assert(free.contains(t));
        }
    }
    if translate(mem, x, v) is Some && (v / PAGE_SIZE != p / PAGE_SIZE || mem[slot(
        frame_of(mem[slot(x, TABLE_SPAN, v)]),
        PAGE_SIZE,
        v,
    )] == f | fl) {
        let xs = slot(x, TABLE_SPAN, v);
        lemma_slot_in_frame(x, TABLE_SPAN, v);
        assert(entry_apart(mem[xs], d, c, free));
        assert(entry_ok(len, mem[xs]));
        let tv = frame_of(mem[xs]);
        let vs = slot(tv, PAGE_SIZE, v);
        lemma_slot_in_frame(tv, PAGE_SIZE, v);
        if !is_present(e) {
            assert(xs != ys);
        }
        assert(m2[xs] == mem[xs]);
        if !is_present(e) {
            assert(t != tv);
            lemma_frames_disjoint(t, tv, vs);
            assert(m1 == zero_frame(mem, t).update(ys, t | fl));
            lemma_frames_disjoint(tv, y, ys);
        }
        assert(m1[vs] == mem[vs]);
        if ts == vs && m2[vs] != mem[vs] {
            if t != tv {
                lemma_frames_disjoint(t, tv, vs);
            }
            assert(t == tv);
            assert(is_present(e));
            let rp = (p / TABLE_SPAN) % ENTRIES;
            let rv = (v / TABLE_SPAN) % ENTRIES;
            assert(region_table(mem, y, rp as int) == Some(t));
            assert(region_table(mem, x, rv as int) == Some(tv));
            assert(rp == rv);
            lemma_same_page(v, p);
        }
    }
    if translate(mem, x, v) is None && v / PAGE_SIZE != p / PAGE_SIZE {
        let xs = slot(x, TABLE_SPAN, v);
        lemma_slot_in_frame(x, TABLE_SPAN, v);
        assert(entry_apart(mem[xs], d, c, free));
        assert(entry_ok(len, mem[xs]));
        assert(entry_apart(e, d, c, free));
        if !is_present(e) {
            assert(free.contains(t));
            assert(t != x);
            lemma_frames_disjoint(t, x, xs);
            assert(m1 == zero_frame(mem, t).update(ys, t | fl));
        } else {
            assert(t != x);
        }
        lemma_frames_disjoint(t, x, xs);
        assert(ts != xs);
        if !is_present(e) && xs == ys {
            // A fresh, cleared table now serves the region of `v`.
            if x != y {
                lemma_frames_disjoint(x, y, ys);
            }
            assert(x == y);
            assert((v / TABLE_SPAN) % ENTRIES == (p / TABLE_SPAN) % ENTRIES);
            assert(m2[xs] == t | fl);
            let vs = slot(t, PAGE_SIZE, v);
            lemma_slot_in_frame(t, PAGE_SIZE, v);
            lemma_frames_disjoint(y, t, vs);
            assert(m1[vs] == 0);
            if vs == ts {
                lemma_same_page(v, p);
            }
            assert(m2[vs] == 0);
            assert(!is_present(0u32)) by (bit_vector);
        } else {
            assert(m2[xs] == mem[xs]);
            if is_present(mem[xs]) {
                let tv = frame_of(mem[xs]);
                let vs = slot(tv, PAGE_SIZE, v);
                lemma_slot_in_frame(tv, PAGE_SIZE, v);
                assert(tv != d && tv != c && !free.contains(tv));
                if !is_present(e) {
                    assert(t != tv);
                    lemma_frames_disjoint(t, tv, vs);
                    lemma_frames_disjoint(tv, y, ys);
                }
                assert(m1[vs] == mem[vs]);
                if ts == vs {
                    if t != tv {
                        lemma_frames_disjoint(t, tv, vs);
                    }
                    assert(t == tv);
                    assert(is_present(e));
                    let rp = (p / TABLE_SPAN) % ENTRIES;
                    let rv = (v / TABLE_SPAN) % ENTRIES;
                    assert(region_table(mem, y, rp as int) == Some(t));
                    assert(region_table(mem, x, rv as int) == Some(tv));
                    assert(rp == rv);
                    lemma_same_page(v, p);
                }
                assert(m2[vs] == mem[vs]);
            }
        }
    }
}

/// The frames that `map` of `n` pages from `p` on gives to the pages, in the
/// order of the pages.
pub open spec fn map_frames(
    mem: Seq<u32>,
    free: Seq<u32>,
    d: u32,
    c: u32,
    p: u32,
    n: nat,
    flags: u32,
) -> Seq<u32>
    decreases n,
{
    if n == 0 {
        Seq::empty()
    } else {
        let f = free.last();
        let (m1, f1) = set_page_spec(mem, free.drop_last(), d, p, f, flags | PRESENT_BIT);
        let (m2, f2) = set_page_spec(m1, f1, c, p, f, flags | PRESENT_BIT);
        seq![f] + map_frames(m2, f2, d, c, (p + PAGE_SIZE) as u32, (n - 1) as nat, flags)
    }
}

/// `map` keeps the translation of every address outside the pages it maps,
/// mapped or not, when tables are unshared.
proof fn lemma_map_keeps_translation(
    mem: Seq<u32>,
    free: Seq<u32>,
    d: u32,
    c: u32,
    p: u32,
    n: nat,
    fl: u32,
    x: u32,
    v: u32,
)
    requires
        map_ready(mem, free, d, c, n, fl),
        tables_unshared(mem, d, c),
        x == d || x == c,
        p + PAGE_SIZE * n <= u32::MAX,
        v / PAGE_SIZE < p / PAGE_SIZE || v / PAGE_SIZE >= p / PAGE_SIZE + n,
    ensures
        translate(map_spec(mem, free, d, c, p, n, fl).0, x, v) == translate(mem, x, v),
    decreases n,
{
    if n > 0 {
        lemma_map_step(mem, free, d, c, p, n, fl, v);
        let f = free.last();
        let (m1, f1) = set_page_spec(mem, free.drop_last(), d, p, f, fl | PRESENT_BIT);
        let (m2, f2) = set_page_spec(m1, f1, c, p, f, fl | PRESENT_BIT);
        let q = (p + PAGE_SIZE) as u32;
        assert(q / PAGE_SIZE == p / PAGE_SIZE + 1);
        assert(q + PAGE_SIZE * (n - 1) <= u32::MAX) by (nonlinear_arith)
            requires
                q == p + 4096,
                p + 4096 * n <= u32::MAX,
                n > 0,
        ;
        lemma_map_keeps_translation(m2, f2, d, c, q, (n - 1) as nat, fl, x, v);
    }
}

/// After `map` of `n` pages from `p` on, with the frames kept apart and no
/// page table serving two regions, page `k` of the run is sent, in the
/// directory at `d` and in the current directory at `c` alike, to the `k`-th
/// frame that `map` took, at the offset of `p` within its page.
pub proof fn lemma_map_frames(mem: Seq<u32>, free: Seq<u32>, d: u32, c: u32, p: u32, n: nat, fl: u32)
    requires
        map_ready(mem, free, d, c, n, fl),
        tables_unshared(mem, d, c),
        p + PAGE_SIZE * n <= u32::MAX,
    ensures
        map_frames(mem, free, d, c, p, n, fl).len() == n,
        forall|k: int|
            0 <= k < n ==> #[trigger] translate(
                map_spec(mem, free, d, c, p, n, fl).0,
                d,
                (p + PAGE_SIZE * k) as u32,
            ) == Some(map_frames(mem, free, d, c, p, n, fl)[k] + p % PAGE_SIZE) && translate(
                map_spec(mem, free, d, c, p, n, fl).0,
                c,
                (p + PAGE_SIZE * k) as u32,
            ) == Some(map_frames(mem, free, d, c, p, n, fl)[k] + p % PAGE_SIZE),
    decreases n,
{
    if n > 0 {
        lemma_map_step(mem, free, d, c, p, n, fl, p);
        let f = free.last();
        let (m1, f1) = set_page_spec(mem, free.drop_last(), d, p, f, fl | PRESENT_BIT);
        let (m2, f2) = set_page_spec(m1, f1, c, p, f, fl | PRESENT_BIT);
        let q = (p + PAGE_SIZE) as u32;
        assert(q == p + PAGE_SIZE);
        assert(q / PAGE_SIZE == p / PAGE_SIZE + 1);
        assert(q % PAGE_SIZE == p % PAGE_SIZE);
        assert(q + PAGE_SIZE * (n - 1) <= u32::MAX) by (nonlinear_arith)
            requires
                q == p + 4096,
                p + 4096 * n <= u32::MAX,
                n > 0,
        ;
        lemma_map_frames(m2, f2, d, c, q, (n - 1) as nat, fl);
        lemma_map_keeps_translation(m2, f2, d, c, q, (n - 1) as nat, fl, d, p);
        lemma_map_keeps_translation(m2, f2, d, c, q, (n - 1) as nat, fl, c, p);
        let tail = map_frames(m2, f2, d, c, q, (n - 1) as nat, fl);
        assert(map_frames(mem, free, d, c, p, n, fl) == seq![f] + tail);
        assert(map_spec(mem, free, d, c, p, n, fl) == map_spec(m2, f2, d, c, q, (n - 1) as nat, fl));
        assert forall|k: int| 0 <= k < n implies #[trigger] translate(
            map_spec(mem, free, d, c, p, n, fl).0,
            d,
            (p + PAGE_SIZE * k) as u32,
        ) == Some(map_frames(mem, free, d, c, p, n, fl)[k] + p % PAGE_SIZE) && translate(
            map_spec(mem, free, d, c, p, n, fl).0,
            c,
            (p + PAGE_SIZE * k) as u32,
        ) == Some(map_frames(mem, free, d, c, p, n, fl)[k] + p % PAGE_SIZE) by {
            if k == 0 {
                assert((p + PAGE_SIZE * k) as u32 == p);
            } else {
                assert((p + PAGE_SIZE * k) as u32 == (q + PAGE_SIZE * (k - 1)) as u32) by (nonlinear_arith)
                    requires
                        q == p + 4096,
                ;
                assert(map_frames(mem, free, d, c, p, n, fl)[k] == tail[k - 1]);
                assert(translate(
                    map_spec(m2, f2, d, c, q, (n - 1) as nat, fl).0,
                    d,
                    (q + PAGE_SIZE * (k - 1)) as u32,
                ) == Some(tail[k - 1] + q % PAGE_SIZE));
            }
        }
    }
}


/// `map` of `len` bytes from `page_ptr` maps one page for each started
/// `PAGE_SIZE` bytes of `len`, that is `ceil(len / PAGE_SIZE)` pages from the
/// page of `page_ptr` on, in the directory at `d` and in the current one at
/// `c`; every address outside those pages, mapped before or not, translates
/// as it did before, in both directories.
pub proof fn lemma_map_covers_exactly(
    mem: Seq<u32>,
    free: Seq<u32>,
    d: u32,
    c: u32,
    page_ptr: u32,
    len: u32,
    fl: u32,
)
    requires
        map_ready(mem, free, d, c, ((len + 4095) / 4096) as nat, fl),
        tables_unshared(mem, d, c),
        page_ptr + 4096 * ((len + 4095) / 4096) <= u32::MAX,
    ensures
        forall|k: int|
            0 <= k < (len + 4095) / 4096 ==> {
                &&& #[trigger] translate(
                    map_spec(mem, free, d, c, page_ptr, page_count(len), fl).0,
                    d,
                    (page_ptr + 4096 * k) as u32,
                ) is Some
                &&& translate(
                    map_spec(mem, free, d, c, page_ptr, page_count(len), fl).0,
                    c,
                    (page_ptr + 4096 * k) as u32,
                ) is Some
            },
        forall|v: u32|
            v / 4096 < page_ptr / 4096 || v / 4096 >= page_ptr / 4096 + (len + 4095) / 4096 ==> {
                &&& #[trigger] translate(
                    map_spec(mem, free, d, c, page_ptr, page_count(len), fl).0,
                    d,
                    v,
                ) == translate(mem, d, v)
                &&& translate(map_spec(mem, free, d, c, page_ptr, page_count(len), fl).0, c, v)
                    == translate(mem, c, v)
            },
{
    let n = page_count(len);
    assert(n == (len + 4095) / 4096);
    lemma_map_frames(mem, free, d, c, page_ptr, n, fl);
    assert forall|v: u32|
        v / 4096 < page_ptr / 4096 || v / 4096 >= page_ptr / 4096 + (len + 4095) / 4096 implies {
        &&& #[trigger] translate(map_spec(mem, free, d, c, page_ptr, n, fl).0, d, v) == translate(
            mem,
            d,
            v,
        )
        &&& translate(map_spec(mem, free, d, c, page_ptr, n, fl).0, c, v) == translate(mem, c, v)
    } by {
        lemma_map_keeps_translation(mem, free, d, c, page_ptr, n, fl, d, v);
        lemma_map_keeps_translation(mem, free, d, c, page_ptr, n, fl, c, v);
    }
}

} // verus!
