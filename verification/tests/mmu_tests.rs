use rustboot::mmu::{init, switch_directory, HwOp, Machine, Table, DIR_VADDR, TEMP1};
use rustboot::page::{Flags, Page, PAGE_SIZE, TABLE_SPAN};

const FRAMES: u32 = 64;

/// A machine with `FRAMES` frames of memory, all of them from frame 16 on
/// free (the highest handed out first).
fn machine() -> Machine {
    Machine {
        mem: vec![0xDEAD_BEEF; (FRAMES * 1024) as usize],
        free: (16..FRAMES).map(|f| f * PAGE_SIZE).collect(),
        cr3: Page(0),
        cr0: 0x11,
        ops: Vec::new(),
    }
}

fn word(m: &Machine, addr: u32) -> u32 {
    m.mem[(addr / 4) as usize]
}

/// Walks the two levels of tables as the processor does.
fn translate(m: &Machine, dir: u32, v: u32) -> Option<u32> {
    let pde = word(m, dir + 4 * (v >> 22));
    if pde & 1 == 0 {
        return None;
    }
    let pte = word(m, (pde & 0xFFFF_F000) + 4 * ((v >> 12) & 0x3FF));
    if pte & 1 == 0 {
        return None;
    }
    Some((pte & 0xFFFF_F000) + (v & 0xFFF))
}

#[test]
fn init_maps_low_memory_to_itself() {
    let mut m = machine();
    init(&mut m);
    let dir = 63 * PAGE_SIZE;
    let table = 62 * PAGE_SIZE;
    assert_eq!(m.cr3, Page(dir));
    assert_eq!(m.cr0, 0x8000_0011);
    assert_eq!(
        m.ops,
        vec![
            HwOp::FlushTlb(0),
            HwOp::FlushTlb(DIR_VADDR),
            HwOp::InstallHandler(14, true),
            HwOp::LoadCr3(dir),
            HwOp::LoadCr0(0x8000_0011),
        ]
    );
    assert_eq!(m.free.len(), (FRAMES - 16 - 2) as usize);
    assert_eq!(word(&m, dir), table | 3);
    assert_eq!(word(&m, dir + 4 * 1023), dir | 3);
    for k in 1..1023 {
        assert_eq!(word(&m, dir + 4 * k), 0);
    }
    for i in 0..1024u32 {
        assert_eq!(word(&m, table + 4 * i), (i << 12) | 3);
    }
    for v in [0u32, 0x1234, 0xB8000, 0x3F_FFFF] {
        assert_eq!(translate(&m, dir, v), Some(v));
    }
    assert_eq!(translate(&m, dir, DIR_VADDR + 0x10), Some(dir + 0x10));
    assert_eq!(translate(&m, dir, 0x40_0000), None);
    assert_eq!(translate(&m, dir, 0xFFBF_FFFF), None);
}

#[test]
fn table_set_and_get_use_the_entry_span() {
    let mut m = machine();
    let dir = Table::page_directory(2 * PAGE_SIZE);
    dir.set(&mut m.mem, 3 * TABLE_SPAN + 0x1234, Page(0x5003));
    assert_eq!(word(&m, 2 * PAGE_SIZE + 12), 0x5003);
    assert_eq!(dir.get(&m.mem, 3 * TABLE_SPAN), Page(0x5003));
    let pt = Table::page_table(3 * PAGE_SIZE);
    pt.set(&mut m.mem, 5 * PAGE_SIZE + 7, Page(0x7001));
    assert_eq!(word(&m, 3 * PAGE_SIZE + 20), 0x7001);
    // The index wraps around the table.
    assert_eq!(pt.get(&m.mem, (1024 + 5) * PAGE_SIZE), Page(0x7001));
}

#[test]
fn set_page_makes_a_table_when_needed() {
    let mut m = machine();
    init(&mut m);
    let dir = Table::page_directory(m.cr3.physical());
    let flags = Flags::present().union(Flags::rw());
    m.ops.clear();
    let r = dir.set_page(&mut m, 0x0040_5000, 0x0002_0000, flags);
    assert_eq!(r, 0x0040_5000);
    assert_eq!(m.ops, vec![HwOp::FlushTlb(0x0040_5000), HwOp::FlushTlb(0x0040_5000)]);
    let table = 61 * PAGE_SIZE;
    assert_eq!(word(&m, dir.base + 4), table | 3);
    assert_eq!(word(&m, table + 4 * 5), 0x0002_0003);
    assert_eq!(word(&m, table), 0);
    assert_eq!(translate(&m, dir.base, 0x0040_5ABC), Some(0x0002_0ABC));
    // A second page in the same 4 MiB reuses the table.
    let before = m.free.len();
    m.ops.clear();
    dir.set_page(&mut m, 0x0040_6000, 0x0002_1000, flags);
    assert_eq!(m.free.len(), before);
    assert_eq!(m.ops, vec![HwOp::FlushTlb(0x0040_6000)]);
    assert_eq!(translate(&m, dir.base, 0x0040_6000), Some(0x0002_1000));
    // A page in the first 4 MiB goes into the identity table.
    dir.set_page(&mut m, 0x0000_1000, 0x0003_0000, flags);
    assert_eq!(translate(&m, dir.base, 0x1000), Some(0x0003_0000));
}

#[test]
fn map_frame_takes_a_free_frame() {
    let mut m = machine();
    init(&mut m);
    let dir = Table::page_directory(m.cr3.physical());
    dir.map_frame(&mut m, 0x0080_0000, Flags::rw());
    // Frame 61 is mapped; frame 60 became the page table.
    assert_eq!(translate(&m, dir.base, 0x0080_0010), Some(61 * PAGE_SIZE + 0x10));
    assert_eq!(word(&m, dir.base + 4 * 2), 60 * PAGE_SIZE | 3);
    assert_eq!(m.free.len(), (FRAMES - 16 - 4) as usize);
}

#[test]
fn map_covers_every_page_of_the_run() {
    let mut m = machine();
    init(&mut m);
    let cur = m.cr3.physical();
    m.ops.clear();
    rustboot::mmu::map(&mut m, 0x0100_0000, 3 * PAGE_SIZE - 5, Flags::user());
    // A new table for the first page, then each page entered twice (once per
    // directory, both the current one).
    assert_eq!(
        m.ops,
        vec![
            HwOp::FlushTlb(0x0100_0000),
            HwOp::FlushTlb(0x0100_0000),
            HwOp::FlushTlb(0x0100_0000),
            HwOp::FlushTlb(0x0100_1000),
            HwOp::FlushTlb(0x0100_1000),
            HwOp::FlushTlb(0x0100_2000),
            HwOp::FlushTlb(0x0100_2000),
        ]
    );
    for k in 0..3u32 {
        let v = 0x0100_0000 + k * PAGE_SIZE;
        let p = translate(&m, cur, v).expect("mapped");
        assert_eq!(p & 0xFFF, 0);
        let pde = word(&m, cur + 4 * (v >> 22));
        let pte = word(&m, (pde & 0xFFFF_F000) + 4 * ((v >> 12) & 0x3FF));
        assert_eq!(pte & 0xFFF, 0x5);
    }
    assert_eq!(translate(&m, cur, 0x0100_3000), None);
    // The first page takes frame 61 and then frame 60 becomes its page table;
    // the next pages take frames 59 and 58.
    assert_eq!(translate(&m, cur, 0x0100_0004), Some(61 * PAGE_SIZE + 4));
    assert_eq!(translate(&m, cur, 0x0100_1000), Some(59 * PAGE_SIZE));
    assert_eq!(translate(&m, cur, 0x0100_2000), Some(58 * PAGE_SIZE));
    // One frame per page and one page table.
    assert_eq!(m.free.len(), (FRAMES - 16 - 2 - 3 - 1) as usize);
}

#[test]
fn map_into_another_directory_maps_in_both() {
    let mut m = machine();
    init(&mut m);
    let cur = m.cr3.physical();
    let other = Table::page_directory(20 * PAGE_SIZE);
    for k in 0..1024 {
        m.mem[(20 * 1024 + k) as usize] = 0;
    }
    other.map(&mut m, 0x0200_0000, PAGE_SIZE, Flags::rw());
    let a = translate(&m, other.base, 0x0200_0000).unwrap();
    let b = translate(&m, cur, 0x0200_0000).unwrap();
    assert_eq!(a, b);
    assert_eq!(a, 61 * PAGE_SIZE);
}

#[test]
fn map_of_nothing_changes_nothing() {
    let mut m = machine();
    init(&mut m);
    let mem = m.mem.clone();
    let free = m.free.clone();
    rustboot::mmu::map(&mut m, 0x0100_0000, 0, Flags::rw());
    assert_eq!(m.mem, mem);
    assert_eq!(m.free, free);
}

#[test]
fn clone_shares_the_user_part() {
    let mut m = machine();
    init(&mut m);
    let cur = Table::page_directory(m.cr3.physical());
    cur.set_page(&mut m, 0x0800_0000, 0x0002_0000, Flags::present());
    cur.set_page(&mut m, 0xC000_0000, 0x0002_1000, Flags::present());
    m.ops.clear();
    let nd = cur.clone(&mut m);
    assert_eq!(m.ops, vec![HwOp::FlushTlb(TEMP1), HwOp::FlushTlb(TEMP1)]);
    assert_eq!(nd % PAGE_SIZE, 0);
    for k in 0..768u32 {
        assert_eq!(word(&m, nd + 4 * k), word(&m, cur.base + 4 * k));
    }
    for k in 768..1023u32 {
        assert_eq!(word(&m, nd + 4 * k), 0);
    }
    assert_eq!(word(&m, nd + 4 * 1023), nd | 3);
    assert_eq!(translate(&m, nd, 0x0800_0123), Some(0x0002_0123));
    assert_eq!(translate(&m, nd, 0xC000_0000), None);
    // The new directory is reachable at TEMP1 through the current one.
    assert_eq!(translate(&m, cur.base, TEMP1), Some(nd));
}

#[test]
fn switch_directory_loads_cr3() {
    let mut m = machine();
    switch_directory(&mut m, 5 * PAGE_SIZE);
    assert_eq!(m.cr3, Page(5 * PAGE_SIZE));
    assert_eq!(m.ops, vec![HwOp::LoadCr3(5 * PAGE_SIZE)]);
}
