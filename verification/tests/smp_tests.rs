use rustboot::smp::{init, MpInfo};

const MEM: usize = 0x12_0010;

fn put32(m: &mut [u8], at: usize, v: u32) {
    m[at..at + 4].copy_from_slice(&v.to_le_bytes());
}

/// Low memory whose base-memory size is 640 KiB, no EBDA pointer.
fn low_memory() -> Vec<u8> {
    let mut m = vec![0u8; MEM];
    // The second search pointer is (0x02 << 8 | 0x7F << 4) * 1024 - 1024, both
    // shifts within a byte: (0x00 | 0xF0) * 1024 - 1024 = 0x3BC00.
    m[0x413] = 0x7F;
    m[0x414] = 0x02;
    m
}

/// A configuration table at `conf` with the given entries.
fn put_config(m: &mut [u8], conf: usize, version: u8, entries: &[u8]) {
    put32(m, conf, 0x504D_4350);
    let len = (44 + entries.len()) as u16;
    m[conf + 4..conf + 6].copy_from_slice(&len.to_le_bytes());
    m[conf + 6] = version;
    m[conf + 44..conf + 44 + entries.len()].copy_from_slice(entries);
}

fn entries(kinds: &[u8]) -> Vec<u8> {
    let mut v = Vec::new();
    for &k in kinds {
        let size = match k {
            0 => 20,
            _ => 8,
        };
        let mut e = vec![0u8; size];
        e[0] = k;
        v.extend(e);
    }
    v
}

#[test]
fn finds_the_table_in_the_bios_rom() {
    let mut m = low_memory();
    put32(&mut m, 0xF5A10, 0x5F50_4D5F);
    put32(&mut m, 0xF5A14, 0x9_0000);
    put_config(&mut m, 0x9_0000, 4, &entries(&[0, 0, 2, 4, 0]));
    assert_eq!(init(&m), Some(MpInfo { processors: 3, io_apics: 1 }));
}

#[test]
fn finds_the_table_through_the_base_memory_pointer() {
    let mut m = low_memory();
    put32(&mut m, 0x3_BC40, 0x5F50_4D5F);
    put32(&mut m, 0x3_BC44, 0x8_0000);
    put_config(&mut m, 0x8_0000, 1, &entries(&[0, 2, 2]));
    assert_eq!(init(&m), Some(MpInfo { processors: 1, io_apics: 2 }));
}

#[test]
fn a_wrapped_base_memory_pointer_searches_from_the_top_of_memory_round() {
    // 0x413 = 0x10: (0x10 << 4) as a byte is 0, so the pointer is
    // 0 * 1024 - 1024 = 0xFFFF_FC00; its 4 KiB window ends at 0xC00, and the signed
    // comparison walks 0xFFFF_FC00 ..= 0xFFFF_FFFF, then 0 .. 0xC00.
    let mut m = low_memory();
    m[0x413] = 0x10;
    m[0x40E] = 0xF0;
    put32(&mut m, 0x800, 0x5F50_4D5F);
    put32(&mut m, 0x804, 0x9_0000);
    put_config(&mut m, 0x9_0000, 4, &entries(&[0, 0, 0]));
    assert_eq!(init(&m), Some(MpInfo { processors: 3, io_apics: 0 }));
    // Outside that window the second pointer finds nothing.
    put32(&mut m, 0x800, 0);
    put32(&mut m, 0xC00, 0x5F50_4D5F);
    put32(&mut m, 0xC04, 0x9_0000);
    assert_eq!(init(&m), None);
}

#[test]
fn unknown_entry_type_stops_the_walk() {
    let mut m = low_memory();
    put32(&mut m, 0xE0000, 0x5F50_4D5F);
    put32(&mut m, 0xE0004, 0x9_0000);
    let mut es = entries(&[0, 1, 0]);
    es[20] = 1;
    put_config(&mut m, 0x9_0000, 4, &es);
    assert_eq!(init(&m), Some(MpInfo { processors: 1, io_apics: 0 }));
}

#[test]
fn wrong_version_or_signature_finds_nothing() {
    let mut m = low_memory();
    put32(&mut m, 0xE0000, 0x5F50_4D5F);
    put32(&mut m, 0xE0004, 0x9_0000);
    put_config(&mut m, 0x9_0000, 2, &entries(&[0]));
    assert_eq!(init(&m), None);
    put_config(&mut m, 0x9_0000, 4, &entries(&[0]));
    put32(&mut m, 0x9_0000, 0x1234_5678);
    assert_eq!(init(&m), None);
}

#[test]
fn no_floating_pointer_finds_nothing() {
    let m = low_memory();
    assert_eq!(init(&m), None);
}

#[test]
fn memory_beyond_the_model_reads_as_ones() {
    // A tiny memory: every search reads 0xFF bytes past its end.
    let m = vec![0u8; 16];
    assert_eq!(init(&m), None);
}

#[test]
fn the_first_signature_wins() {
    let mut m = low_memory();
    put32(&mut m, 0xE0100, 0x5F50_4D5F);
    put32(&mut m, 0xE0104, 0x9_0000);
    put32(&mut m, 0xE0200, 0x5F50_4D5F);
    put32(&mut m, 0xE0204, 0xA_0000);
    put_config(&mut m, 0x9_0000, 4, &entries(&[0, 0]));
    put_config(&mut m, 0xA_0000, 4, &entries(&[0]));
    assert_eq!(init(&m), Some(MpInfo { processors: 2, io_apics: 0 }));
    // A first signature that points to no valid table ends the search.
    put32(&mut m, 0x9_0000, 0);
    assert_eq!(init(&m), None);
}

#[test]
fn the_signature_is_found_at_any_byte() {
    let mut m = low_memory();
    put32(&mut m, 0xE0003, 0x5F50_4D5F);
    put32(&mut m, 0xE0007, 0x9_0000);
    put_config(&mut m, 0x9_0000, 1, &entries(&[2, 0, 4, 0, 2]));
    assert_eq!(init(&m), Some(MpInfo { processors: 2, io_apics: 2 }));
}
