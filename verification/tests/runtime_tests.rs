use rustboot::runtime::{dmemset, memcpy, memmove, memset, sse2_dmem_movdqa_add, wmemset};

fn mem_of(n: usize) -> Vec<u8> {
    (0..n).map(|i| (i % 251) as u8).collect()
}

#[test]
fn memset_fills_low_byte() {
    for n in 0..40isize {
        for s in 0..5usize {
            let mut m = mem_of(64);
            let before = m.clone();
            memset(&mut m, s, 0x1_23AB, n);
            for i in 0..m.len() {
                if i >= s && i < s + n as usize {
                    assert_eq!(m[i], 0xAB);
                } else {
                    assert_eq!(m[i], before[i]);
                }
            }
        }
    }
}

#[test]
fn memset_negative_value_uses_low_byte() {
    let mut m = vec![0u8; 8];
    memset(&mut m, 2, -1, 3);
    assert_eq!(m, vec![0, 0, 0xFF, 0xFF, 0xFF, 0, 0, 0]);
}

#[test]
fn memset_zero_length_changes_nothing() {
    let mut m = mem_of(16);
    let before = m.clone();
    memset(&mut m, 16, 7, 0);
    assert_eq!(m, before);
}

#[test]
fn dmemset_stores_little_endian_doublewords() {
    let mut m = vec![0u8; 12];
    dmemset(&mut m, 1, 0x1122_3344, 2);
    assert_eq!(m, vec![0, 0x44, 0x33, 0x22, 0x11, 0x44, 0x33, 0x22, 0x11, 0, 0, 0]);
}

#[test]
fn wmemset_odd_and_even_counts() {
    let mut m = vec![0u8; 10];
    wmemset(&mut m, 0, 0xBEEF, 3);
    assert_eq!(m, vec![0xEF, 0xBE, 0xEF, 0xBE, 0xEF, 0xBE, 0, 0, 0, 0]);
    let mut m = vec![0u8; 10];
    wmemset(&mut m, 1, 0x0102, 4);
    assert_eq!(m, vec![0, 2, 1, 2, 1, 2, 1, 2, 1, 0]);
    let mut m = vec![9u8; 4];
    wmemset(&mut m, 0, 0x0102, 0);
    assert_eq!(m, vec![9; 4]);
}

#[test]
fn sse2_fill_is_an_arithmetic_progression() {
    let mut m = vec![0u8; 48];
    sse2_dmem_movdqa_add(&mut m, 16, 0x1000, 0x1000, 2);
    assert!(m[..16].iter().all(|&b| b == 0));
    for k in 0..8u32 {
        let at = 16 + 4 * k as usize;
        let w = u32::from_le_bytes([m[at], m[at + 1], m[at + 2], m[at + 3]]);
        assert_eq!(w, 0x1000 + k * 0x1000);
    }
}

#[test]
fn sse2_fill_wraps_modulo_2_32() {
    let mut m = vec![0u8; 16];
    sse2_dmem_movdqa_add(&mut m, 0, 0xFFFF_FFFE, 1, 1);
    let words: Vec<u32> = m
        .chunks(4)
        .map(|c| u32::from_le_bytes([c[0], c[1], c[2], c[3]]))
        .collect();
    assert_eq!(words, vec![0xFFFF_FFFE, 0xFFFF_FFFF, 0, 1]);
}

#[test]
fn memcpy_copies_disjoint_runs() {
    for n in 0..40usize {
        for dest in 0..4usize {
            let mut m = mem_of(128);
            let before = m.clone();
            let src = 64 + (n % 3);
            memcpy(&mut m, dest, src, n);
            for i in 0..m.len() {
                if i >= dest && i < dest + n {
                    assert_eq!(m[i], before[src + (i - dest)]);
                } else {
                    assert_eq!(m[i], before[i]);
                }
            }
        }
    }
}

#[test]
fn memcpy_copies_overlapping_run_downward() {
    let mut m = mem_of(64);
    let before = m.clone();
    memcpy(&mut m, 3, 5, 30);
    for i in 3..33 {
        assert_eq!(m[i], before[i + 2]);
    }
    assert_eq!(&m[33..], &before[33..]);
}

#[test]
fn memmove_downward_copies() {
    let mut m = mem_of(64);
    let before = m.clone();
    memmove(&mut m, 2, 10, 20);
    for i in 2..22 {
        assert_eq!(m[i], before[i + 8]);
    }
}

#[test]
fn memmove_upward_short_moves_from_the_run_ends() {
    // With the direction flag set the move starts at `src + n` and `dest + n`:
    // bytes src + 1 ..= src + n go to dest + 1 ..= dest + n.
    let mut m: Vec<u8> = (0..32u8).collect();
    memmove(&mut m, 10, 4, 5);
    let mut expected: Vec<u8> = (0..32u8).collect();
    for k in 1..=5usize {
        expected[10 + k] = (4 + k) as u8;
    }
    assert_eq!(m, expected);
}

#[test]
fn memmove_upward_long_uses_doubleword_moves() {
    // 16 bytes from 0 to 8, direction flag set: the copy starts at 24 and 16,
    // moves no byte first (24 is a multiple of 4), then four doublewords
    // going down, each read and written four bytes at a time.
    let mut m: Vec<u8> = (0..40u8).collect();
    memmove(&mut m, 8, 0, 16);
    let mut expected: Vec<u8> = (0..40u8).collect();
    // doubleword moves at (edi, esi) = (24, 16), (20, 12), (16, 8), (12, 4)
    for &(d, s) in &[(24usize, 16usize), (20, 12), (16, 8), (12, 4)] {
        let chunk: Vec<u8> = expected[s..s + 4].to_vec();
        expected[d..d + 4].copy_from_slice(&chunk);
    }
    assert_eq!(m, expected);
}

#[test]
fn sse2_fill_of_nothing_needs_no_alignment() {
    let mut m = vec![7u8; 8];
    sse2_dmem_movdqa_add(&mut m, 3, 1, 1, 0);
    assert_eq!(m, vec![7u8; 8]);
}
