use vstd::prelude::*;

verus! {

// Memory is modelled as the bytes of the address space from address 0 up:
// the byte at address `a` is `mem[a]`.

/// Byte `j` (0 for the lowest) of the little-endian encoding of the doubleword `w`.
pub open spec fn dword_byte(w: u32, j: int) -> u8 {
    if j == 0 {
        (w & 0xff) as u8
    } else if j == 1 {
        ((w >> 8u32) & 0xff) as u8
    } else if j == 2 {
        ((w >> 16u32) & 0xff) as u8
    } else {
        ((w >> 24u32) & 0xff) as u8
    }
}

/// Byte `j` (0 or 1) of the little-endian encoding of the word `w`.
pub open spec fn word_byte(w: u16, j: int) -> u8 {
    if j == 0 {
        (w & 0xff) as u8
    } else {
        ((w >> 8u16) & 0xff) as u8
    }
}

/// `m` with the `n` bytes from `start` set to `c`.
pub open spec fn fill_bytes(m: Seq<u8>, start: int, n: int, c: u8) -> Seq<u8> {
    Seq::new(m.len(), |i: int| if start <= i < start + n { c } else { m[i] })
}

/// `m` with `count` copies of the doubleword `w` stored from `start` on.
pub open spec fn fill_dwords(m: Seq<u8>, start: int, count: int, w: u32) -> Seq<u8> {
    Seq::new(
        m.len(),
        |i: int|
            if start <= i < start + 4 * count {
                dword_byte(w, (i - start) % 4)
            } else {
                m[i]
            },
    )
}

/// `m` with `count` copies of the word `w` stored from `start` on.
pub open spec fn fill_words(m: Seq<u8>, start: int, count: int, w: u16) -> Seq<u8> {
    Seq::new(
        m.len(),
        |i: int|
            if start <= i < start + 2 * count {
                word_byte(w, (i - start) % 2)
            } else {
                m[i]
            },
    )
}

/// The doubleword `c + k * inc`, computed modulo 2^32.
pub open spec fn progression_term(c: u32, inc: u32, k: int) -> u32 {
    ((c + k * inc) % 0x1_0000_0000) as u32
}

/// `m` with the doublewords `c, c + inc, c + 2 * inc, ...` (modulo 2^32)
/// stored from `start` on, `4 * count` of them.
pub open spec fn fill_progression(m: Seq<u8>, start: int, count: int, c: u32, inc: u32) -> Seq<u8> {
    Seq::new(
        m.len(),
        |i: int|
            if start <= i < start + 16 * count {
                dword_byte(progression_term(c, inc, (i - start) / 4), (i - start) % 4)
            } else {
                m[i]
            },
    )
}

proof fn lemma_dword_bytes(w: u32)
    ensures
        dword_byte(w, 0) == (w as u8),
        dword_byte(w, 1) == ((w >> 8u32) as u8),
        dword_byte(w, 2) == ((w >> 16u32) as u8),
        dword_byte(w, 3) == ((w >> 24u32) as u8),
{
    assert((w & 0xff) as u8 == w as u8) by (bit_vector);
    assert(((w >> 8u32) & 0xff) as u8 == (w >> 8u32) as u8) by (bit_vector);
    assert(((w >> 16u32) & 0xff) as u8 == (w >> 16u32) as u8) by (bit_vector);
    assert(((w >> 24u32) & 0xff) as u8 == (w >> 24u32) as u8) by (bit_vector);
}

/// `rep stosb`: stores `n` copies of the byte `c` from `s` on.
fn stosb(mem: &mut Vec<u8>, s: usize, c: u8, n: usize)
    requires
        s + n <= old(mem).len(),
    ensures
        final(mem)@ == fill_bytes(old(mem)@, s as int, n as int, c),
{
    let mut k: usize = 0;
    while k < n
        invariant
            s + n <= mem.len(),
            k <= n,
            mem@ == fill_bytes(old(mem)@, s as int, k as int, c),
        decreases n - k,
    {
        mem[s + k] = c;
        k = k + 1;
        assert(mem@ =~= fill_bytes(old(mem)@, s as int, k as int, c));
    }
}

/// `rep stosd`: stores `n` copies of the doubleword `c` from `s` on.
fn stosd(mem: &mut Vec<u8>, s: usize, c: u32, n: usize)
    requires
        s + 4 * n <= old(mem).len(),
    ensures
        final(mem)@ == fill_dwords(old(mem)@, s as int, n as int, c),
{
    proof {
        lemma_dword_bytes(c);
    }
    let b0: u8 = c as u8;
    let b1: u8 = (c >> 8u32) as u8;
    let b2: u8 = (c >> 16u32) as u8;
    let b3: u8 = (c >> 24u32) as u8;
    let mut k: usize = 0;
    while k < n
        invariant
            s + 4 * n <= mem.len(),
            k <= n,
            b0 == dword_byte(c, 0),
            b1 == dword_byte(c, 1),
            b2 == dword_byte(c, 2),
            b3 == dword_byte(c, 3),
            mem@ == fill_dwords(old(mem)@, s as int, k as int, c),
        decreases n - k,
    {
        let at: usize = s + 4 * k;
        mem[at] = b0;
        mem[at + 1] = b1;
        mem[at + 2] = b2;
        mem[at + 3] = b3;
        let ghost kk = k as int;
        k = k + 1;
        assert forall|i: int| s <= i < s + 4 * k implies #[trigger] mem@[i] == dword_byte(
            c,
            (i - s) % 4,
        ) by {
            if i < at {
                assert(old(mem)@.len() == mem@.len());
            } else {
                assert((i - s) % 4 == i - at) by (nonlinear_arith)
                    requires
                        at == s + 4 * kk,
                        at <= i < at + 4,
                ;
            }
        }
        assert(mem@ =~= fill_dwords(old(mem)@, s as int, k as int, c));
    }
}

/// `rep stosd` with the byte `c` repeated in all four bytes of each
/// doubleword: stores `4 * n` copies of `c` from `s` on.
fn stosd8(mem: &mut Vec<u8>, s: usize, c: u8, n: usize)
    requires
        s + 4 * n <= old(mem).len(),
    ensures
        final(mem)@ == fill_bytes(old(mem)@, s as int, 4 * n, c),
{
    let mut dword: u32 = c as u32;
    dword = dword | (dword << 24u32) | (dword << 16u32) | (dword << 8u32);
    proof {
        let d0: u32 = c as u32;
        assert(dword == d0 | (d0 << 24u32) | (d0 << 16u32) | (d0 << 8u32));
        assert(((d0 | (d0 << 24u32) | (d0 << 16u32) | (d0 << 8u32)) & 0xff) as u8 == c
            && (((d0 | (d0 << 24u32) | (d0 << 16u32) | (d0 << 8u32)) >> 8u32) & 0xff) as u8 == c
            && (((d0 | (d0 << 24u32) | (d0 << 16u32) | (d0 << 8u32)) >> 16u32) & 0xff) as u8 == c
            && (((d0 | (d0 << 24u32) | (d0 << 16u32) | (d0 << 8u32)) >> 24u32) & 0xff) as u8 == c)
            by (bit_vector)
            requires
                d0 == c as u32,
        ;
    }
    stosd(mem, s, dword, n);
    proof {
        assert forall|i: int| 0 <= i < mem@.len() implies #[trigger] mem@[i] == fill_bytes(
            old(mem)@,
            s as int,
            4 * n,
            c,
        )[i] by {
            if s <= i < s + 4 * n {
                let j = (i - s) % 4;
                assert(0 <= j < 4);
            }
        }
        assert(mem@ =~= fill_bytes(old(mem)@, s as int, 4 * n, c));
    }
}

/// `rep stosd` with the word `c` repeated in both halves of each doubleword:
/// stores `2 * n` copies of the word `c` from `s` on.
fn stosd16(mem: &mut Vec<u8>, s: usize, c: u16, n: usize)
    requires
        s + 4 * n <= old(mem).len(),
    ensures
        final(mem)@ == fill_words(old(mem)@, s as int, 2 * n, c),
{
    let mut dword: u32 = c as u32;
    dword = dword | (dword << 16u32);
    proof {
        let d0: u32 = c as u32;
        assert(dword == d0 | (d0 << 16u32));
        assert(((d0 | (d0 << 16u32)) & 0xff) as u8 == (c & 0xff) as u8
            && (((d0 | (d0 << 16u32)) >> 8u32) & 0xff) as u8 == ((c >> 8u16) & 0xff) as u8
            && (((d0 | (d0 << 16u32)) >> 16u32) & 0xff) as u8 == (c & 0xff) as u8
            && (((d0 | (d0 << 16u32)) >> 24u32) & 0xff) as u8 == ((c >> 8u16) & 0xff) as u8)
            by (bit_vector)
            requires
                d0 == c as u32,
        ;
    }
    stosd(mem, s, dword, n);
    proof {
        assert forall|i: int| 0 <= i < mem@.len() implies #[trigger] mem@[i] == fill_words(
            old(mem)@,
            s as int,
            2 * n,
            c,
        )[i] by {
            if s <= i < s + 4 * n {
                let j = (i - s) % 4;
                assert(0 <= j < 4);
                assert((i - s) % 2 == j % 2) by (nonlinear_arith)
                    requires
                        j == (i - s) % 4,
                        s <= i,
                ;
            }
        }
        assert(mem@ =~= fill_words(old(mem)@, s as int, 2 * n, c));
    }
}

/// Stores `n` copies of the byte `c` from `s` on, in runs of single bytes
/// until the count left is a multiple of four, then in doublewords.
fn memset_nonzero(mem: &mut Vec<u8>, s: usize, c: u8, n: usize)
    requires
        s + n <= old(mem).len(),
    ensures
        final(mem)@ == fill_bytes(old(mem)@, s as int, n as int, c),
{
    if n == 0 {
        assert(mem@ =~= fill_bytes(old(mem)@, s as int, n as int, c));
        return ;
    }
    if n == 1 {
        mem[s] = c;
        assert(mem@ =~= fill_bytes(old(mem)@, s as int, n as int, c));
        return ;
    }
    let ghost s0 = s;
    let ghost n0 = n;
    let mut s: usize = s;
    let mut n: usize = n;
    assert(mem@ =~= fill_bytes(old(mem)@, s as int, 0, c));
    while n > 0
        invariant
            s0 <= s,
            s + n == s0 + n0,
            s0 + n0 <= old(mem).len(),
            mem@ == fill_bytes(old(mem)@, s0 as int, s - s0, c),
        decreases n,
    {
        let q: usize = n % 4;
        if q == 0 {
            stosd8(mem, s, c, n / 4);
            assert(mem@ =~= fill_bytes(old(mem)@, s0 as int, s + n - s0, c));
            s = s + n;
            n = 0;
        } else {
            stosb(mem, s, c, q);
            s = s + q;
            n = n - q;
            assert(mem@ =~= fill_bytes(old(mem)@, s0 as int, s - s0, c));
        }
    }
}

/// Stores `n` copies of the doubleword `c` from `s` on.
pub fn dmemset(mem: &mut Vec<u8>, s: usize, c: u32, n: usize)
    requires
        s + 4 * n <= old(mem).len(),
    ensures
        final(mem)@ == fill_dwords(old(mem)@, s as int, n as int, c),
{
    if n == 0 {
        assert(mem@ =~= fill_dwords(old(mem)@, s as int, n as int, c));
        return ;
    }
    stosd(mem, s, c, n);
}

/// Stores `n` copies of the word `c` from `dest` on: one word first when `n`
/// is odd, then the rest as doublewords.
pub fn wmemset(mem: &mut Vec<u8>, dest: usize, c: u16, n: usize)
    requires
        dest + 2 * n <= old(mem).len(),
    ensures
        final(mem)@ == fill_words(old(mem)@, dest as int, n as int, c),
{
    if n == 0 {
        assert(mem@ =~= fill_words(old(mem)@, dest as int, n as int, c));
        return ;
    }
    let mut dest: usize = dest;
    let ghost d0 = dest;
    if n % 2 == 1 {
        mem[dest] = (c & 0xff) as u8;
        mem[dest + 1] = ((c >> 8u16) & 0xff) as u8;
        dest = dest + 2;
    }
    let ghost mid = mem@;
    assert(mid =~= fill_words(old(mem)@, d0 as int, (dest - d0) / 2, c));
    stosd16(mem, dest, c, n / 2);
    assert forall|i: int| 0 <= i < mem@.len() implies #[trigger] mem@[i] == fill_words(
        old(mem)@,
        d0 as int,
        n as int,
        c,
    )[i] by {
        if dest <= i < dest + 4 * (n / 2) {
            assert((i - dest) % 2 == (i - d0) % 2) by (nonlinear_arith)
                requires
                    dest == d0 || dest == d0 + 2,
                    dest <= i,
            ;
        }
    }
    assert(mem@ =~= fill_words(old(mem)@, d0 as int, n as int, c));
}

/// The C `memset`: stores `n` copies of the low byte of `c` from `s` on.
pub fn memset(mem: &mut Vec<u8>, s: usize, c: i32, n: isize)
    requires
        0 <= n,
        s + n <= old(mem).len(),
    ensures
        final(mem)@ == fill_bytes(old(mem)@, s as int, n as int, (c & 0xff) as u8),
{
    memset_nonzero(mem, s, (c & 0xff) as u8, n as usize);
}

/// Adding `(d * inc) mod 2^32` to a term of the progression, modulo 2^32,
/// gives the term `d` places further on.
proof fn lemma_progression_step(c: u32, inc: u32, m: int, d: int, x: u32)
    requires
        x as int == (d * inc) % 0x1_0000_0000,
    ensures
        vstd::wrapping::u32_specs::wrapping_add(progression_term(c, inc, m), x)
            == progression_term(c, inc, m + d),
{
    let big: int = 0x1_0000_0000;
    let a = progression_term(c, inc, m);
    assert(a as int == (c + m * inc) % big);
    vstd::arithmetic::div_mod::lemma_add_mod_noop(c + m * inc, d * inc, big);
    assert((c + m * inc) + d * inc == c + (m + d) * inc) by (nonlinear_arith);
    assert(((a as int) + (x as int)) % big == (c + (m + d) * inc) % big);
    assert(0 <= a < big && 0 <= x < big);
    if a + x > u32::MAX {
        assert(((a as int) + (x as int)) % big == a + x - big) by (nonlinear_arith)
            requires
                big <= a + x < 2 * big,
        ;
    } else {
        assert(((a as int) + (x as int)) % big == a + x) by (nonlinear_arith)
            requires
                0 <= a + x < big,
        ;
    }
}

/// Stores the doubleword `w` at `at`, little-endian.
fn store_dword(mem: &mut Vec<u8>, at: usize, w: u32)
    requires
        at + 4 <= old(mem).len(),
    ensures
        final(mem)@ == Seq::new(
            old(mem)@.len(),
            |i: int| if at <= i < at + 4 { dword_byte(w, i - at) } else { old(mem)@[i] },
        ),
{
    proof {
        lemma_dword_bytes(w);
    }
    mem[at] = w as u8;
    mem[at + 1] = (w >> 8u32) as u8;
    mem[at + 2] = (w >> 16u32) as u8;
    mem[at + 3] = (w >> 24u32) as u8;
    assert(mem@ =~= Seq::new(
        old(mem)@.len(),
        |i: int| if at <= i < at + 4 { dword_byte(w, i - at) } else { old(mem)@[i] },
    ));
}

/// Fills `16 * n` bytes from `dest` on with the doublewords
/// `c, c + inc, c + 2 * inc, ...` (modulo 2^32), four at a time, as the
/// aligned 128-bit stores of SSE2 do: `dest` must be 16-byte aligned when
/// anything is stored.
pub fn sse2_dmem_movdqa_add(mem: &mut Vec<u8>, dest: usize, c: u32, inc: u32, n: usize)
    requires
        n > 0 ==> dest % 16 == 0,
        dest + 16 * n <= old(mem).len(),
    ensures
        final(mem)@ == fill_progression(old(mem)@, dest as int, n as int, c, inc),
{
    // The four lanes of the vector register, and the step added to each lane.
    let mut lane0: u32 = c;
    let mut lane1: u32 = c.wrapping_add(inc);
    let mut lane2: u32 = lane1.wrapping_add(inc);
    let mut lane3: u32 = lane2.wrapping_add(inc);
    let step: u32 = inc << 2u32;
    proof {
        assert((inc << 2u32) == ((inc as u64 * 4) % 0x1_0000_0000) as u32) by (bit_vector);
        assert(step as int == (4 * inc) % 0x1_0000_0000);
        assert(inc as int == (1 * inc) % 0x1_0000_0000);
        assert(c == progression_term(c, inc, 0));
        lemma_progression_step(c, inc, 0, 1, inc);
        lemma_progression_step(c, inc, 1, 1, inc);
        lemma_progression_step(c, inc, 2, 1, inc);
    }
    let ghost d0 = dest;
    let mut at: usize = dest;
    let mut k: usize = 0;
    assert(mem@ =~= fill_progression(old(mem)@, d0 as int, 0, c, inc));
    while k < n
        invariant
            d0 + 16 * n <= old(mem).len(),
            mem@.len() == old(mem)@.len(),
            k <= n,
            at == d0 + 16 * k,
            step as int == (4 * inc) % 0x1_0000_0000,
            lane0 == progression_term(c, inc, 4 * k),
            lane1 == progression_term(c, inc, 4 * k + 1),
            lane2 == progression_term(c, inc, 4 * k + 2),
            lane3 == progression_term(c, inc, 4 * k + 3),
            mem@ == fill_progression(old(mem)@, d0 as int, k as int, c, inc),
        decreases n - k,
    {
        let ghost before = mem@;
        store_dword(mem, at, lane0);
        store_dword(mem, at + 4, lane1);
        store_dword(mem, at + 8, lane2);
        store_dword(mem, at + 12, lane3);
        let ghost kk = k as int;
        assert forall|i: int| 0 <= i < mem@.len() implies #[trigger] mem@[i] == fill_progression(
            old(mem)@,
            d0 as int,
            kk + 1,
            c,
            inc,
        )[i] by {
            if at <= i < at + 16 {
                let r = i - at;
                assert((i - d0) / 4 == 4 * kk + r / 4 && (i - d0) % 4 == r % 4) by (nonlinear_arith)
                    requires
                        at == d0 + 16 * kk,
                        r == i - at,
                        0 <= r < 16,
                ;
                if r < 4 {
                } else if r < 8 {
                } else if r < 12 {
                } else {
                }
            } else {
                assert(mem@[i] == before[i]);
            }
        }
        assert(mem@ =~= fill_progression(old(mem)@, d0 as int, kk + 1, c, inc));
        proof {
            lemma_progression_step(c, inc, 4 * kk, 4, step);
            lemma_progression_step(c, inc, 4 * kk + 1, 4, step);
            lemma_progression_step(c, inc, 4 * kk + 2, 4, step);
            lemma_progression_step(c, inc, 4 * kk + 3, 4, step);
        }
        lane0 = lane0.wrapping_add(step);
        lane1 = lane1.wrapping_add(step);
        lane2 = lane2.wrapping_add(step);
        lane3 = lane3.wrapping_add(step);
        at = at + 16;
        k = k + 1;
    }
}

/// `m` with the `n` bytes from `dest` on replaced by the `n` bytes that
/// stood from `src` on.
pub open spec fn copy_bytes(m: Seq<u8>, dest: int, src: int, n: int) -> Seq<u8> {
    Seq::new(m.len(), |i: int| if dest <= i < dest + n { m[src + (i - dest)] } else { m[i] })
}

/// One element of a string move: the `width` bytes at `esi` are read, then
/// written at `edi`.
pub open spec fn move_step(m: Seq<u8>, edi: int, esi: int, width: int) -> Seq<u8> {
    copy_bytes(m, edi, esi, width)
}

/// The register step of a string move: `width` down when the direction flag
/// is set, `width` up when it is clear.
pub open spec fn dir_step(width: int, back: bool) -> int {
    if back {
        -width
    } else {
        width
    }
}

/// `rep movs` of `count` elements of `width` bytes from `esi` to `edi`, with
/// the direction flag `back`.
pub open spec fn rep_movs(m: Seq<u8>, edi: int, esi: int, count: nat, width: int, back: bool) -> Seq<u8>
    decreases count,
{
    if count == 0 {
        m
    } else {
        rep_movs(
            move_step(m, edi, esi, width),
            edi + dir_step(width, back),
            esi + dir_step(width, back),
            (count - 1) as nat,
            width,
            back,
        )
    }
}

/// A string move of `count` elements of `width` bytes touches only bytes
/// within `0..len`, and leaves both registers at or above zero.
pub open spec fn rep_movs_fits(len: int, edi: int, esi: int, count: int, width: int, back: bool) -> bool {
    &&& 0 <= edi
    &&& 0 <= esi
    &&& 0 <= count
    &&& count == 0 || if back {
        &&& count * width <= edi
        &&& count * width <= esi
        &&& edi + width <= len
        &&& esi + width <= len
    } else {
        &&& edi + count * width <= len
        &&& esi + count * width <= len
    }
}

/// How many bytes the copy moves one at a time before it moves doublewords:
/// enough to bring `dest` to a multiple of four.
pub open spec fn head_len(dest: int) -> int {
    (4 - dest % 4) % 4
}

/// The three string moves of a copy of `n >= 12` bytes: single bytes up to
/// alignment, doublewords, then the single bytes left over.
pub open spec fn copy_phases_fit(len: int, dest: int, src: int, n: int, back: bool) -> bool {
    let head = head_len(dest);
    let rest = n - head;
    let d1 = dest + dir_step(head, back);
    let s1 = src + dir_step(head, back);
    let d2 = d1 + dir_step(4 * (rest / 4), back);
    let s2 = s1 + dir_step(4 * (rest / 4), back);
    &&& rep_movs_fits(len, dest, src, head, 1, back)
    &&& rep_movs_fits(len, d1, s1, rest / 4, 4, back)
    &&& rep_movs_fits(len, d2, s2, rest % 4, 1, back)
}

/// Every byte that the copy of `n` bytes from `src` to `dest` touches, with
/// the direction flag `back`, lies within `0..len`.
pub open spec fn copy_fits(len: int, dest: int, src: int, n: int, back: bool) -> bool {
    &&& 0 <= n
    &&& if n == 0 {
        true
    } else if n < 12 {
        rep_movs_fits(len, dest, src, n, 1, back)
    } else {
        copy_phases_fit(len, dest, src, n, back)
    }
}

/// The memory after the copy of `n` bytes from `src` to `dest` with the
/// direction flag `back`: one string move of bytes when `n < 12`, else bytes
/// up to a doubleword boundary of `dest`, doublewords, and the bytes left.
pub open spec fn copy_result(m: Seq<u8>, dest: int, src: int, n: int, back: bool) -> Seq<u8> {
    if n <= 0 {
        m
    } else if n < 12 {
        rep_movs(m, dest, src, n as nat, 1, back)
    } else {
        let head = head_len(dest);
        let rest = n - head;
        let d1 = dest + dir_step(head, back);
        let s1 = src + dir_step(head, back);
        let d2 = d1 + dir_step(4 * (rest / 4), back);
        let s2 = s1 + dir_step(4 * (rest / 4), back);
        let m1 = rep_movs(m, dest, src, head as nat, 1, back);
        let m2 = rep_movs(m1, d1, s1, (rest / 4) as nat, 4, back);
        rep_movs(m2, d2, s2, (rest % 4) as nat, 1, back)
    }
}

/// `rep movsb` (`width == 1`) or `rep movsd` (`width == 4`); returns the
/// registers `(edi, esi)` as the instruction leaves them.
fn rep_movs_exec(
    mem: &mut Vec<u8>,
    edi: usize,
    esi: usize,
    count: usize,
    width: usize,
    back: bool,
) -> (regs: (usize, usize))
    requires
        width == 1 || width == 4,
        rep_movs_fits(old(mem).len() as int, edi as int, esi as int, count as int, width as int, back),
    ensures
        final(mem)@ == rep_movs(old(mem)@, edi as int, esi as int, count as nat, width as int, back),
        final(mem)@.len() == old(mem)@.len(),
        regs.0 == edi + dir_step(count * width, back),
        regs.1 == esi + dir_step(count * width, back),
{
    let mut edi: usize = edi;
    let mut esi: usize = esi;
    let mut k: usize = 0;
    let ghost e0 = edi as int;
    let ghost s0 = esi as int;
    let ghost w = width as int;
    let mem_len: usize = mem.len();
    let ghost len = mem_len as int;
    while k < count
        invariant
            width == 1 || width == 4,
            len <= usize::MAX,
            w == width,
            len == mem@.len(),
            rep_movs_fits(len, e0, s0, count as int, w, back),
            k <= count,
            back ==> edi == e0 - k * w && esi == s0 - k * w,
            !back ==> edi == e0 + k * w && esi == s0 + k * w,
            rep_movs(old(mem)@, e0, s0, count as nat, w, back) == rep_movs(
                mem@,
                edi as int,
                esi as int,
                (count - k) as nat,
                w,
                back,
            ),
        decreases count - k,
    {
        proof {
            assert(k * w + w <= count * w) by (nonlinear_arith)
                requires
                    k < count,
                    0 < w,
            ;
            assert((k + 1) * w == k * w + w) by (nonlinear_arith);
            assert(edi + w <= len && esi + w <= len);
            assert(back ==> edi >= w && esi >= w);
        }
        let ghost before = mem@;
        if width == 1 {
            let b: u8 = mem[esi];
            mem[edi] = b;
        } else {
            let b0: u8 = mem[esi];
            let b1: u8 = mem[esi + 1];
            let b2: u8 = mem[esi + 2];
            let b3: u8 = mem[esi + 3];
            mem[edi] = b0;
            mem[edi + 1] = b1;
            mem[edi + 2] = b2;
            mem[edi + 3] = b3;
        }
        assert(mem@ =~= move_step(before, edi as int, esi as int, w));
        if back {
            edi = edi - width;
            esi = esi - width;
        } else {
            edi = edi + width;
            esi = esi + width;
        }
        k = k + 1;
    }
    (edi, esi)
}

/// Copies `n` bytes from `src` to `dest` as the string instructions do with
/// the direction flag `back`: fewer than 12 bytes one at a time, else bytes
/// up to a doubleword boundary of `dest`, then doublewords, then the rest.
fn copy_with_direction(mem: &mut Vec<u8>, dest: usize, src: usize, n: usize, back: bool)
    requires
        copy_fits(old(mem).len() as int, dest as int, src as int, n as int, back),
    ensures
        final(mem)@ == copy_result(old(mem)@, dest as int, src as int, n as int, back),
{
    if n == 0 {
        return ;
    }
    if n < 12 {
        rep_movs_exec(mem, dest, src, n, 1, back);
        return ;
    }
    let head: usize = (4 - dest % 4) % 4;
    let rest: usize = n - head;
    let (pd, ps) = rep_movs_exec(mem, dest, src, head, 1, back);
    assert(rest >> 2usize == rest / 4) by (bit_vector);
    let (pd, ps) = rep_movs_exec(mem, pd, ps, rest >> 2usize, 4, back);
    rep_movs_exec(mem, pd, ps, rest % 4, 1, back);
}

/// The C `memcpy`: copies `n` bytes from `src` to `dest`, front to back.
pub fn memcpy(mem: &mut Vec<u8>, dest: usize, src: usize, n: usize)
    requires
        copy_fits(old(mem).len() as int, dest as int, src as int, n as int, false),
    ensures
        final(mem)@ == copy_result(old(mem)@, dest as int, src as int, n as int, false),
        dest <= src || src + n <= dest || dest + n <= src ==> final(mem)@ == copy_bytes(
            old(mem)@,
            dest as int,
            src as int,
            n as int,
        ),
{
    proof {
        if dest <= src || src + n <= dest || dest + n <= src {
            lemma_memcpy_copies(mem@, dest as int, src as int, n as int);
        }
    }
    copy_with_direction(mem, dest, src, n, false);
}

/// The C `memmove`: when `src` lies below `dest` it copies with the direction
/// flag set, starting from `dest + n` and `src + n`; otherwise it copies as
/// `memcpy` does.
pub fn memmove(mem: &mut Vec<u8>, dest: usize, src: usize, n: usize)
    requires
        src < dest ==> dest + n <= usize::MAX && copy_fits(
            old(mem).len() as int,
            dest + n,
            src + n,
            n as int,
            true,
        ),
        src >= dest ==> copy_fits(old(mem).len() as int, dest as int, src as int, n as int, false),
    ensures
        src < dest ==> final(mem)@ == copy_result(old(mem)@, dest + n, src + n, n as int, true),
        src >= dest ==> final(mem)@ == copy_result(old(mem)@, dest as int, src as int, n as int, false),
        src >= dest ==> final(mem)@ == copy_bytes(old(mem)@, dest as int, src as int, n as int),
        src < dest && n < 12 ==> final(mem)@ == copy_bytes(
            old(mem)@,
            dest + 1,
            src + 1,
            n as int,
        ),
{
    proof {
        if src >= dest {
            lemma_memmove_copies_downward(mem@, dest as int, src as int, n as int);
        } else if n < 12 {
            lemma_memmove_upward_short(mem@, dest as int, src as int, n as int);
        }
    }
    if src < dest {
        copy_with_direction(mem, dest + n, src + n, n, true);
    } else {
        copy_with_direction(mem, dest, src, n, false);
    }
}

/// A front-to-back string move whose reads never see its own writes (the
/// destination starts at or below the source, or lies wholly above it)
/// copies the source bytes.
proof fn lemma_forward_movs_copies(m: Seq<u8>, edi: int, esi: int, count: nat, w: int)
    requires
        0 < w,
        0 <= edi,
        0 <= esi,
        edi + count * w <= m.len(),
        esi + count * w <= m.len(),
        edi <= esi || esi + count * w <= edi,
    ensures
        rep_movs(m, edi, esi, count, w, false) == copy_bytes(m, edi, esi, count * w),
    decreases count,
{
    if count == 0 {
        assert(count * w == 0) by (nonlinear_arith)
            requires
                count == 0,
        ;
        assert(copy_bytes(m, edi, esi, 0) =~= m);
    } else {
        let m1 = move_step(m, edi, esi, w);
        assert(rep_movs(m, edi, esi, count, w, false) == rep_movs(m1, edi + w, esi + w, (count - 1) as nat, w, false));
        let c1 = (count - 1) as nat;
        assert(count * w == c1 * w + w) by (nonlinear_arith)
            requires
                c1 == count - 1,
        ;
        lemma_forward_movs_copies(m1, edi + w, esi + w, c1, w);
        assert(copy_bytes(m1, edi + w, esi + w, c1 * w) =~= copy_bytes(m, edi, esi, count * w));
    }
}

/// A back-to-front move of single bytes from `esi` down to `edi` down, where
/// the source does not lie above the destination, copies the `count` bytes
/// that end at `esi` to the `count` bytes that end at `edi`.
proof fn lemma_backward_byte_movs_copies(m: Seq<u8>, edi: int, esi: int, count: nat)
    requires
        esi <= edi,
        count <= esi,
        edi + 1 <= m.len(),
    ensures
        rep_movs(m, edi, esi, count, 1, true) == copy_bytes(m, edi - count + 1, esi - count + 1, count as int),
    decreases count,
{
    if count == 0 {
        assert(copy_bytes(m, edi + 1, esi + 1, 0) =~= m);
    } else {
        let m1 = move_step(m, edi, esi, 1);
        let c1 = (count - 1) as nat;
        lemma_backward_byte_movs_copies(m1, edi - 1, esi - 1, c1);
        assert(copy_bytes(m1, edi - c1, esi - c1, c1 as int) =~= copy_bytes(
            m,
            edi - count + 1,
            esi - count + 1,
            count as int,
        ));
    }
}

/// Two copies of adjacent runs, where the second reads nothing that the first
/// wrote, make one copy of the joined run.
proof fn lemma_copy_join(m: Seq<u8>, d: int, s: int, a: int, b: int)
    requires
        0 <= a,
        0 <= b,
        0 <= d,
        0 <= s,
        d + a + b <= m.len(),
        s + a + b <= m.len(),
        d <= s || s + a + b <= d,
    ensures
        copy_bytes(copy_bytes(m, d, s, a), d + a, s + a, b) == copy_bytes(m, d, s, a + b),
{
    assert(copy_bytes(copy_bytes(m, d, s, a), d + a, s + a, b) =~= copy_bytes(m, d, s, a + b));
}

/// `memcpy` copies: where the destination starts at or below the source, or
/// the two runs do not overlap, the `n` bytes at `dest` become the `n` bytes
/// that stood at `src`, and no other byte changes.
pub proof fn lemma_memcpy_copies(m: Seq<u8>, dest: int, src: int, n: int)
    requires
        copy_fits(m.len() as int, dest, src, n, false),
        dest <= src || src + n <= dest || dest + n <= src,
    ensures
        copy_result(m, dest, src, n, false) == copy_bytes(m, dest, src, n),
{
    if n == 0 {
        assert(copy_bytes(m, dest, src, 0) =~= m);
    } else if n < 12 {
        lemma_forward_movs_copies(m, dest, src, n as nat, 1);
    } else {
        let head = head_len(dest);
        let rest = n - head;
        let q = rest / 4;
        let r = rest % 4;
        assert(0 <= head < 4);
        assert(rest == 4 * q + r && 0 <= q && 0 <= r < 4) by (nonlinear_arith)
            requires
                q == rest / 4,
                r == rest % 4,
                rest >= 8,
        ;
        lemma_forward_movs_copies(m, dest, src, head as nat, 1);
        let m1 = copy_bytes(m, dest, src, head);
        lemma_forward_movs_copies(m1, dest + head, src + head, q as nat, 4);
        lemma_copy_join(m, dest, src, head, 4 * q);
        let m2 = copy_bytes(m, dest, src, head + 4 * q);
        lemma_forward_movs_copies(m2, dest + head + 4 * q, src + head + 4 * q, r as nat, 1);
        lemma_copy_join(m, dest, src, head + 4 * q, r);
    }
}

/// `memmove` copies whenever the source does not lie below the destination.
pub proof fn lemma_memmove_copies_downward(m: Seq<u8>, dest: int, src: int, n: int)
    requires
        dest <= src,
        copy_fits(m.len() as int, dest, src, n, false),
    ensures
        copy_result(m, dest, src, n, false) == copy_bytes(m, dest, src, n),
{
    lemma_memcpy_copies(m, dest, src, n);
}

/// When the source lies below the destination and fewer than 12 bytes are
/// moved, `memmove` moves the bytes `src + 1 ..= src + n` to
/// `dest + 1 ..= dest + n`: the string move starts from `src + n` and
/// `dest + n` rather than from the last byte of each run.
pub proof fn lemma_memmove_upward_short(m: Seq<u8>, dest: int, src: int, n: int)
    requires
        0 <= src < dest,
        0 <= n < 12,
        copy_fits(m.len() as int, dest + n, src + n, n, true),
    ensures
        copy_result(m, dest + n, src + n, n, true) == copy_bytes(m, dest + 1, src + 1, n),
{
    if n == 0 {
        assert(copy_bytes(m, dest + 1, src + 1, 0) =~= m);
    } else {
        lemma_backward_byte_movs_copies(m, dest + n, src + n, n as nat);
    }
}

/// A back-to-front string move of `count` elements of `width` bytes from
/// `edi` down writes only the bytes from `edi + w - count * w` up to
/// `edi + w - 1`, and keeps the length of memory.
proof fn lemma_backward_movs_frame(m: Seq<u8>, edi: int, esi: int, count: nat, w: int)
    requires
        0 < w,
    ensures
        rep_movs(m, edi, esi, count, w, true).len() == m.len(),
        forall|i: int|
            0 <= i < m.len() && (i < edi + w - count * w || i >= edi + w) ==> #[trigger] rep_movs(
                m,
                edi,
                esi,
                count,
                w,
                true,
            )[i] == m[i],
    decreases count,
{
    if count > 0 {
        let m1 = move_step(m, edi, esi, w);
        let c1 = (count - 1) as nat;
        lemma_backward_movs_frame(m1, edi - w, esi - w, c1, w);
        assert(count * w == c1 * w + w && c1 * w >= 0) by (nonlinear_arith)
            requires
                c1 == count - 1,
                count > 0,
                w > 0,
        ;
        assert(rep_movs(m, edi, esi, count, w, true) == rep_movs(m1, edi - w, esi - w, c1, w, true));
    }
}

/// When the source lies below the destination, `memmove` copies with the
/// direction flag set, from the ends of the runs down. Its last string move
/// moves single bytes: all `n` of them when `n < 12`, else the `t` bytes
/// left over once the bytes up to a doubleword boundary of `dest + n` and
/// the doublewords are moved. That move ends at the bottom of the
/// destination run: the bytes `dest + 1 ..= dest + t` receive the bytes at
/// `src + 1 ..= src + t`. No byte at or below `dest`, nor above
/// `dest + n + 3`, changes.
pub proof fn lemma_memmove_upward_last_bytes(m: Seq<u8>, dest: int, src: int, n: int)
    requires
        0 <= src < dest,
        copy_fits(m.len() as int, dest + n, src + n, n, true),
    ensures
        copy_result(m, dest + n, src + n, n, true).len() == m.len(),
        forall|j: int|
            1 <= j <= (if n < 12 {
                n
            } else {
                (n - (4 - (dest + n) % 4) % 4) % 4
            }) ==> #[trigger] copy_result(m, dest + n, src + n, n, true)[dest + j] == m[src + j],
        forall|i: int|
            0 <= i <= dest && i < m.len() ==> #[trigger] copy_result(m, dest + n, src + n, n, true)[i]
                == m[i],
        forall|i: int|
            dest + n + 3 < i < m.len() ==> #[trigger] copy_result(m, dest + n, src + n, n, true)[i]
                == m[i],
{
    let r_all = copy_result(m, dest + n, src + n, n, true);
    if n <= 0 {
    } else if n < 12 {
        lemma_backward_byte_movs_copies(m, dest + n, src + n, n as nat);
    } else {
        let d = dest + n;
        let s = src + n;
        let head = head_len(d);
        let rest = n - head;
        let q = rest / 4;
        let r = rest % 4;
        assert(0 <= head < 4);
        assert(rest == 4 * q + r && 0 <= q && 0 <= r < 4) by (nonlinear_arith)
            requires
                q == rest / 4,
                r == rest % 4,
                rest >= 8,
        ;
        let d1 = d - head;
        let s1 = s - head;
        let d2 = d1 - 4 * q;
        let s2 = s1 - 4 * q;
        assert(d2 == dest + r && s2 == src + r);
        let m1 = rep_movs(m, d, s, head as nat, 1, true);
        let m2 = rep_movs(m1, d1, s1, q as nat, 4, true);
        assert(r_all == rep_movs(m2, d2, s2, r as nat, 1, true));
        lemma_backward_movs_frame(m, d, s, head as nat, 1);
        lemma_backward_movs_frame(m1, d1, s1, q as nat, 4);
        lemma_backward_movs_frame(m2, d2, s2, r as nat, 1);
        assert(head * 1 == head && r * 1 == r);
        assert(q * 4 == 4 * q);
        if r > 0 {
            lemma_backward_byte_movs_copies(m2, d2, s2, r as nat);
            assert forall|j: int| 1 <= j <= r implies #[trigger] r_all[dest + j] == m[src + j] by {
                assert(r_all[dest + j] == m2[src + j]);
                assert(m2[src + j] == m1[src + j]);
                assert(m1[src + j] == m[src + j]);
            }
        }
    }
}

/// A back-to-front string move whose source does not lie above its
/// destination never reads a byte it has written: it copies the
/// `count * w` bytes that end at `esi + w - 1` to the `count * w` bytes that
/// end at `edi + w - 1`.
proof fn lemma_backward_movs_copies(m: Seq<u8>, edi: int, esi: int, count: nat, w: int)
    requires
        0 < w,
        esi <= edi,
        count * w <= esi,
        edi + w <= m.len(),
    ensures
        rep_movs(m, edi, esi, count, w, true) == copy_bytes(
            m,
            edi + w - count * w,
            esi + w - count * w,
            count * w,
        ),
    decreases count,
{
    if count == 0 {
        assert(count * w == 0) by (nonlinear_arith)
            requires
                count == 0,
        ;
        assert(copy_bytes(m, edi + w, esi + w, 0) =~= m);
    } else {
        let m1 = move_step(m, edi, esi, w);
        let c1 = (count - 1) as nat;
        assert(count * w == c1 * w + w && c1 * w >= 0) by (nonlinear_arith)
            requires
                c1 == count - 1,
                count > 0,
                w > 0,
        ;
        lemma_backward_movs_copies(m1, edi - w, esi - w, c1, w);
        assert(rep_movs(m, edi, esi, count, w, true) == rep_movs(m1, edi - w, esi - w, c1, w, true));
        let lo = edi + w - count * w;
        let d = edi - esi;
        assert(copy_bytes(m1, lo, lo - d, c1 * w) =~= copy_bytes(m, lo, lo - d, count * w));
    }
}

/// `memmove` with the source below the destination, the two at least three
/// bytes apart, moves each byte it writes from `dest - src` bytes below. The
/// bytes it writes are `dest + 1 ..= dest + n` when `n < 12`; otherwise, with
/// `h` the bytes up to a doubleword boundary of `dest + n` and `t` the bytes
/// left over after the doublewords, the `t` bytes from `dest + 1` on and the
/// bytes from `dest + t + 4` up to `dest + n` and up to `dest + n - h + 3`.
/// Every other byte stays.
pub proof fn lemma_memmove_upward_moves(m: Seq<u8>, dest: int, src: int, n: int)
    requires
        0 <= src < dest,
        n < 12 || dest - src >= 3,
        copy_fits(m.len() as int, dest + n, src + n, n, true),
    ensures
        copy_result(m, dest + n, src + n, n, true).len() == m.len(),
        forall|i: int|
            0 <= i < m.len() ==> #[trigger] copy_result(m, dest + n, src + n, n, true)[i] == if ({
                let h = (4 - (dest + n) % 4) % 4;
                let t = (n - h) % 4;
                if n < 12 {
                    dest + 1 <= i <= dest + n
                } else {
                    ||| dest + 1 <= i <= dest + t
                    ||| dest + t + 4 <= i <= dest + n
                    ||| dest + t + 4 <= i <= dest + n - h + 3
                }
            }) {
                m[i - (dest - src)]
            } else {
                m[i]
            },
{
    let res = copy_result(m, dest + n, src + n, n, true);
    if n <= 0 {
    } else if n < 12 {
        lemma_backward_byte_movs_copies(m, dest + n, src + n, n as nat);
    } else {
        let d = dest + n;
        let s = src + n;
        let head = head_len(d);
        let rest = n - head;
        let q = rest / 4;
        let r = rest % 4;
        assert(0 <= head < 4);
        assert(rest == 4 * q + r && 0 <= q && 0 <= r < 4) by (nonlinear_arith)
            requires
                q == rest / 4,
                r == rest % 4,
                rest >= 8,
        ;
        let d1 = d - head;
        let s1 = s - head;
        let d2 = d1 - 4 * q;
        let s2 = s1 - 4 * q;
        assert(d2 == dest + r && s2 == src + r);
        let m1 = rep_movs(m, d, s, head as nat, 1, true);
        let m2 = rep_movs(m1, d1, s1, q as nat, 4, true);
        assert(res == rep_movs(m2, d2, s2, r as nat, 1, true));
        assert(head * 1 == head && r * 1 == r);
        assert(q * 4 == 4 * q);
        lemma_backward_movs_copies(m, d, s, head as nat, 1);
        lemma_backward_movs_copies(m1, d1, s1, q as nat, 4);
        lemma_backward_movs_copies(m2, d2, s2, r as nat, 1);
        assert(m1 == copy_bytes(m, d + 1 - head, s + 1 - head, head));
        assert(m2 == copy_bytes(m1, d1 + 4 - 4 * q, s1 + 4 - 4 * q, 4 * q));
        assert(res == copy_bytes(m2, d2 + 1 - r, s2 + 1 - r, r));
    }
}

} // verus!
