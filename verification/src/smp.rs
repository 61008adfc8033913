use vstd::prelude::*;

verus! {

// Physical memory is modelled as the bytes from address 0 up: the byte at
// address `a` is `mem[a]`. Memory beyond the model reads as 0xFF, as absent
// memory does on the bus. Addresses are 32-bit: they wrap around, and the
// search loops compare them as signed integers.

/// "_MP_", the signature of the MP floating pointer structure.
pub const MP_FLOATING_SIGNATURE: u32 = 0x5F50_4D5F;

/// "PCMP", the signature of the MP configuration table.
pub const MP_CONFIG_SIGNATURE: u32 = 0x504D_4350;

/// Size of the MP configuration table header.
pub const MPCONF_SIZE: u32 = 44;

/// Size of a processor entry of the configuration table.
pub const MPPROC_SIZE: u32 = 20;

/// Size of an I/O APIC entry of the configuration table.
pub const IOAPIC_SIZE: u32 = 8;

/// Start of the BIOS ROM area that is searched last.
pub const BIOS_ROM: u32 = 0xE0000;

/// The address `a` read as a signed 32-bit integer.
pub open spec fn signed(a: u32) -> int {
    if a < 0x8000_0000 {
        a as int
    } else {
        a - 0x1_0000_0000
    }
}

/// The address whose signed reading is `q`.
pub open spec fn unsigned(q: int) -> u32 {
    if q < 0 {
        (q + 0x1_0000_0000) as u32
    } else {
        q as u32
    }
}

/// `a + k`, wrapping around at 2^32.
pub open spec fn offset(a: u32, k: u32) -> u32 {
    vstd::wrapping::u32_specs::wrapping_add(a, k)
}

/// The byte at address `a`.
pub open spec fn peek(mem: Seq<u8>, a: u32) -> u8 {
    if a < mem.len() {
        mem[a as int]
    } else {
        0xFF
    }
}

/// The little-endian word at address `a`.
pub open spec fn peek_u16(mem: Seq<u8>, a: u32) -> u16 {
    (peek(mem, a) as u16) | ((peek(mem, offset(a, 1)) as u16) << 8u16)
}

/// The little-endian doubleword at address `a`.
pub open spec fn peek_u32(mem: Seq<u8>, a: u32) -> u32 {
    (peek(mem, a) as u32) | ((peek(mem, offset(a, 1)) as u32) << 8u32) | ((peek(mem, offset(a, 2))
        as u32) << 16u32) | ((peek(mem, offset(a, 3)) as u32) << 24u32)
}

fn read_u8(mem: &Vec<u8>, a: u32) -> (b: u8)
    ensures
        b == peek(mem@, a),
{
    if (a as usize) < mem.len() {
        mem[a as usize]
    } else {
        0xFF
    }
}

fn read_u16(mem: &Vec<u8>, a: u32) -> (w: u16)
    ensures
        w == peek_u16(mem@, a),
{
    (read_u8(mem, a) as u16) | ((read_u8(mem, a.wrapping_add(1)) as u16) << 8u16)
}

fn read_u32(mem: &Vec<u8>, a: u32) -> (d: u32)
    ensures
        d == peek_u32(mem@, a),
{
    (read_u8(mem, a) as u32) | ((read_u8(mem, a.wrapping_add(1)) as u32) << 8u32) | ((read_u8(
        mem,
        a.wrapping_add(2),
    ) as u32) << 16u32) | ((read_u8(mem, a.wrapping_add(3)) as u32) << 24u32)
}

/// Whether `a` is below `b`, both read as signed integers.
fn signed_less(a: u32, b: u32) -> (r: bool)
    ensures
        r == (signed(a) < signed(b)),
{
    let r = (a as i32) < (b as i32);
    assert(((a as i32) < (b as i32)) == ((a ^ 0x8000_0000u32) < (b ^ 0x8000_0000u32)))
        by (bit_vector);
    assert(a < 0x8000_0000u32 ==> a ^ 0x8000_0000u32 == a + 0x8000_0000u32) by (bit_vector);
    assert(a >= 0x8000_0000u32 ==> a ^ 0x8000_0000u32 == a - 0x8000_0000u32) by (bit_vector);
    assert(b < 0x8000_0000u32 ==> b ^ 0x8000_0000u32 == b + 0x8000_0000u32) by (bit_vector);
    assert(b >= 0x8000_0000u32 ==> b ^ 0x8000_0000u32 == b - 0x8000_0000u32) by (bit_vector);
    r
}

/// An address found, as its signed reading.
pub open spec fn opt_signed(r: Option<u32>) -> Option<int> {
    match r {
        Some(q) => Some(signed(q)),
        None => None,
    }
}

/// The MP floating pointer signature stands at the address whose signed
/// reading is `q`.
pub open spec fn signature_at(mem: Seq<u8>, q: int) -> bool {
    peek_u32(mem, unsigned(q)) == MP_FLOATING_SIGNATURE
}

/// `q` is the first position from `from` on where the signature stands.
pub open spec fn is_first_signature(mem: Seq<u8>, from: int, q: int) -> bool {
    &&& from <= q
    &&& signature_at(mem, q)
    &&& forall|r: int| from <= r < q ==> !#[trigger] signature_at(mem, r)
}

/// The first position in `from .. to` (signed readings of addresses) where
/// the signature stands, if any.
pub open spec fn first_signature(mem: Seq<u8>, from: int, to: int) -> Option<int> {
    if exists|q: int| q < to && #[trigger] is_first_signature(mem, from, q) {
        Some(choose|q: int| q < to && #[trigger] is_first_signature(mem, from, q))
    } else {
        None
    }
}

/// Where the search of `length` doublewords from `ptr` on finds the
/// signature: the positions from `ptr` up to `ptr + 4 * length` (wrapped to
/// 32 bits), compared as signed integers.
pub open spec fn search_spec(mem: Seq<u8>, ptr: u32, length: u32) -> Option<int> {
    let end = offset(ptr, vstd::wrapping::u32_specs::wrapping_mul(length, 4));
    first_signature(mem, signed(ptr), signed(end))
}

/// The two BIOS-data-area pointers where the MP floating pointer may lie:
/// the byte at 0x40E times 16, and `(b << 8 | c << 4) * 1024 - 1024` for the
/// bytes `b` at 0x414 and `c` at 0x413, both shifted within a byte (so `b`
/// leaves nothing and `c` keeps its low four bits); the subtraction wraps
/// around at 2^32.
pub open spec fn search_ptrs(mem: Seq<u8>) -> (u32, u32) {
    let p1 = (peek(mem, 0x40E) as u32) << 4u32;
    let hi = ((peek(mem, 0x414) as u32) << 8u32) as u8;
    let lo = peek(mem, 0x413) << 4u8;
    let kib = (hi | lo) as u32;
    let p2 = vstd::wrapping::u32_specs::wrapping_sub((kib * 1024) as u32, 1024);
    (p1, p2)
}

/// Where the MP floating pointer is found: the first signature in the 1024
/// doublewords (4 KiB) from the first BIOS-data-area pointer on, else in
/// those from the second, else in the BIOS ROM area (`0x10000` doublewords
/// from `BIOS_ROM`).
pub open spec fn find_spec(mem: Seq<u8>) -> Option<int> {
    let (p1, p2) = search_ptrs(mem);
    match search_spec(mem, p1, 1024) {
        Some(q) => Some(q),
        None => match search_spec(mem, p2, 1024) {
            Some(q) => Some(q),
            None => search_spec(mem, BIOS_ROM, 0x10000),
        },
    }
}

/// The MP configuration table, if the floating pointer is found and points to
/// a table with the right signature and a version of 1 or 4 (the checksum is
/// not looked at).
pub open spec fn config_spec(mem: Seq<u8>) -> Option<u32> {
    match find_spec(mem) {
        None => None,
        Some(fp) => {
            let conf = peek_u32(mem, offset(unsigned(fp), 4));
            if peek_u32(mem, conf) != MP_CONFIG_SIGNATURE {
                None
            } else if peek(mem, offset(conf, 6)) != 1 && peek(mem, offset(conf, 6)) != 4 {
                None
            } else {
                Some(conf)
            }
        },
    }
}

/// The address just past the configuration table at `conf`.
pub open spec fn table_end(mem: Seq<u8>, conf: u32) -> u32 {
    offset(conf, peek_u16(mem, offset(conf, 4)) as u32)
}

/// How far `p` is below `e`.
pub open spec fn distance(p: int, e: int) -> nat {
    if p < e {
        (e - p) as nat
    } else {
        0
    }
}

/// The most entries that the configuration-table walk reads: one for each
/// 32-bit address.
pub const WALK_LIMIT: u64 = 0x1_0000_0000;

/// One step of the configuration-table walk from the entry at `p`: where the
/// next entry starts (20 bytes on for a processor entry, type 0; 8 bytes on
/// for an I/O APIC entry, type 2, or a type-4 entry), or nothing when the
/// entry's type ends the walk.
pub open spec fn walk_step(mem: Seq<u8>, p: u32) -> Option<u32> {
    let t = peek(mem, p);
    if t == 0 {
        Some(offset(p, MPPROC_SIZE))
    } else if t == 2 || t == 4 {
        Some(offset(p, 8))
    } else {
        None
    }
}

/// The walk from `p` stops, within `k` steps, before the table's end `e`
/// (addresses compared as signed integers): at `e` or past it, or at an
/// entry whose type ends it.
pub open spec fn walk_ends(mem: Seq<u8>, p: u32, e: u32, k: nat) -> bool
    decreases k,
{
    if signed(p) >= signed(e) {
        true
    } else {
        match walk_step(mem, p) {
            None => true,
            Some(q) => if k == 0 {
                false
            } else {
                walk_ends(mem, q, e, (k - 1) as nat)
            },
        }
    }
}

/// Where the walk from `p` stands after `i` steps (it stays put once an
/// entry's type ends it).
pub open spec fn walk_pos(mem: Seq<u8>, p: u32, i: nat) -> u32
    decreases i,
{
    if i == 0 {
        p
    } else {
        let x = walk_pos(mem, p, (i - 1) as nat);
        match walk_step(mem, x) {
            Some(q) => q,
            None => x,
        }
    }
}

/// The walk goes on from the entry at `x`: `x` is below `e` and its type
/// does not end the walk.
pub open spec fn goes_on(mem: Seq<u8>, x: u32, e: u32) -> bool {
    signed(x) < signed(e) && walk_step(mem, x) is Some
}

proof fn lemma_walk_pos_shift(mem: Seq<u8>, p: u32, q: u32, i: nat)
    requires
        walk_step(mem, p) == Some(q),
    ensures
        walk_pos(mem, p, i + 1) == walk_pos(mem, q, i),
    decreases i,
{
    if i > 0 {
        lemma_walk_pos_shift(mem, p, q, (i - 1) as nat);
    } else {
        assert(walk_pos(mem, p, 0) == p);
    }
}

/// The walk ends within `k` steps exactly when one of the first `k + 1`
/// entries it reaches does not let it go on.
proof fn lemma_walk_ends_iff(mem: Seq<u8>, p: u32, e: u32, k: nat)
    ensures
        walk_ends(mem, p, e, k) <==> exists|j: nat| j <= k && !#[trigger] goes_on(mem, walk_pos(mem, p, j), e),
    decreases k,
{
    if goes_on(mem, p, e) {
        let q = walk_step(mem, p)->0;
        if k > 0 {
            lemma_walk_ends_iff(mem, q, e, (k - 1) as nat);
            if walk_ends(mem, p, e, k) {
                let j = choose|j: nat| j <= k - 1 && !#[trigger] goes_on(mem, walk_pos(mem, q, j), e);
                lemma_walk_pos_shift(mem, p, q, j);
                assert(!goes_on(mem, walk_pos(mem, p, j + 1), e));
            } else {
                assert forall|j: nat| j <= k implies #[trigger] goes_on(mem, walk_pos(mem, p, j), e) by {
                    if j > 0 {
                        lemma_walk_pos_shift(mem, p, q, (j - 1) as nat);
                        assert(goes_on(mem, walk_pos(mem, q, (j - 1) as nat), e));
                    }
                }
            }
        } else {
            assert forall|j: nat| j <= k implies #[trigger] goes_on(mem, walk_pos(mem, p, j), e) by {
                assert(j == 0);
            }
        }
    } else {
        assert(!goes_on(mem, walk_pos(mem, p, 0), e));
    }
}

/// Once two steps of the walk stand at the same address, it repeats itself.
proof fn lemma_walk_repeats(mem: Seq<u8>, p: u32, a: nat, b: nat, t: nat)
    requires
        walk_pos(mem, p, a) == walk_pos(mem, p, b),
    ensures
        walk_pos(mem, p, a + t) == walk_pos(mem, p, b + t),
    decreases t,
{
    if t > 0 {
        lemma_walk_repeats(mem, p, a, b, (t - 1) as nat);
        assert(walk_pos(mem, p, a + t) == walk_pos(mem, p, b + t));
    }
}

/// A walk that repeats itself within its first `WALK_LIMIT` steps, all of
/// which go on, goes on for ever.
proof fn lemma_walk_goes_on(mem: Seq<u8>, p: u32, e: u32, a: nat, b: nat, i: nat)
    requires
        a < b <= WALK_LIMIT,
        walk_pos(mem, p, a) == walk_pos(mem, p, b),
        forall|j: nat| j <= WALK_LIMIT ==> #[trigger] goes_on(mem, walk_pos(mem, p, j), e),
    ensures
        goes_on(mem, walk_pos(mem, p, i), e),
    decreases i,
{
    if i > WALK_LIMIT {
        let t = (i - b) as nat;
        lemma_walk_repeats(mem, p, a, b, t);
        lemma_walk_goes_on(mem, p, e, a, b, (a + t) as nat);
    }
}

/// A walk that ends at all ends within `WALK_LIMIT` steps: from an address
/// the walk always goes the same way, so a walk that came back to an address
/// it had read would go round for ever, and there are `WALK_LIMIT`
/// addresses.
pub proof fn lemma_walk_ends_within_limit(mem: Seq<u8>, p: u32, e: u32, k: nat)
    requires
        walk_ends(mem, p, e, k),
    ensures
        walk_ends(mem, p, e, WALK_LIMIT as nat),
{
    let lim = WALK_LIMIT as nat;
    lemma_walk_ends_iff(mem, p, e, k);
    lemma_walk_ends_iff(mem, p, e, lim);
    if !walk_ends(mem, p, e, lim) {
        let steps = vstd::set_lib::set_int_range(0, (lim + 1) as int);
        let f = |i: int| walk_pos(mem, p, i as nat) as int;
        let addrs = vstd::set_lib::set_int_range(0, 0x1_0000_0000);
        vstd::set_lib::lemma_int_range(0, (lim + 1) as int);
        vstd::set_lib::lemma_int_range(0, 0x1_0000_0000);
        if vstd::relations::injective_on(f, steps) {
            vstd::set_lib::lemma_map_size(steps, steps.map(f), f);
            assert(steps.map(f).subset_of(addrs));
            vstd::set_lib::lemma_len_subset(steps.map(f), addrs);
            assert(false);
        }
        let (x1, x2) = choose|x1: int, x2: int|
            steps.contains(x1) && steps.contains(x2) && #[trigger] f(x1) == #[trigger] f(x2) && x1
                != x2;
        let (a, b) = if x1 < x2 {
            (x1 as nat, x2 as nat)
        } else {
            (x2 as nat, x1 as nat)
        };
        assert(walk_pos(mem, p, a) == walk_pos(mem, p, b));
        let j = choose|j: nat| j <= k && !#[trigger] goes_on(mem, walk_pos(mem, p, j), e);
        lemma_walk_goes_on(mem, p, e, a, b, j);
    }
}

/// The counts that the configuration-table walk arrives at from the entry at
/// `p`, with at most `k` more steps, before the table's end `e`, starting from
/// `procs` processors and `ioapics` I/O APICs: a processor entry (type 0)
/// counts a processor, an I/O APIC entry (type 2) counts an I/O APIC, a
/// type-4 entry is skipped, and any other type ends the walk. The walk goes on
/// while `p` is below `e` as signed integers, the addresses wrapping around
/// at 2^32. The processor count wraps at 2^16.
pub open spec fn scan_spec(mem: Seq<u8>, p: u32, e: u32, k: nat, procs: u16, ioapics: nat) -> (
    u16,
    nat,
)
    decreases k,
{
    if signed(p) >= signed(e) || k == 0 {
        (procs, ioapics)
    } else {
        let t = peek(mem, p);
        if t == 0 {
            scan_spec(
                mem,
                offset(p, MPPROC_SIZE),
                e,
                (k - 1) as nat,
                vstd::wrapping::u16_specs::wrapping_add(procs, 1),
                ioapics,
            )
        } else if t == 2 {
            scan_spec(mem, offset(p, IOAPIC_SIZE), e, (k - 1) as nat, procs, ioapics + 1)
        } else if t == 4 {
            scan_spec(mem, offset(p, 8), e, (k - 1) as nat, procs, ioapics)
        } else {
            (procs, ioapics)
        }
    }
}

/// The size of a configuration-table entry of type `t`: 20 bytes for a
/// processor entry, 8 for the others.
pub open spec fn entry_size(t: u8) -> int {
    if t == 0 {
        20
    } else {
        8
    }
}

/// The bytes that a run of entries of the types `ts` takes.
pub open spec fn run_len(ts: Seq<u8>) -> int
    decreases ts.len(),
{
    if ts.len() == 0 {
        0
    } else {
        entry_size(ts[0]) + run_len(ts.drop_first())
    }
}

/// How many of `ts` are `t`.
pub open spec fn count_type(ts: Seq<u8>, t: u8) -> nat
    decreases ts.len(),
{
    if ts.len() == 0 {
        0
    } else {
        (if ts[0] == t {
            1nat
        } else {
            0nat
        }) + count_type(ts.drop_first(), t)
    }
}

/// Entries of the types `ts` stand one after the other from `p` on: each
/// entry's first byte is its type.
pub open spec fn laid_out(mem: Seq<u8>, p: u32, ts: Seq<u8>) -> bool
    decreases ts.len(),
{
    ts.len() == 0 || (peek(mem, p) == ts[0] && laid_out(
        mem,
        offset(p, entry_size(ts[0]) as u32),
        ts.drop_first(),
    ))
}

proof fn lemma_run_len_nonneg(ts: Seq<u8>)
    ensures
        run_len(ts) >= 0,
    decreases ts.len(),
{
    if ts.len() > 0 {
        lemma_run_len_nonneg(ts.drop_first());
    }
}

/// A table whose entries are a run of processor, I/O APIC and type-4
/// entries, ending where the table ends, counts one processor for each
/// processor entry (modulo 2^16) and one I/O APIC for each I/O APIC entry,
/// whatever the other bytes of the entries hold.
pub proof fn lemma_scan_counts_entries(
    mem: Seq<u8>,
    p: u32,
    e: u32,
    ts: Seq<u8>,
    k: nat,
    procs: u16,
    ioapics: nat,
)
    requires
        forall|i: int| 0 <= i < ts.len() ==> #[trigger] ts[i] == 0 || ts[i] == 2 || ts[i] == 4,
        laid_out(mem, p, ts),
        signed(e) == signed(p) + run_len(ts),
        ts.len() <= k,
    ensures
        scan_spec(mem, p, e, k, procs, ioapics) == (
            ((procs + count_type(ts, 0)) % 0x10000) as u16,
            ioapics + count_type(ts, 2),
        ),
    decreases ts.len(),
{
    lemma_run_len_nonneg(ts);
    if ts.len() == 0 {
    } else {
        let t = ts[0];
        let rest = ts.drop_first();
        lemma_run_len_nonneg(rest);
        let q = offset(p, entry_size(t) as u32);
        assert(-0x8000_0000 <= signed(e) <= 0x7FFF_FFFF);
        lemma_signed_step(p, entry_size(t) as u32);
        assert(signed(q) == signed(p) + entry_size(t));
        assert forall|i: int| 0 <= i < rest.len() implies #[trigger] rest[i] == 0 || rest[i] == 2
            || rest[i] == 4 by {
            assert(rest[i] == ts[i + 1]);
        }
        assert(t == 0 || t == 2 || t == 4);
        if t == 0 {
            let np = vstd::wrapping::u16_specs::wrapping_add(procs, 1);
            lemma_scan_counts_entries(mem, q, e, rest, (k - 1) as nat, np, ioapics);
            assert(np == (procs + 1) % 0x10000);
            assert(((procs + 1) % 0x10000 + count_type(rest, 0)) % 0x10000 == (procs + 1
                + count_type(rest, 0)) % 0x10000) by {
                vstd::arithmetic::div_mod::lemma_add_mod_noop_right(
                    count_type(rest, 0) as int,
                    procs + 1,
                    0x10000,
                );
            }
        } else if t == 2 {
            lemma_scan_counts_entries(mem, q, e, rest, (k - 1) as nat, procs, ioapics + 1);
        } else {
            lemma_scan_counts_entries(mem, q, e, rest, (k - 1) as nat, procs, ioapics);
        }
    }
}

/// What the multiprocessor scan finds.
#[derive(Clone, Copy, Debug, PartialEq, Eq, Structural)]
pub struct MpInfo {
    /// Processor entries in the configuration table.
    pub processors: u16,
    /// I/O APIC entries in the configuration table.
    pub io_apics: u64,
}

/// The MP floating pointer structure (its fields, at these offsets).
pub struct MPFloatingPointer {
    /// At offset 0: "_MP_".
    pub signature: u32,
    /// At offset 4: the address of the configuration table.
    pub config_ptr: u32,
}

/// The header of the MP configuration table (the fields that are read).
pub struct MPConf {
    /// At offset 0: "PCMP".
    pub signature: u32,
    /// At offset 4: the length of the table in bytes, header included.
    pub length: u16,
    /// At offset 6: the specification revision.
    pub version: u8,
}

/// The signed reading of `a + 1` is one more than that of `a`, unless `a` is
/// the largest signed value.
proof fn lemma_signed_step(a: u32, k: u32)
    requires
        signed(a) + k <= 0x7FFF_FFFF,
    ensures
        signed(offset(a, k)) == signed(a) + k,
        unsigned(signed(a)) == a,
        -0x8000_0000 <= signed(a) <= 0x7FFF_FFFF,
{
}

impl MPFloatingPointer {
    /// The two places in low memory that the BIOS data area points to.
    #[allow(non_snake_case)]
    pub fn ConstructSearchPtr(mem: &Vec<u8>) -> (ptrs: (u32, u32))
        ensures
            ptrs == search_ptrs(mem@),
    {
        let seg: u8 = read_u8(mem, 0x40E);
        let hi: u8 = read_u8(mem, 0x414);
        let lo: u8 = read_u8(mem, 0x413);
        let p1: u32 = (seg as u32) << 4u32;
        let hi_part: u8 = ((hi as u32) << 8u32) as u8;
        let lo_part: u8 = lo << 4u8;
        let kib: u32 = (hi_part | lo_part) as u32;
        let p2: u32 = (kib * 1024).wrapping_sub(1024);
        (p1, p2)
    }

    /// The first address from `ptr` on (read at every byte, up to
    /// `length` doublewords further, addresses compared as signed integers)
    /// where the signature "_MP_" stands.
    #[allow(non_snake_case)]
    pub fn Search(mem: &Vec<u8>, ptr: u32, length: u32) -> (r: Option<u32>)
        ensures
            opt_signed(r) == search_spec(mem@, ptr, length),
    {
        let end: u32 = ptr.wrapping_add(length.wrapping_mul(4));
        let mut pos: u32 = ptr;
        while signed_less(pos, end)
            invariant
                end == offset(ptr, vstd::wrapping::u32_specs::wrapping_mul(length, 4)),
                signed(ptr) <= signed(pos),
                signed(pos) <= signed(end) || pos == ptr,
                forall|q: int| signed(ptr) <= q < signed(pos) ==> !#[trigger] signature_at(mem@, q),
            decreases distance(signed(pos), signed(end)),
        {
            proof {
                lemma_signed_step(pos, 0);
            }
            if read_u32(mem, pos) == MP_FLOATING_SIGNATURE {
                let r = Some(pos);
                proof {
                    assert(is_first_signature(mem@, signed(ptr), signed(pos)));
                    lemma_first_signature_is(mem@, signed(ptr), signed(end), signed(pos));
                }
                return r;
            }
            proof {
                lemma_signed_step(pos, 1);
            }
            pos = pos.wrapping_add(1);
        }
        proof {
            assert forall|q: int| q < signed(end) && #[trigger] is_first_signature(
                mem@,
                signed(ptr),
                q,
            ) implies false by {
                assert(!signature_at(mem@, q));
            }
        }
        None
    }

    /// Finds the MP floating pointer structure: in the 1024 doublewords
    /// (4 KiB) from each of the two BIOS-data-area pointers on, then in the
    /// BIOS ROM area.
    #[allow(non_snake_case)]
    pub fn Find(mem: &Vec<u8>) -> (r: Option<u32>)
        ensures
            opt_signed(r) == find_spec(mem@),
    {
        let (p1, p2) = MPFloatingPointer::ConstructSearchPtr(mem);
        match MPFloatingPointer::Search(mem, p1, 1024) {
            Some(mp_t) => {
                return Some(mp_t);
            },
            None => {},
        }
        match MPFloatingPointer::Search(mem, p2, 1024) {
            Some(mp_t) => {
                return Some(mp_t);
            },
            None => {},
        }
        match MPFloatingPointer::Search(mem, BIOS_ROM, 0x10000) {
            Some(mp_t) => Some(mp_t),
            None => None,
        }
    }
}

/// The first signature position is the one position that is first.
proof fn lemma_first_signature_is(mem: Seq<u8>, from: int, to: int, q: int)
    requires
        q < to,
        is_first_signature(mem, from, q),
    ensures
        first_signature(mem, from, to) == Some(q),
{
    let c = choose|r: int| r < to && #[trigger] is_first_signature(mem, from, r);
    assert(is_first_signature(mem, from, c));
    if c < q {
        assert(!signature_at(mem, c));
    } else if q < c {
        assert(!signature_at(mem, q));
    }
}

impl MPConf {
    /// Finds the MP configuration table: the one the floating pointer points
    /// to, if its signature is "PCMP" and its version 1 or 4.
    #[allow(non_snake_case)]
    pub fn Find(mem: &Vec<u8>) -> (r: Option<u32>)
        ensures
            r == config_spec(mem@),
    {
        let conf = match MPFloatingPointer::Find(mem) {
            Some(mp_t) => mp_t,
            None => {
                return None;
            },
        };
        proof {
            lemma_signed_step(conf, 0);
        }
        let mpconf: u32 = read_u32(mem, conf.wrapping_add(4));
        if read_u32(mem, mpconf) != MP_CONFIG_SIGNATURE {
            return None;
        }
        let version: u8 = read_u8(mem, mpconf.wrapping_add(6));
        if version != 1 && version != 4 {
            return None;
        }
        Some(mpconf)
    }
}

/// Looks for the multiprocessor configuration table and counts its processor
/// and I/O APIC entries; nothing when there is no valid table. The walk over
/// the entries must end: on a table where it goes round the whole address
/// space for ever, with every entry it reads of a known type, the scan never
/// returns. A walk that ends ends within `WALK_LIMIT` steps
/// (`lemma_walk_ends_within_limit`).
pub fn init(mem: &Vec<u8>) -> (r: Option<MpInfo>)
    requires
        config_spec(mem@) matches Some(conf) ==> exists|k: nat|
            walk_ends(mem@, offset(conf, MPCONF_SIZE), table_end(mem@, conf), k),
    ensures
        config_spec(mem@) is None ==> r is None,
        config_spec(mem@) matches Some(conf) ==> r matches Some(info) && ({
            let counts = scan_spec(
                mem@,
                offset(conf, MPCONF_SIZE),
                table_end(mem@, conf),
                WALK_LIMIT as nat,
                0,
                0,
            );
            info.processors == counts.0 && info.io_apics == counts.1
        }),
{
    let conf = match MPConf::Find(mem) {
        Some(mp_t) => mp_t,
        None => {
            return None;
        },
    };
    let mut p: u32 = conf.wrapping_add(MPCONF_SIZE);
    let e: u32 = conf.wrapping_add(read_u16(mem, conf.wrapping_add(4)) as u32);
    let mut nproc: u16 = 0;
    let mut nioapic: u64 = 0;
    let mut done = false;
    proof {
        let k0 = choose|k: nat| walk_ends(mem@, p, e, k);
        lemma_walk_ends_within_limit(mem@, p, e, k0);
    }
    let ghost mut k: nat = WALK_LIMIT as nat;
    let ghost target = scan_spec(mem@, p, e, k, 0, 0);
    while signed_less(p, e) && !done
        invariant
            e == table_end(mem@, conf),
            k <= WALK_LIMIT,
            nioapic + k <= WALK_LIMIT,
            !done ==> walk_ends(mem@, p, e, k),
            done ==> target == (nproc, nioapic as nat),
            !done ==> target == scan_spec(mem@, p, e, k, nproc, nioapic as nat),
        decreases k, if done {
            0int
        } else {
            1int
        },
    {
        let t: u8 = read_u8(mem, p);
        if t == 0 {
            nproc = nproc.wrapping_add(1);
            p = p.wrapping_add(MPPROC_SIZE);
            proof {
                k = (k - 1) as nat;
            }
        } else if t == 2 {
            nioapic = nioapic + 1;
            p = p.wrapping_add(IOAPIC_SIZE);
            proof {
                k = (k - 1) as nat;
            }
        } else if t == 4 {
            p = p.wrapping_add(8);
            proof {
                k = (k - 1) as nat;
            }
        } else {
            done = true;
        }
    }
    Some(MpInfo { processors: nproc, io_apics: nioapic })
}

} // verus!
