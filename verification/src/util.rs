use vstd::prelude::*;

verus! {

/// `trace` records the states that a walk over `lo..hi` passes through:
/// `trace[0]` is where it starts, and each step `k` takes `trace[k]` to
/// `trace[k + 1]` by one call of `it` on the index `lo + k`.
pub open spec fn is_range_trace<S, F: Fn(S, usize) -> S>(
    it: F,
    lo: usize,
    hi: usize,
    trace: Seq<S>,
) -> bool {
    &&& lo <= hi
    &&& trace.len() == hi - lo + 1
    &&& forall|k: int|
        0 <= k < hi - lo ==> call_ensures(it, (#[trigger] trace[k], (lo + k) as usize), trace[k + 1])
}

/// Calls `it` once for each index of `lo..hi`, in increasing order, threading a
/// state from one call to the next, and returns the last state.
///
/// Nothing is called when `hi <= lo`.
pub fn range<S, F: Fn(S, usize) -> S>(lo: usize, hi: usize, init: S, it: F) -> (out: S)
    requires
        forall|s: S, i: usize| lo <= i < hi ==> call_requires(it, (s, i)),
    ensures
        hi <= lo ==> out == init,
        lo < hi ==> exists|trace: Seq<S>|
            {
                &&& is_range_trace(it, lo, hi, trace)
                &&& trace[0] == init
                &&& trace.last() == out
            },
{
    let mut state = init;
    let mut iter: usize = lo;
    let ghost mut trace: Seq<S> = seq![init];
    while iter < hi
        invariant
            lo <= iter,
            hi <= lo ==> iter == lo && state == init,
            lo < hi ==> iter <= hi,
            lo < hi ==> is_range_trace(it, lo, iter, trace),
            trace.len() >= 1,
            trace[0] == init,
            trace.last() == state,
            forall|s: S, i: usize| lo <= i < hi ==> call_requires(it, (s, i)),
        decreases hi - iter,
    {
        let next = it(state, iter);
        proof {
            let old_trace = trace;
            trace = trace.push(next);
            assert forall|k: int| 0 <= k < iter + 1 - lo implies call_ensures(
                it,
                (#[trigger] trace[k], (lo + k) as usize),
                trace[k + 1],
            ) by {
                if k < iter - lo {
                    assert(trace[k] == old_trace[k]);
                    assert(trace[k + 1] == old_trace[k + 1]);
                }
            }
        }
        state = next;
        iter += 1;
    }
    state
}

/// Walking `lo..mid` and then `mid..hi` is walking `lo..hi`: two traces that
/// meet at `mid` (the last state of the first is the first of the second)
/// join into one trace of `lo..hi` that starts and ends where they do.
pub proof fn lemma_range_join<S, F: Fn(S, usize) -> S>(
    it: F,
    lo: usize,
    mid: usize,
    hi: usize,
    t1: Seq<S>,
    t2: Seq<S>,
)
    requires
        is_range_trace(it, lo, mid, t1),
        is_range_trace(it, mid, hi, t2),
        t1.last() == t2[0],
    ensures
        is_range_trace(it, lo, hi, t1 + t2.skip(1)),
        (t1 + t2.skip(1))[0] == t1[0],
        (t1 + t2.skip(1)).last() == t2.last(),
{
    let t = t1 + t2.skip(1);
    assert forall|k: int| 0 <= k < hi - lo implies call_ensures(
        it,
        (#[trigger] t[k], (lo + k) as usize),
        t[k + 1],
    ) by {
        if k < mid - lo {
            assert(t[k] == t1[k]);
            assert(t[k + 1] == t1[k + 1]);
            assert(call_ensures(it, (t1[k], (lo + k) as usize), t1[k + 1]));
        } else {
            let j = k - (mid - lo);
            if j == 0 {
                assert(t[k] == t1.last());
            } else {
                assert(t[k] == t2[j]);
            }
            assert(t[k] == t2[j]);
            assert(t[k + 1] == t2[j + 1]);
            assert(call_ensures(it, (t2[j], (mid + j) as usize), t2[j + 1]));
        }
    }
}

/// A trace of `lo..hi` splits at any `mid` between into a trace of `lo..mid`
/// and a trace of `mid..hi` that meet there.
pub proof fn lemma_range_split<S, F: Fn(S, usize) -> S>(
    it: F,
    lo: usize,
    mid: usize,
    hi: usize,
    t: Seq<S>,
)
    requires
        lo <= mid <= hi,
        is_range_trace(it, lo, hi, t),
    ensures
        is_range_trace(it, lo, mid, t.take(mid - lo + 1)),
        is_range_trace(it, mid, hi, t.skip(mid - lo)),
        t.take(mid - lo + 1).last() == t.skip(mid - lo)[0],
        t.take(mid - lo + 1)[0] == t[0],
        t.skip(mid - lo).last() == t.last(),
{
    let a = t.take(mid - lo + 1);
    let b = t.skip(mid - lo);
    assert forall|k: int| 0 <= k < mid - lo implies call_ensures(
        it,
        (#[trigger] a[k], (lo + k) as usize),
        a[k + 1],
    ) by {
        assert(call_ensures(it, (t[k], (lo + k) as usize), t[k + 1]));
    }
    assert forall|k: int| 0 <= k < hi - mid implies call_ensures(
        it,
        (#[trigger] b[k], (mid + k) as usize),
        b[k + 1],
    ) by {
        let j = k + (mid - lo);
        assert(call_ensures(it, (t[j], (lo + j) as usize), t[j + 1]));
        assert((lo + j) as usize == (mid + k) as usize);
    }
}

/// The character for the digit `d`: `0`..`9`, then `A` on (the byte sum
/// wraps around).
pub open spec fn digit_char(d: u8) -> u8 {
    if d <= 9 {
        (48 + d) as u8
    } else {
        vstd::wrapping::u8_specs::wrapping_add(65, (d - 10) as u8)
    }
}

/// The byte that a digit of magnitude `d` leaves when it is cut to eight
/// bits: `d` itself modulo 256, or its negation modulo 256 for a negative
/// digit.
pub open spec fn digit_byte(d: nat, neg: bool) -> u8 {
    if neg {
        ((256 - d % 256) % 256) as u8
    } else {
        (d % 256) as u8
    }
}

/// The digits of a number of magnitude `m` in base `a`, most significant
/// first, none for 0: the lowest digit has the sign that `neg` gives, and
/// each higher one flips it when `flip` is set (division by a negative
/// radix).
pub open spec fn digits_spec(m: nat, a: nat, neg: bool, flip: bool) -> Seq<u8>
    decreases m,
{
    if m == 0 || a < 2 {
        Seq::empty()
    } else {
        proof {
            assert(m / a < m) by (nonlinear_arith)
                requires
                    m > 0,
                    a >= 2,
            ;
        }
        digits_spec(m / a, a, neg != flip, flip).push(digit_char(digit_byte(m % a, neg)))
    }
}

/// The radix read as a signed 32-bit integer is negative.
pub open spec fn radix_negative(radix: u32) -> bool {
    radix >= 0x8000_0000
}

/// The magnitude of the radix read as a signed 32-bit integer.
pub open spec fn radix_magnitude(radix: u32) -> nat {
    if radix_negative(radix) {
        (0x1_0000_0000 - radix) as nat
    } else {
        radix as nat
    }
}

/// The text of `num` in base `radix`: a `-` before the digits of a negative
/// number; nothing at all for 0. The arithmetic is that of 32-bit signed
/// integers: the radix is read as one (a radix from 2^31 on is negative, and
/// the signs of the digits then alternate), and `i32::MIN` stays negative
/// when it is negated, so its digits are negative. Each digit is cut to a
/// byte before it is turned into a character.
pub open spec fn to_str_spec(num: i32, radix: u32) -> Seq<u8> {
    let a = radix_magnitude(radix);
    let flip = radix_negative(radix);
    if num == i32::MIN {
        seq![45u8] + digits_spec(0x8000_0000, a, true, flip)
    } else if num < 0 {
        seq![45u8] + digits_spec((-num) as nat, a, false, flip)
    } else {
        digits_spec(num as nat, a, false, flip)
    }
}

/// `s` in reverse order.
pub open spec fn reversed(s: Seq<u8>) -> Seq<u8> {
    Seq::new(s.len(), |i: int| s[s.len() - 1 - i])
}

/// The bytes of the text of `num` in base `radix`, in the order they are
/// written out: a `-` for a negative number, then its digits from the most
/// significant down. A radix of 0 divides by zero, and a radix of 1 or
/// `u32::MAX` (-1 as a signed integer) never brings a number other than 0
/// down to 0: those are left out for such a number.
pub fn to_str_bytes(num: i32, radix: u32) -> (out: Vec<u8>)
    requires
        num != 0 ==> 2 <= radix && radix != u32::MAX,
    ensures
        out@ == to_str_spec(num, radix),
{
    let is_neg = num < 0;
    // The magnitude of `num` after it is negated (for `i32::MIN`, 2^31), and
    // the sign of the current number.
    let mut m: u32 = if num == i32::MIN {
        0x8000_0000
    } else if is_neg {
        (-num) as u32
    } else {
        num as u32
    };
    let mut neg: bool = num == i32::MIN;
    let flip: bool = radix >= 0x8000_0000;
    let a: u32 = if flip {
        0u32.wrapping_sub(radix)
    } else {
        radix
    };
    let ghost m0: nat = m as nat;
    let ghost neg0: bool = neg;
    let mut buf: Vec<u8> = Vec::new();
    assert(digits_spec(m0, a as nat, neg0, flip) =~= digits_spec(m as nat, a as nat, neg, flip)
        + reversed(buf@));
    while m != 0
        invariant
            a == radix_magnitude(radix),
            flip == radix_negative(radix),
            m != 0 ==> a >= 2,
            digits_spec(m0, a as nat, neg0, flip) == digits_spec(m as nat, a as nat, neg, flip)
                + reversed(buf@),
        decreases m,
    {
        let digit: u32 = m % a;
        let next: u32 = m / a;
        assert(next < m) by (nonlinear_arith)
            requires
                m > 0,
                a >= 2,
                next == m / a,
        ;
        let low: u8 = (digit % 256) as u8;
        let d: u8 = if neg {
            0u8.wrapping_sub(low)
        } else {
            low
        };
        assert(d == digit_byte(digit as nat, neg));
        let c: u8 = if d <= 9 {
            ('0' as u8) + d
        } else {
            ('A' as u8).wrapping_add(d - 10)
        };
        let ghost old_buf = buf@;
        buf.push(c);
        assert(reversed(buf@) =~= seq![c] + reversed(old_buf));
        assert(digits_spec(m as nat, a as nat, neg, flip) == digits_spec(
            next as nat,
            a as nat,
            neg != flip,
            flip,
        ).push(c));
        m = next;
        neg = neg != flip;
        assert(digits_spec(m0, a as nat, neg0, flip) =~= digits_spec(m as nat, a as nat, neg, flip)
            + reversed(buf@));
    }
    let mut out: Vec<u8> = Vec::new();
    if is_neg {
        out.push('-' as u8);
    }
    let ghost prefix = out@;
    let mut cur: usize = buf.len();
    while cur > 0
        invariant
            cur <= buf.len(),
            out@ == prefix + reversed(buf@).take(buf.len() - cur),
        decreases cur,
    {
        cur = cur - 1;
        out.push(buf[cur]);
        assert(out@ =~= prefix + reversed(buf@).take(buf.len() - cur));
    }
    assert(reversed(buf@).take(buf.len() as int) =~= reversed(buf@));
    assert(digits_spec(m0, a as nat, neg0, flip) =~= reversed(buf@));
    out
}

} // verus!
