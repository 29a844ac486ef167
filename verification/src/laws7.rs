//! The round trip of the 7z range coder: what the encoder writes for a
//! sequence of coded shares, carries included, the decoder reads back
//! share by share.
//!
//! The proof reads the bytes as one big number. The encoder's pending bytes
//! (`cache` and the held-back `0xFF` run) followed by its 33-bit `low` are
//! the bottom of the interval it has coded so far; a byte shift multiplies
//! that number by 256 without changing it, and coding a share narrows the
//! interval. The decoder's code is the offset of the encoder's final output,
//! read as far as the decoder has read, from the bottom of that interval.
use crate::range7::{
    Share7, decoder_finds_shares7, encoder_output7, encoder_run7, flushed_bytes7, normalized_encoder7,
    normalized_range7, shares7_fit, shift_low_bytes7, shifted_low7, shifts7, K_TOP_VALUE_7,
};
use crate::range8::{be32, shifted_in_code, wsub};
use vstd::prelude::*;

verus! {

/// `256^n`.
spec fn p256(n: nat) -> int
    decreases n,
{
    if n == 0 {
        1
    } else {
        256 * p256((n - 1) as nat)
    }
}

/// The bytes of `s` read as a number, first byte most significant.
spec fn num(s: Seq<u8>) -> int
    decreases s.len(),
{
    if s.len() == 0 {
        0
    } else {
        num(s.drop_last()) * 256 + s.last() as int
    }
}

proof fn lemma_p256_pos(n: nat)
    ensures
        p256(n) >= 1,
    decreases n,
{
    if n > 0 {
        lemma_p256_pos((n - 1) as nat);
    }
}

proof fn lemma_p256_add(a: nat, b: nat)
    ensures
        p256(a + b) == p256(a) * p256(b),
    decreases b,
{
    if b > 0 {
        lemma_p256_add(a, (b - 1) as nat);
        assert(p256(a + b) == 256 * p256((a + b - 1) as nat));
        assert(p256(a) * p256(b) == p256(a) * (256 * p256((b - 1) as nat)));
        assert(p256(a) * (256 * p256((b - 1) as nat)) == 256 * (p256(a) * p256((b - 1) as nat)))
            by (nonlinear_arith);
    }
}

proof fn lemma_num_bounds(s: Seq<u8>)
    ensures
        0 <= num(s) < p256(s.len()),
    decreases s.len(),
{
    if s.len() > 0 {
        lemma_num_bounds(s.drop_last());
        let a = num(s.drop_last());
        let p = p256((s.len() - 1) as nat);
        assert((a * 256 + s.last() as int) < 256 * p) by (nonlinear_arith)
            requires
                0 <= a < p,
                s.last() < 256,
        ;
        assert(a * 256 >= 0) by (nonlinear_arith)
            requires
                a >= 0,
        ;
    }
}

proof fn lemma_num_append(a: Seq<u8>, b: Seq<u8>)
    ensures
        num(a + b) == num(a) * p256(b.len()) + num(b),
    decreases b.len(),
{
    if b.len() == 0 {
        assert(a + b =~= a);
    } else {
        assert((a + b).drop_last() =~= a + b.drop_last());
        assert((a + b).last() == b.last());
        lemma_num_append(a, b.drop_last());
        let x = num(a);
        let p = p256((b.len() - 1) as nat);
        let y = num(b.drop_last());
        assert((x * p + y) * 256 + b.last() as int == x * (256 * p) + (y * 256 + b.last() as int))
            by (nonlinear_arith);
    }
}

/// The first `k` bytes of `s` read as a number are `num(s)` without its
/// last `s.len() - k` bytes.
proof fn lemma_num_take(s: Seq<u8>, k: int)
    requires
        0 <= k <= s.len(),
    ensures
        num(s.take(k)) == num(s) / p256((s.len() - k) as nat),
        num(s) == num(s.take(k)) * p256((s.len() - k) as nat) + num(s.skip(k)),
{
    assert(s =~= s.take(k) + s.skip(k));
    lemma_num_append(s.take(k), s.skip(k));
    lemma_num_bounds(s.skip(k));
    lemma_num_bounds(s.take(k));
    let p = p256((s.len() - k) as nat);
    lemma_p256_pos((s.len() - k) as nat);
    vstd::arithmetic::div_mod::lemma_fundamental_div_mod_converse(
        num(s),
        p,
        num(s.take(k)),
        num(s.skip(k)),
    );
}

/// Four bytes read as a number are `be32` of them.
proof fn lemma_num_be32(s: Seq<u8>)
    requires
        s.len() == 4,
    ensures
        num(s) == be32(s) as int,
{
    let (b0, b1, b2, b3) = (s[0], s[1], s[2], s[3]);
    let s1 = s.drop_last().drop_last().drop_last();
    assert(s1.drop_last() =~= Seq::<u8>::empty());
    assert(s1.last() == b0);
    assert(num(s1.drop_last()) == 0);
    assert(num(s1) == b0 as int);
    assert(num(s.drop_last().drop_last()) == b0 as int * 256 + b1 as int);
    assert(num(s.drop_last()) == (b0 as int * 256 + b1 as int) * 256 + b2 as int);
    assert(((((b0 as u32) << 24u32) | ((b1 as u32) << 16u32) | ((b2 as u32) << 8u32) | (b3 as u32))
        as int) == ((b0 as int * 256 + b1 as int) * 256 + b2 as int) * 256 + b3 as int)
        by (bit_vector);
}

/// The bytes that the encoder holds back: `cache`, then `cache_size - 1`
/// bytes `0xFF`.
spec fn pend(cache: u8, cs: u64) -> Seq<u8> {
    seq![cache] + Seq::new((cs - 1) as nat, |i: int| 0xFFu8)
}

/// The bottom of the interval that the encoder has coded: its held-back
/// bytes followed by the 33-bit `low`, read as one number.
spec fn bottom(low: u64, cache: u8, cs: u64) -> int {
    num(pend(cache, cs)) * 0x1_0000_0000 + low as int
}

proof fn lemma_num_single(b: u8)
    ensures
        num(seq![b]) == b as int,
{
    let s = seq![b];
    assert(s.drop_last() =~= Seq::<u8>::empty());
    assert(num(s.drop_last()) == 0);
}

proof fn lemma_num_ff(n: nat)
    ensures
        num(Seq::new(n, |i: int| 0xFFu8)) == p256(n) - 1,
    decreases n,
{
    if n > 0 {
        let s = Seq::new(n, |i: int| 0xFFu8);
        assert(s.drop_last() =~= Seq::new((n - 1) as nat, |i: int| 0xFFu8));
        lemma_num_ff((n - 1) as nat);
    }
}

proof fn lemma_num_zeros(n: nat)
    ensures
        num(Seq::new(n, |i: int| 0u8)) == 0,
    decreases n,
{
    if n > 0 {
        let s = Seq::new(n, |i: int| 0u8);
        assert(s.drop_last() =~= Seq::new((n - 1) as nat, |i: int| 0u8));
        lemma_num_zeros((n - 1) as nat);
    }
}

proof fn lemma_num_pend(cache: u8, cs: u64)
    requires
        cs >= 1,
    ensures
        pend(cache, cs).len() == cs,
        num(pend(cache, cs)) == (cache as int + 1) * p256((cs - 1) as nat) - 1,
{
    let n = (cs - 1) as nat;
    lemma_num_append(seq![cache], Seq::new(n, |i: int| 0xFFu8));
    lemma_num_ff(n);
    lemma_num_single(cache);
    assert(cache as int * p256(n) + (p256(n) - 1) == (cache as int + 1) * p256(n) - 1)
        by (nonlinear_arith);
}

/// A byte shift of the 7z encoder moves the top byte of `low` out to the
/// held-back bytes (writing them when no carry can reach them any more)
/// and multiplies the bottom of the interval by 256, as long as a carry out
/// of `low` does not run into a held-back `0xFF` cache.
proof fn lemma_shift_value(low: u64, cache: u8, cs: u64)
    requires
        1 <= cs < u64::MAX,
        low < 0x2_0000_0000,
        low >= 0x1_0000_0000 ==> cache < 0xFF,
    ensures
        ({
            let (l2, c2, s2) = shifted_low7(low, cache, cs);
            let bytes = shift_low_bytes7(low, cache, cs);
            &&& s2 >= 1
            &&& bytes.len() + s2 == cs + 1
            &&& l2 < 0x1_0000_0000
            &&& num(bytes + pend(c2, s2)) * 0x1_0000_0000 + l2 as int == 256 * bottom(low, cache, cs)
        }),
{
    let (l2, c2, s2) = shifted_low7(low, cache, cs);
    let bytes = shift_low_bytes7(low, cache, cs);
    let low32 = (low % 0x1_0000_0000) as u32;
    let c: int = low as int / 0x1_0000_0000;
    let t: int = low32 as int / 0x100_0000;
    let rest: int = low32 as int % 0x100_0000;
    assert(low as int == c * 0x1_0000_0000 + low32 as int && (c == 0 || c == 1));
    assert(low32 as int == t * 0x100_0000 + rest && 0 <= t < 256 && 0 <= rest < 0x100_0000);
    assert(l2 as int == rest * 256) by {
        assert(low32 as int * 256 == t * 0x1_0000_0000 + rest * 256);
        vstd::arithmetic::div_mod::lemma_fundamental_div_mod_converse(
            low32 as int * 256,
            0x1_0000_0000,
            t,
            rest * 256,
        );
    }
    lemma_num_pend(cache, cs);
    let np = num(pend(cache, cs));
    if low32 < 0xFF00_0000 || low >= 0x1_0000_0000 {
        assert(c2 == t as u8 && s2 == 1);
        assert(pend(c2, s2) =~= seq![t as u8]);
        lemma_num_append(bytes, seq![t as u8]);
        assert(p256(1) == 256 * p256(0));
        assert(bytes.len() == cs);
        lemma_num_single(t as u8);
        let n = (cs - 1) as nat;
        if c == 0 {
            assert(low < 0x1_0000_0000);
            let pc = pend(cache, cs);
            assert(pc.len() == cs);
            assert forall|i: int| 0 <= i < cs implies #[trigger] bytes[i] == pc[i] by {
                if i == 0 {
                    assert(bytes[0] == ((cache as int + 0) % 256) as u8);
                } else {
                    assert(bytes[i] == ((0xFF + 0int) % 256) as u8);
                }
            }
            assert(bytes =~= pc);
        } else {
            assert(low >= 0x1_0000_0000);
            assert(cache < 0xFF);
            let pc = seq![(cache + 1) as u8] + Seq::new(n, |i: int| 0u8);
            assert(pc.len() == cs);
            assert forall|i: int| 0 <= i < cs implies #[trigger] bytes[i] == pc[i] by {
                if i == 0 {
                    assert(bytes[0] == ((cache as int + 1) % 256) as u8);
                } else {
                    assert(bytes[i] == ((0xFF + 1int) % 256) as u8);
                }
            }
            assert(bytes =~= pc);
            lemma_num_append(seq![(cache + 1) as u8], Seq::new(n, |i: int| 0u8));
            lemma_num_zeros(n);
            lemma_num_single((cache + 1) as u8);
            assert(num(bytes) == (cache as int + 1) * p256(n));
        }
        assert(num(bytes) == np + c);
        let x = np + c;
        assert((x * 256 + t) * 0x1_0000_0000 + rest * 256 == 256 * (x * 0x1_0000_0000 + t
            * 0x100_0000 + rest)) by (nonlinear_arith);
        assert(num(bytes + pend(c2, s2)) == x * 256 + t);
        assert(bottom(low, cache, cs) == x * 0x1_0000_0000 + t * 0x100_0000 + rest);
    } else {
        assert(c == 0 && t == 255);
        assert(bytes =~= Seq::<u8>::empty());
        assert(c2 == cache && s2 == cs + 1);
        assert(bytes + pend(c2, s2) =~= pend(cache, cs).push(0xFFu8));
        assert(pend(cache, cs).push(0xFFu8).drop_last() =~= pend(cache, cs));
        assert((np * 256 + 255) * 0x1_0000_0000 + rest * 256 == 256 * (np * 0x1_0000_0000 + 255
            * 0x100_0000 + rest)) by (nonlinear_arith);
        assert(num(bytes + pend(c2, s2)) == np * 256 + 255);
        assert(bottom(low, cache, cs) == np * 0x1_0000_0000 + 255 * 0x100_0000 + rest);
    }
}

/// The state after `n` byte shifts of the 7z encoder, whatever its range.
spec fn shifted_n(low: u64, cache: u8, cs: u64, n: nat) -> (u64, u8, u64)
    decreases n,
{
    if n == 0 {
        (low, cache, cs)
    } else {
        let (l2, c2, s2) = shifted_low7(low, cache, cs);
        shifted_n(l2, c2, s2, (n - 1) as nat)
    }
}

/// A chain of `n` byte shifts writes `flushed_bytes7` and multiplies the
/// bottom of the interval by `256^n`; only the first shift can carry.
proof fn lemma_chain(low: u64, cache: u8, cs: u64, n: nat)
    requires
        1 <= cs,
        cs as int + n < u64::MAX,
        low < 0x2_0000_0000,
        low >= 0x1_0000_0000 ==> cache < 0xFF,
    ensures
        ({
            let (l2, c2, s2) = shifted_n(low, cache, cs, n);
            let bytes = flushed_bytes7(low, cache, cs, n);
            &&& s2 >= 1
            &&& bytes.len() + s2 == cs + n
            &&& l2 < 0x2_0000_0000
            &&& n > 0 ==> l2 < 0x1_0000_0000
            &&& num(bytes + pend(c2, s2)) * 0x1_0000_0000 + l2 as int == p256(n) * bottom(
                low,
                cache,
                cs,
            )
        }),
    decreases n,
{
    if n == 0 {
        assert(flushed_bytes7(low, cache, cs, 0) + pend(cache, cs) =~= pend(cache, cs));
    } else {
        let (l1, c1, s1) = shifted_low7(low, cache, cs);
        let b1 = shift_low_bytes7(low, cache, cs);
        lemma_shift_value(low, cache, cs);
        lemma_chain(l1, c1, s1, (n - 1) as nat);
        let (l2, c2, s2) = shifted_n(l1, c1, s1, (n - 1) as nat);
        let rest = flushed_bytes7(l1, c1, s1, (n - 1) as nat);
        let bytes = flushed_bytes7(low, cache, cs, n);
        assert(bytes == b1 + rest);
        assert(bytes + pend(c2, s2) =~= b1 + (rest + pend(c2, s2)));
        lemma_num_append(b1, rest + pend(c2, s2));
        lemma_num_append(b1, pend(c1, s1));
        lemma_num_pend(c1, s1);
        lemma_num_pend(c2, s2);
        // rest + pend(c2, s2) has s1 + n - 1 bytes
        lemma_p256_add(s1 as nat, (n - 1) as nat);
        lemma_p256_add(1, (n - 1) as nat);
        assert(p256(1) == 256 * p256(0));
        let x = num(b1);
        let y = num(rest + pend(c2, s2));
        let ps = p256(s1 as nat);
        let pn = p256((n - 1) as nat);
        let np1 = num(pend(c1, s1));
        let bot = bottom(low, cache, cs);
        // IH: y * 2^32 + l2 == pn * (np1 * 2^32 + l1)
        // shift: (x * ps + np1) * 2^32 + l1 == 256 * bot
        assert((x * (ps * pn) + y) * 0x1_0000_0000 + l2 as int == pn * ((x * ps + np1)
            * 0x1_0000_0000 + l1 as int)) by (nonlinear_arith)
            requires
                y * 0x1_0000_0000 + l2 as int == pn * (np1 * 0x1_0000_0000 + l1 as int),
        ;
        assert(pn * (256 * bot) == (256 * pn) * bot) by (nonlinear_arith);
    }
}

/// Seven zero bytes, or any number of them.
spec fn zeros(n: nat) -> Seq<u8> {
    Seq::new(n, |i: int| 0u8)
}

/// The invariant of the 7z encoder between codings: a nonempty window whose
/// top stays within 33 bits, and an interval that no carry can push past
/// the bytes already written.
spec fn inv7(low: u64, range: u32, cache: u8, cs: u64) -> bool {
    &&& 1 <= cs
    &&& range > 0
    &&& low as int + range as int <= 0x2_0000_0000
    &&& bottom(low, cache, cs) + range as int <= p256(cs as nat) * 0x1_0000_0000
}

/// Under the invariant a carry out of `low` never meets a held-back cache
/// of `0xFF`.
proof fn lemma_no_overflow(low: u64, range: u32, cache: u8, cs: u64)
    requires
        inv7(low, range, cache, cs),
    ensures
        low >= 0x1_0000_0000 ==> cache < 0xFF,
{
    lemma_num_pend(cache, cs);
    lemma_p256_pos((cs - 1) as nat);
    if low >= 0x1_0000_0000 && cache == 0xFF {
        let p = p256((cs - 1) as nat);
        assert(p256(cs as nat) == 256 * p);
        assert(bottom(low, cache, cs) == (256 * p - 1) * 0x1_0000_0000 + low as int);
        assert((256 * p - 1) * 0x1_0000_0000 + low as int + range as int > 256 * p * 0x1_0000_0000)
            by (nonlinear_arith)
            requires
                low >= 0x1_0000_0000,
                range > 0,
        ;
    }
}

/// The bottom of the window after a shift: the low 24 bits moved up by a byte.
proof fn lemma_shifted_low_bits(low: u64, cache: u8, cs: u64)
    ensures
        shifted_low7(low, cache, cs).0 == (low & 0xFF_FFFFu64) << 8u64,
{
    let low32 = (low % 0x1_0000_0000) as u32;
    let l2 = shifted_low7(low, cache, cs).0;
    assert(l2 == ((low32 as int * 256) % 0x1_0000_0000) as u64);
    assert(((((low % 0x1_0000_0000) as u32) as int * 256) % 0x1_0000_0000) as u64 == (low
        & 0xFF_FFFFu64) << 8u64) by (bit_vector);
}

/// Flushing writes the held-back bytes and the four bytes of `low`; with
/// five zero bytes after them they read as the bottom of the interval
/// moved up by five bytes.
proof fn lemma_flush(low: u64, range: u32, cache: u8, cs: u64)
    requires
        inv7(low, range, cache, cs),
        cs as int + 5 < u64::MAX,
    ensures
        flushed_bytes7(low, cache, cs, 5).len() == cs + 4,
        num(flushed_bytes7(low, cache, cs, 5) + zeros(5)) == p256(5) * bottom(low, cache, cs),
{
    lemma_no_overflow(low, range, cache, cs);
    lemma_chain(low, cache, cs, 5);
    let (l1, c1, s1) = shifted_low7(low, cache, cs);
    let (l2, c2, s2) = shifted_low7(l1, c1, s1);
    let (l3, c3, s3) = shifted_low7(l2, c2, s2);
    let (l4, c4, s4) = shifted_low7(l3, c3, s3);
    let (l5, c5, s5) = shifted_low7(l4, c4, s4);
    lemma_shifted_low_bits(low, cache, cs);
    lemma_shifted_low_bits(l1, c1, s1);
    lemma_shifted_low_bits(l2, c2, s2);
    lemma_shifted_low_bits(l3, c3, s3);
    assert(l4 == 0) by (bit_vector)
        requires
            l1 == (low & 0xFF_FFFFu64) << 8u64,
            l2 == (l1 & 0xFF_FFFFu64) << 8u64,
            l3 == (l2 & 0xFF_FFFFu64) << 8u64,
            l4 == (l3 & 0xFF_FFFFu64) << 8u64,
    ;
    assert(c5 == 0 && s5 == 1 && l5 == 0);
    reveal_with_fuel(shifted_n, 6);
    assert(shifted_n(low, cache, cs, 5) == (l5, c5, s5));
    let f = flushed_bytes7(low, cache, cs, 5);
    assert(pend(0, 1) =~= seq![0u8]);
    assert(f + zeros(5) =~= (f + seq![0u8]) + zeros(4));
    lemma_num_append(f + seq![0u8], zeros(4));
    lemma_num_zeros(4);
    assert(zeros(4) =~= Seq::new(4, |i: int| 0u8));
    reveal_with_fuel(p256, 5);
    assert(p256(4) == 0x1_0000_0000);
}

/// A byte shift made while the range is below `K_TOP_VALUE_7` keeps the
/// invariant.
proof fn lemma_shift_inv(low: u64, range: u32, cache: u8, cs: u64)
    requires
        inv7(low, range, cache, cs),
        range < K_TOP_VALUE_7,
        (cs as int) + 1 < u64::MAX,
    ensures
        ({
            let (l2, c2, s2) = shifted_low7(low, cache, cs);
            &&& (range as int * 256) as u32 as int == range as int * 256
            &&& inv7(l2, (range as int * 256) as u32, c2, s2)
        }),
{
    lemma_no_overflow(low, range, cache, cs);
    lemma_shift_value(low, cache, cs);
    lemma_shifted_low_bits(low, cache, cs);
    let (l2, c2, s2) = shifted_low7(low, cache, cs);
    let r2 = (range as int * 256) as u32;
    assert(r2 as int == range as int * 256);
    let low32 = (low % 0x1_0000_0000) as u32;
    let t: int = low32 as int / 0x100_0000;
    let rest: int = low32 as int % 0x100_0000;
    assert(l2 as int == rest * 256) by {
        assert(((low & 0xFF_FFFFu64) << 8u64) as int == ((low % 0x1_0000_0000) as u32 as int
            % 0x100_0000) * 256) by (bit_vector);
    }
    lemma_num_pend(c2, s2);
    if low32 < 0xFF00_0000 || low >= 0x1_0000_0000 {
        assert(s2 == 1 && c2 as int == t);
        assert(p256(0) == 1);
        assert(num(pend(c2, s2)) == t);
        assert(bottom(l2, c2, s2) == 256 * low32 as int);
        assert(p256(1) == 256 * p256(0));
        assert(low32 as int + range as int <= 0x1_0000_0000);
    } else {
        let bytes = shift_low_bytes7(low, cache, cs);
        assert(bytes =~= Seq::<u8>::empty());
        assert(bytes + pend(c2, s2) =~= pend(c2, s2));
        assert(bottom(l2, c2, s2) == 256 * bottom(low, cache, cs));
        assert(s2 == cs + 1);
        assert(p256(s2 as nat) == 256 * p256(cs as nat));
    }
}

/// Normalization shifts at most three times when the range is nonempty.
proof fn lemma_shifts7_bound(r: u32, fuel: nat, m: nat)
    requires
        r as int * p256(m) >= K_TOP_VALUE_7,
    ensures
        shifts7(r, fuel) <= m,
    decreases fuel,
{
    if fuel > 0 && r < K_TOP_VALUE_7 {
        assert(m > 0) by {
            if m == 0 {
                assert(p256(0) == 1);
            }
        }
        let r2 = (r as int * 256) as u32;
        assert(r2 as int == r as int * 256);
        assert(p256(m) == 256 * p256((m - 1) as nat));
        assert(r as int * p256(m) == r2 as int * p256((m - 1) as nat)) by (nonlinear_arith)
            requires
                p256(m) == 256 * p256((m - 1) as nat),
                r2 as int == r as int * 256,
        ;
        lemma_shifts7_bound(r2, (fuel - 1) as nat, (m - 1) as nat);
    }
}

/// Normalization is a chain of byte shifts that multiplies the range by
/// 256 each time and keeps the invariant.
proof fn lemma_norm(low: u64, range: u32, cache: u8, cs: u64, fuel: nat)
    requires
        inv7(low, range, cache, cs),
        (cs as int) + shifts7(range, fuel) + 1 < u64::MAX,
    ensures
        ({
            let k = shifts7(range, fuel);
            let n = normalized_encoder7(low, range, cache, cs, fuel);
            &&& k <= 3
            &&& n.1 == normalized_range7(range, fuel)
            &&& n.1 as int == range as int * p256(k)
            &&& (n.0, n.2, n.3) == shifted_n(low, cache, cs, k)
            &&& n.4 == flushed_bytes7(low, cache, cs, k)
            &&& inv7(n.0, n.1, n.2, n.3)
        }),
    decreases fuel,
{
    reveal_with_fuel(p256, 4);
    assert(p256(3) == 0x100_0000);
    lemma_shifts7_bound(range, fuel, 3);
    if fuel > 0 && range < K_TOP_VALUE_7 {
        lemma_shift_inv(low, range, cache, cs);
        let (l2, c2, s2) = shifted_low7(low, cache, cs);
        let r2 = (range as int * 256) as u32;
        lemma_no_overflow(low, range, cache, cs);
        lemma_shift_value(low, cache, cs);
        lemma_norm(l2, r2, c2, s2, (fuel - 1) as nat);
        let k2 = shifts7(r2, (fuel - 1) as nat);
        assert(p256(k2 + 1) == 256 * p256(k2));
        assert(r2 as int * p256(k2) == range as int * p256(k2 + 1)) by (nonlinear_arith)
            requires
                r2 as int == range as int * 256,
                p256(k2 + 1) == 256 * p256(k2),
        ;
        let n = normalized_encoder7(low, range, cache, cs, fuel);
        let n2 = normalized_encoder7(l2, r2, c2, s2, (fuel - 1) as nat);
        assert(n.4 == shift_low_bytes7(low, cache, cs) + n2.4);
        assert((n.0, n.1, n.2, n.3) == (n2.0, n2.1, n2.2, n2.3));
        assert(shifts7(range, fuel) == k2 + 1);
        assert(normalized_range7(range, fuel) == normalized_range7(r2, (fuel - 1) as nat));
        assert(shifted_n(low, cache, cs, k2 + 1) == shifted_n(l2, c2, s2, k2));
        assert(flushed_bytes7(low, cache, cs, k2 + 1) == shift_low_bytes7(low, cache, cs)
            + flushed_bytes7(l2, c2, s2, k2));
    } else {
        assert(shifts7(range, fuel) == 0);
        assert(p256(0) == 1);
        assert(flushed_bytes7(low, cache, cs, 0) =~= Seq::<u8>::empty());
    }
}

proof fn lemma_div_bounds(x: int, p: int, a: int, b: int)
    requires
        p > 0,
        p * a <= x < p * b,
    ensures
        a <= x / p < b,
{
    vstd::arithmetic::div_mod::lemma_fundamental_div_mod(x, p);
    let q = x / p;
    let r = x % p;
    assert(0 <= r < p) by {
        vstd::arithmetic::div_mod::lemma_mod_bound(x, p);
    }
    assert(a <= q) by (nonlinear_arith)
        requires
            p > 0,
            p * a <= p * q + r,
            r < p,
    ;
    assert(q < b) by (nonlinear_arith)
        requires
            p > 0,
            p * q + r < p * b,
            0 <= r,
    ;
}

/// The code depends only on the bytes shifted in.
proof fn lemma_shifted_in_code_prefix(c: u32, s1: Seq<u8>, s2: Seq<u8>, k: nat)
    requires
        s1.len() >= k,
        s2.len() >= k,
        s1.take(k as int) =~= s2.take(k as int),
    ensures
        shifted_in_code(c, s1, k) == shifted_in_code(c, s2, k),
    decreases k,
{
    if k > 0 {
        assert(s1[0] == s1.take(k as int)[0]);
        assert(s2[0] == s2.take(k as int)[0]);
        let c2 = (c << 8u32) | (s1[0] as u32);
        assert(s1.skip(1).take(k - 1) =~= s2.skip(1).take(k - 1)) by {
            assert forall|i: int| 0 <= i < k - 1 implies #[trigger] s1.skip(1).take(k - 1)[i]
                == s2.skip(1).take(k - 1)[i] by {
                assert(s1.take(k as int)[i + 1] == s2.take(k as int)[i + 1]);
            }
        }
        lemma_shifted_in_code_prefix(c2, s1.skip(1), s2.skip(1), (k - 1) as nat);
    }
}

/// While normalizing, the 7z decoder shifts in the bytes that follow and
/// keeps its code the offset of the number read so far from the bottom of
/// the interval, which the number read after the last shift bounds.
proof fn lemma_dec_chain(range: u32, fuel: nat, code: u32, base: int, z: Seq<u8>, pos: int)
    requires
        0 <= pos,
        range > 0,
        pos + shifts7(range, fuel) <= z.len(),
        code as int == num(z.take(pos)) - base,
        p256(shifts7(range, fuel)) * base <= num(z.take(pos + shifts7(range, fuel))),
        num(z.take(pos + shifts7(range, fuel))) < p256(shifts7(range, fuel)) * (base + range),
    ensures
        shifted_in_code(code, z.skip(pos), shifts7(range, fuel)) as int == num(
            z.take(pos + shifts7(range, fuel)),
        ) - p256(shifts7(range, fuel)) * base,
    decreases fuel,
{
    let k = shifts7(range, fuel);
    if fuel == 0 || range >= K_TOP_VALUE_7 {
        assert(p256(0) == 1);
    } else {
        let r2 = (range as int * 256) as u32;
        assert(r2 as int == range as int * 256);
        let k2 = shifts7(r2, (fuel - 1) as nat);
        assert(k == k2 + 1);
        assert(p256(k) == 256 * p256(k2));
        let whole = z.take(pos + k);
        lemma_num_take(whole, pos);
        assert(whole.take(pos) =~= z.take(pos));
        lemma_p256_pos(k);
        lemma_div_bounds(num(whole), p256(k), base, base + range);
        assert(0 <= code < range);
        let b = z[pos];
        let code2 = (code << 8u32) | (b as u32);
        assert(code2 as int == code as int * 256 + b as int) by (bit_vector)
            requires
                code < 0x100_0000u32,
                b <= 255u8,
                code2 == (code << 8u32) | (b as u32),
        ;
        assert(z.take(pos + 1).drop_last() =~= z.take(pos));
        assert(num(z.take(pos + 1)) == num(z.take(pos)) * 256 + b as int);
        assert(p256(k) * base == p256(k2) * (256 * base)) by (nonlinear_arith)
            requires
                p256(k) == 256 * p256(k2),
        ;
        assert(p256(k) * (base + range) == p256(k2) * (256 * base + r2)) by (nonlinear_arith)
            requires
                p256(k) == 256 * p256(k2),
                r2 as int == range as int * 256,
        ;
        lemma_dec_chain(r2, (fuel - 1) as nat, code2, 256 * base, z, pos + 1);
        assert(z.skip(pos).skip(1) =~= z.skip(pos + 1));
        assert(z.skip(pos)[0] == b);
    }
}

/// Everything the encoder writes from its state on: the bytes of coding
/// `shares`, then those of the final flush.
spec fn future7(low: u64, range: u32, cache: u8, cs: u64, shares: Seq<Share7>) -> Seq<u8> {
    let run = encoder_run7(low, range, cache, cs, shares);
    run.4 + flushed_bytes7(run.0, run.2, run.3, 5)
}

/// From any encoder state that keeps the invariant, the encoder's future
/// output (padded with zeros) read as far as the held-back bytes and `low`
/// reach lies in the coded interval, and a decoder whose code is its offset
/// in the interval finds every share that follows.
#[verifier::spinoff_prover]
#[verifier::rlimit(60)]
proof fn lemma_follow7(low: u64, range: u32, cache: u8, cs: u64, shares: Seq<Share7>, code: u32)
    requires
        inv7(low, range, cache, cs),
        cs as int + 3 * shares.len() + 8 < u64::MAX,
        shares7_fit(range, shares),
    ensures
        ({
            let f = future7(low, range, cache, cs, shares);
            let z = f + zeros(5);
            let b = bottom(low, cache, cs);
            &&& f.len() >= cs + 4
            &&& b <= num(z.take(cs + 4))
            &&& num(z.take(cs + 4)) < b + range as int
            &&& code as int == num(z.take(cs + 4)) - b ==> decoder_finds_shares7(
                range,
                code,
                f.skip(cs + 4),
                shares,
            )
        }),
    decreases shares.len(),
{
    let f = future7(low, range, cache, cs, shares);
    let z = f + zeros(5);
    let b = bottom(low, cache, cs);
    lemma_num_pend(cache, cs);
    lemma_p256_pos((cs - 1) as nat);
    assert(b >= 0) by {
        lemma_num_bounds(pend(cache, cs));
    }
    if shares.len() == 0 {
        assert(f =~= flushed_bytes7(low, cache, cs, 5));
        lemma_flush(low, range, cache, cs);
        lemma_num_take(z, cs + 4);
        lemma_p256_pos(5);
        assert(z.len() - (cs + 4) == 5);
        vstd::arithmetic::div_mod::lemma_div_by_multiple(b, p256(5));
        assert(p256(5) * b == b * p256(5)) by (nonlinear_arith);
    } else {
        let (off, width, fuel) = shares[0];
        let tail = shares.skip(1);
        let low1 = ((low as int + off as int) % 0x1_0000_0000_0000_0000) as u64;
        assert(low1 as int == low as int + off as int);
        let b1 = bottom(low1, cache, cs);
        assert(b1 == b + off);
        assert(inv7(low1, width, cache, cs));
        reveal_with_fuel(p256, 4);
        assert(p256(3) == 0x100_0000);
        lemma_shifts7_bound(width, fuel as nat, 3);
        let k = shifts7(width, fuel as nat);
        lemma_norm(low1, width, cache, cs, fuel as nat);
        let n = normalized_encoder7(low1, width, cache, cs, fuel as nat);
        let (l2, r2, c2, s2, bytes) = n;
        lemma_no_overflow(low1, width, cache, cs);
        lemma_chain(low1, cache, cs, k);
        assert(shifted_n(low1, cache, cs, k) == (l2, c2, s2));
        let f2 = future7(l2, r2, c2, s2, tail);
        let code1 = wsub(code, off);
        let s = f.skip(cs + 4);
        let code2 = shifted_in_code(code1, s, k);
        lemma_follow7(l2, r2, c2, s2, tail, code2);
        let z2 = f2 + zeros(5);
        let b2 = bottom(l2, c2, s2);
        // the output is the bytes of this normalization, then the rest
        let run = encoder_run7(low, range, cache, cs, shares);
        let rest = encoder_run7(l2, r2, c2, s2, tail);
        assert(run.4 == bytes + rest.4);
        assert(f =~= bytes + f2);
        assert(z =~= bytes + z2);
        assert(bytes.len() + s2 == cs + k);
        assert(f.len() >= cs + 4 + k);
        // read as far as this normalization goes
        let m = cs + 4 + k;
        assert(z.take(m) =~= bytes + z2.take(s2 + 4));
        lemma_num_append(bytes, z2.take(s2 + 4));
        lemma_num_append(bytes, pend(c2, s2));
        lemma_num_pend(c2, s2);
        lemma_p256_add(s2 as nat, 4);
        assert(p256(4) == 0x1_0000_0000);
        let nb = num(bytes);
        let ps = p256(s2 as nat);
        let pk = p256(k);
        let np2 = num(pend(c2, s2));
        assert(nb * (ps * 0x1_0000_0000) + b2 == pk * b1) by (nonlinear_arith)
            requires
                (nb * ps + np2) * 0x1_0000_0000 + l2 as int == pk * b1,
                b2 == np2 * 0x1_0000_0000 + l2 as int,
        ;
        assert(r2 as int == width as int * pk);
        let x = num(z.take(m));
        assert(x == nb * (ps * 0x1_0000_0000) + num(z2.take(s2 + 4)));
        assert(pk * b1 <= x);
        assert(x < pk * (b1 + width)) by (nonlinear_arith)
            requires
                x < pk * b1 + r2 as int,
                r2 as int == width as int * pk,
        ;
        // read as far as before it
        lemma_num_take(z.take(m), cs + 4);
        assert(z.take(m).take(cs + 4) =~= z.take(cs + 4));
        lemma_p256_pos(k);
        lemma_div_bounds(x, pk, b1, b1 + width);
        if code as int == num(z.take(cs + 4)) - b {
            assert(off <= code && (code as int) < off + width);
            assert(code1 as int == num(z.take(cs + 4)) - b1);
            lemma_dec_chain(width, fuel as nat, code1, b1, z, cs + 4);
            assert(z.skip(cs + 4).take(k as int) =~= s.take(k as int));
            lemma_shifted_in_code_prefix(code1, z.skip(cs + 4), s, k);
            assert(code2 as int == x - pk * b1);
            assert(code2 as int == num(z2.take(s2 + 4)) - b2);
            assert(s.skip(k as int) =~= f2.skip(s2 + 4));
            assert(normalized_range7(width, fuel as nat) == r2);
        }
    }
}

/// What the 7z range coder encodes, it decodes, carries included: for any
/// sequence of shares, each fitting the window it is coded in, the encoder's
/// whole output (the bytes written while coding, then those of the final
/// flush) starts with the zero byte that the decoder checks, and the decoder
/// that reads it, its code set from the next four bytes, finds its code
/// inside each share in turn before it narrows its window the way the
/// encoder did; so its threshold picks the symbol that was coded (see
/// `law_threshold_finds_symbol`). The bound on the number of shares keeps
/// the count of held-back bytes within 64 bits.
pub proof fn law_range_coder7_round_trip(shares: Seq<Share7>)
    requires
        shares7_fit(0xFFFF_FFFF, shares),
        shares.len() < 0x1000_0000_0000_0000,
    ensures
        encoder_output7(shares).len() >= 5,
        encoder_output7(shares)[0] == 0,
        decoder_finds_shares7(
            0xFFFF_FFFF,
            be32(encoder_output7(shares).skip(1)),
            encoder_output7(shares).skip(5),
            shares,
        ),
{
    let o = encoder_output7(shares);
    assert(o == future7(0, 0xFFFF_FFFF, 0, 1, shares));
    lemma_num_single(0);
    assert(pend(0, 1) =~= seq![0u8]);
    assert(bottom(0, 0, 1) == 0);
    assert(p256(1) == 256 * p256(0));
    assert(inv7(0, 0xFFFF_FFFF, 0, 1));
    let code = be32(o.skip(1));
    lemma_follow7(0, 0xFFFF_FFFF, 0, 1, shares, code);
    let z = o + zeros(5);
    assert(z.take(5) =~= seq![o[0]] + o.skip(1).take(4));
    lemma_num_append(seq![o[0]], o.skip(1).take(4));
    lemma_num_single(o[0]);
    lemma_num_be32(o.skip(1).take(4));
    assert(be32(o.skip(1).take(4)) == be32(o.skip(1)));
    reveal_with_fuel(p256, 5);
    assert(p256(4) == 0x1_0000_0000);
    assert(num(z.take(5)) == o[0] as int * 0x1_0000_0000 + code as int);
}

} // verus!
