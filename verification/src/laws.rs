//! Laws that the coders keep: what the range coders do with a coded share of
//! their window, how the decoder finds the share again (for the carryless
//! coder over a whole sequence of shares), that normalization always ends
//! well before its bound, and the bounds that the adaptive binary
//! probabilities and the allocator's size classes obey.
use crate::prob::{update_prob_0, update_prob_1, PPMD_BIN_SCALE};
use crate::range8::{
    be32, coded_window, decoder_finds_shares, encoder_output, encoder_run, flushed_bytes, narrowed,
    needs_shift, normalized_window, share_fits, shares_fit, shifted_in_code, shifted_out_bytes,
    shifted_window, top_byte, unit_width, wadd, wmul, wsub, K_BOT_VALUE, K_TOP_VALUE,
    MAX_NORMALIZE_SHIFTS,
};
use crate::units::{is_index_of_units, units_of_index, NUM_INDEXES};
use vstd::prelude::*;

verus! {

/// Coding the share `[start, start + size)` of a `total` that is no larger
/// than the range narrows the window to a nonempty part of itself: the new
/// window begins `start` units of `range / total` into the old one and is
/// `size` units wide. Both range coders compute their window this way.
pub proof fn law_coded_window_nested(low: u32, range: u32, start: u32, size: u32, total: u32)
    requires
        low as int + range as int <= 0x1_0000_0000,
        0 < total <= range,
        0 < size,
        start as int + size as int <= total as int,
    ensures
        ({
            let (l2, r2) = coded_window(low, range, start, size, total);
            let w = unit_width(range, total);
            &&& w > 0
            &&& l2 as int == low as int + start as int * w as int
            &&& r2 as int == size as int * w as int
            &&& r2 > 0
            &&& l2 as int + r2 as int <= low as int + range as int
        }),
{
    let w = unit_width(range, total);
    let (l2, r2) = coded_window(low, range, start, size, total);
    assert(w as int == range as int / total as int);
    assert(w >= 1) by (nonlinear_arith)
        requires
            w as int == range as int / total as int,
            0 < total <= range,
    ;
    assert(total as int * w as int <= range as int) by (nonlinear_arith)
        requires
            w as int == range as int / total as int,
            0 < total,
    ;
    assert(start as int * w as int + size as int * w as int <= total as int * w as int)
        by (nonlinear_arith)
        requires
            start as int + size as int <= total as int,
            w >= 1,
    ;
    assert(size as int * w as int >= 1) by (nonlinear_arith)
        requires
            size >= 1,
            w >= 1,
    ;
    assert(start as int * w as int >= 0) by (nonlinear_arith)
        requires
            w >= 1,
    ;
    assert(wmul(start, w) as int == start as int * w as int) by {
        vstd::arithmetic::div_mod::lemma_small_mod(
            (start as nat * w as nat) as nat,
            0x1_0000_0000nat,
        );
    }
    assert(wmul(size, w) as int == size as int * w as int) by {
        vstd::arithmetic::div_mod::lemma_small_mod(
            (size as nat * w as nat) as nat,
            0x1_0000_0000nat,
        );
    }
}

/// Two disjoint shares of one total are coded to disjoint windows, so no
/// value of the window belongs to two symbols.
pub proof fn law_coded_windows_disjoint(
    low: u32,
    range: u32,
    start1: u32,
    size1: u32,
    start2: u32,
    size2: u32,
    total: u32,
)
    requires
        low as int + range as int <= 0x1_0000_0000,
        0 < total <= range,
        0 < size1,
        0 < size2,
        start1 as int + size1 as int <= start2 as int,
        start2 as int + size2 as int <= total as int,
    ensures
        ({
            let (l1, r1) = coded_window(low, range, start1, size1, total);
            let (l2, r2) = coded_window(low, range, start2, size2, total);
            l1 as int + r1 as int <= l2 as int
        }),
{
    law_coded_window_nested(low, range, start1, size1, total);
    law_coded_window_nested(low, range, start2, size2, total);
    let w = unit_width(range, total);
    assert(start1 as int * w as int + size1 as int * w as int <= start2 as int * w as int)
        by (nonlinear_arith)
        requires
            start1 as int + size1 as int <= start2 as int,
            w >= 1,
    ;
}

/// The decoder finds the symbol again: when its code (the offset of the
/// coded value in the window) lies in the part of the window that the share
/// `[start, start + size)` was coded to, the threshold `code / (range / total)`
/// falls in `[start, start + size)`, and after the decoder narrows its
/// window the same way the code lies in the new window.
pub proof fn law_threshold_finds_symbol(range: u32, code: u32, start: u32, size: u32, total: u32)
    requires
        0 < total <= range,
        0 < size,
        start as int + size as int <= total as int,
        start as int * unit_width(range, total) as int <= code as int,
        (code as int) < (start as int + size as int) * unit_width(range, total) as int,
    ensures
        unit_width(range, total) > 0,
        start as int <= code as int / unit_width(range, total) as int,
        code as int / (unit_width(range, total) as int) < start as int + size as int,
        wsub(code, wmul(start, unit_width(range, total))) as int == code as int - start as int
            * unit_width(range, total) as int,
        (wsub(code, wmul(start, unit_width(range, total))) as int) < wmul(
            size,
            unit_width(range, total),
        ) as int,
{
    law_coded_window_nested(0, range, start, size, total);
    let w = unit_width(range, total);
    let c = code as int;
    assert(start as int <= c / w as int) by {
        vstd::arithmetic::div_mod::lemma_div_is_ordered(start as int * w as int, c, w as int);
        vstd::arithmetic::div_mod::lemma_div_by_multiple(start as int, w as int);
    }
    assert(c / (w as int) < start as int + size as int) by {
        vstd::arithmetic::div_mod::lemma_div_is_ordered(
            c,
            (start as int + size as int) * w as int - 1,
            w as int,
        );
        vstd::arithmetic::div_mod::lemma_div_by_multiple(start as int + size as int, w as int);
        vstd::arithmetic::div_mod::lemma_div_is_ordered(
            (start as int + size as int) * w as int - 1,
            (start as int + size as int) * w as int,
            w as int,
        );
        assert((((start as int + size as int) * w as int - 1) / (w as int)) < start as int + size as int)
            by (nonlinear_arith)
            requires
                w >= 1,
                start as int + size as int >= 1,
        ;
    }
    assert((start as int + size as int) * w as int == start as int * w as int + size as int
        * w as int) by (nonlinear_arith);
}

/// The decoder keeps the offset of the coded value `v` in its window: if
/// `code` is `v - low` (modulo 2^32) before a share is coded, it is
/// `v - low'` after both sides moved the bottom of the window to `low'`.
pub proof fn law_code_follows_narrowing(v: u32, low: u32, code: u32, offset: u32)
    requires
        code == wsub(v, low),
    ensures
        wsub(code, offset) == wsub(v, wadd(low, offset)),
{
}

/// The decoder keeps the offset of the coded value across a byte shift: if
/// `code` is `v - low` (modulo 2^32) and the next byte `b` of the data is
/// shifted into both the value and the code while `low` shifts, the code is
/// again the offset of the shifted value in the shifted window.
pub proof fn law_code_follows_shift(v: u32, low: u32, code: u32, b: u32)
    requires
        code == wsub(v, low),
        b < 256,
    ensures
        ((code << 8u32) | b) == wsub((v << 8u32) | b, low << 8u32),
{
    assert(((code << 8u32) | b) == wsub((v << 8u32) | b, low << 8u32)) by (bit_vector)
        requires
            code == wsub(v, low),
            b < 256,
    ;
}

/// A binary context splits the window (its range first rounded down to a
/// multiple of the binary scale) at `size0 = (range >> 14) * prob`: for a
/// probability `0 < prob < 2^14` both parts are nonempty, and a code below
/// `size0` falls in the first part while any other code of the rounded
/// window falls in the second.
pub proof fn law_binary_split(range: u32, prob: u32)
    requires
        range >= 0x4000,
        0 < prob < 0x4000,
    ensures
        ({
            let size0 = wmul(range >> 14u32, prob);
            &&& size0 as int == (range >> 14u32) as int * prob as int
            &&& 0 < size0
            &&& size0 < (range & 0xFFFF_C000u32)
            &&& wsub(range & 0xFFFF_C000u32, size0) > 0
            &&& (range & 0xFFFF_C000u32) <= range
        }),
{
    let q = range >> 14u32;
    assert(q >= 1 && (range & 0xFFFF_C000u32) as int == q as int * 0x4000 && (range
        & 0xFFFF_C000u32) <= range && (q as int) < 0x4_0000) by (bit_vector)
        requires
            range >= 0x4000,
            q == range >> 14u32,
    ;
    assert(q as int * prob as int >= 1 && (q as int * prob as int) < q as int * 0x4000)
        by (nonlinear_arith)
        requires
            q >= 1,
            0 < prob < 0x4000,
    ;
    assert(q as int * prob as int <= 0x4_0000 * 0x4000) by (nonlinear_arith)
        requires
            q < 0x4_0000,
            prob < 0x4000,
    ;
    vstd::arithmetic::div_mod::lemma_small_mod((q as nat * prob as nat) as nat, 0x1_0000_0000nat);
}

/// Coding the symbol share `[start, start + size)` of `total` is coding the
/// share of the window that begins `start` units in and is `size` units
/// wide, and that share fits the window.
pub proof fn law_symbol_share_fits(low: u32, range: u32, start: u32, size: u32, total: u32)
    requires
        low as int + range as int <= 0x1_0000_0000,
        0 < total <= range,
        0 < size,
        start as int + size as int <= total as int,
    ensures
        ({
            let w = unit_width(range, total);
            let share = (wmul(start, w), wmul(size, w));
            &&& coded_window(low, range, start, size, total) == narrowed(low, share)
            &&& share_fits(range, share)
        }),
{
    law_coded_window_nested(low, range, start, size, total);
}

/// The two shares of a binary context, `[0, size0)` for its symbol and
/// `[size0, range & !0x3FFF)` for an escape, both fit the window when the
/// probability lies strictly inside the binary scale.
pub proof fn law_binary_shares_fit(range: u32, prob: u32)
    requires
        range >= 0x4000,
        0 < prob < 0x4000,
    ensures
        ({
            let size0 = wmul(range >> 14u32, prob);
            &&& share_fits(range, (0u32, size0))
            &&& share_fits(range, (size0, wsub(range & 0xFFFF_C000u32, size0)))
        }),
{
    law_binary_split(range, prob);
}

/// A binary-context probability stays within the binary scale: for
/// `0 < prob < PPMD_BIN_SCALE` a hit raises it without reaching the scale
/// and a miss lowers it without reaching zero.
pub proof fn law_binary_probability_bounds(prob: int)
    requires
        0 < prob < PPMD_BIN_SCALE,
    ensures
        prob <= update_prob_0(prob) < PPMD_BIN_SCALE,
        0 < update_prob_1(prob) <= prob,
        update_prob_0(prob) == update_prob_1(prob) + 128,
{
    let q = (prob + 32) / 128;
    assert(128 * q <= prob + 32 < 128 * q + 128) by {
        vstd::arithmetic::div_mod::lemma_fundamental_div_mod(prob + 32, 128);
        vstd::arithmetic::div_mod::lemma_mod_bound(prob + 32, 128);
    }
}

/// The size classes grow strictly: a later class holds more units.
pub proof fn law_size_classes_increase(i: int, j: int)
    requires
        0 <= i < j < NUM_INDEXES,
    ensures
        units_of_index(i) < units_of_index(j),
        1 <= units_of_index(i),
        units_of_index(j) <= 128,
{
}

/// The smallest size class that holds the units of class `i` is `i` itself,
/// so looking a class's size up again gives back the class.
pub proof fn law_size_class_round_trip(i: int)
    requires
        0 <= i < NUM_INDEXES,
    ensures
        is_index_of_units(units_of_index(i), i),
{
}

/// The class picked for `nu` units holds them, and no smaller class does;
/// for `1 <= nu <= 128` there is exactly one such class.
pub proof fn law_size_class_fits(nu: int, i: int, j: int)
    requires
        1 <= nu <= 128,
        is_index_of_units(nu, i),
        0 <= j < NUM_INDEXES,
    ensures
        units_of_index(i) >= nu,
        j < i ==> units_of_index(j) < nu,
        is_index_of_units(nu, j) ==> j == i,
{
    if j < i - 1 {
        law_size_classes_increase(j, i - 1);
    }
    if i < j - 1 {
        law_size_classes_increase(i, j - 1);
    }
}

/// One byte shift of the carryless coder: the shifted window stays
/// nonempty and below 2^32, and a value of the shifted window with the
/// shifted-out top byte put back in front is a value of the old window.
proof fn lemma_one_shift(l: u32, r: u32, v2: u32)
    requires
        l as int + r as int <= 0x1_0000_0000,
        r > 0,
        needs_shift(l, r),
    ensures
        ({
            let (l2, r2) = shifted_window(l, r);
            &&& l2 as int + r2 as int <= 0x1_0000_0000
            &&& r2 > 0
            &&& (l2 <= v2 && (v2 as int) < l2 as int + r2 as int) ==> {
                let v = ((top_byte(l) as u32) << 24u32) | (v2 >> 8u32);
                l <= v && (v as int) < l as int + r as int
            }
        }),
{
    let s = wadd(l, r);
    let rc: u32 = if (l ^ s) < K_TOP_VALUE {
        r
    } else {
        wsub(0, l) & (K_BOT_VALUE - 1) as u32
    };
    let (l2, r2) = shifted_window(l, r);
    assert(l2 == l << 8u32) by (bit_vector)
        requires
            l2 == ((l as int * 256) % 0x1_0000_0000) as u32,
    ;
    assert(r2 == rc << 8u32) by (bit_vector)
        requires
            r2 == ((rc as int * 256) % 0x1_0000_0000) as u32,
    ;
    let t = top_byte(l);
    assert(((t as u32) << 24u32) == l & 0xFF00_0000u32) by (bit_vector)
        requires
            t == (l / 0x100_0000) as u8,
    ;
    let lu = l as u64;
    let ru = r as u64;
    assert(s as u64 == ((lu + ru) as u64) & 0xFFFF_FFFFu64) by (bit_vector)
        requires
            s == wadd(l, r),
            lu == l as u64,
            ru == r as u64,
    ;
    assert({
        &&& (l << 8u32) as u64 + (rc << 8u32) as u64 <= 0x1_0000_0000u64
        &&& (rc << 8u32) > 0
        &&& ((l << 8u32) <= v2 && (v2 as u64) < (l << 8u32) as u64 + (rc << 8u32) as u64) ==> {
            &&& l <= ((l & 0xFF00_0000u32) | (v2 >> 8u32))
            &&& (((l & 0xFF00_0000u32) | (v2 >> 8u32)) as u64) < lu + ru
        }
    }) by (bit_vector)
        requires
            lu == l as u64,
            ru == r as u64,
            lu + ru <= 0x1_0000_0000u64,
            r > 0,
            s as u64 == ((lu + ru) as u64) & 0xFFFF_FFFFu64,
            (l ^ s) < 0x100_0000u32 || r < 0x8000u32,
            rc == if (l ^ s) < 0x100_0000u32 {
                r
            } else {
                wsub(0u32, l) & 0x7FFFu32
            },
    ;
}

/// The first four bytes of `seq![b] + t` are `b` and the first three of `t`.
proof fn lemma_be32_prepend(b: u8, t: Seq<u8>)
    requires
        t.len() >= 4,
    ensures
        be32(seq![b] + t) == ((b as u32) << 24u32) | (be32(t) >> 8u32),
{
    let u = seq![b] + t;
    assert(u[0] == b && u[1] == t[0] && u[2] == t[1] && u[3] == t[2]);
    let (t0, t1, t2, t3) = (t[0], t[1], t[2], t[3]);
    assert((((b as u32) << 24u32) | ((t0 as u32) << 16u32) | ((t1 as u32) << 8u32) | (t2 as u32))
        == ((b as u32) << 24u32) | ((((t0 as u32) << 24u32) | ((t1 as u32) << 16u32) | ((t2
        as u32) << 8u32) | (t3 as u32)) >> 8u32)) by (bit_vector);
}

/// Reading one byte further: the next four bytes are the last three of
/// these and the fifth.
proof fn lemma_be32_advance(t: Seq<u8>)
    requires
        t.len() >= 5,
    ensures
        be32(t.skip(1)) == (be32(t) << 8u32) | (t[4] as u32),
{
    let u = t.skip(1);
    assert(u[0] == t[1] && u[1] == t[2] && u[2] == t[3] && u[3] == t[4]);
    let (t0, t1, t2, t3, t4) = (t[0], t[1], t[2], t[3], t[4]);
    assert((((t1 as u32) << 24u32) | ((t2 as u32) << 16u32) | ((t3 as u32) << 8u32) | (t4 as u32))
        == ((((t0 as u32) << 24u32) | ((t1 as u32) << 16u32) | ((t2 as u32) << 8u32) | (t3
        as u32)) << 8u32) | (t4 as u32)) by (bit_vector);
}

/// The bytes that a flush writes read back as `low`.
proof fn lemma_be32_flushed(low: u32)
    ensures
        be32(flushed_bytes(low)) == low,
{
    let f = flushed_bytes(low);
    let (b0, b1, b2, b3) = (
        top_byte(low),
        top_byte(low << 8u32),
        top_byte(low << 16u32),
        top_byte(low << 24u32),
    );
    assert(f[0] == b0 && f[1] == b1 && f[2] == b2 && f[3] == b3);
    assert((((b0 as u32) << 24u32) | ((b1 as u32) << 16u32) | ((b2 as u32) << 8u32) | (b3 as u32))
        == low) by (bit_vector)
        requires
            b0 == (low / 0x100_0000) as u8,
            b1 == ((low << 8u32) / 0x100_0000) as u8,
            b2 == ((low << 16u32) / 0x100_0000) as u8,
            b3 == ((low << 24u32) / 0x100_0000) as u8,
    ;
}

/// Normalizing keeps the window nonempty and below 2^32, and writes one
/// byte per shift.
proof fn lemma_normalize_window(l: u32, r: u32, fuel: nat)
    requires
        l as int + r as int <= 0x1_0000_0000,
        r > 0,
    ensures
        ({
            let w = normalized_window(l, r, fuel);
            &&& w.0 as int + w.1 as int <= 0x1_0000_0000
            &&& w.1 > 0
            &&& shifted_out_bytes(l, r, fuel).len() == w.2
        }),
    decreases fuel,
{
    if fuel > 0 && needs_shift(l, r) {
        let (l2, r2) = shifted_window(l, r);
        lemma_one_shift(l, r, 0);
        lemma_normalize_window(l2, r2, (fuel - 1) as nat);
    }
}

/// A value of the normalized window, read after the bytes that the
/// normalization wrote, is a value of the window before it.
proof fn lemma_normalize_back(l: u32, r: u32, fuel: nat, rest: Seq<u8>)
    requires
        l as int + r as int <= 0x1_0000_0000,
        r > 0,
        rest.len() >= 4,
        normalized_window(l, r, fuel).0 <= be32(rest),
        (be32(rest) as int) < normalized_window(l, r, fuel).0 as int + normalized_window(
            l,
            r,
            fuel,
        ).1 as int,
    ensures
        l <= be32(shifted_out_bytes(l, r, fuel) + rest),
        (be32(shifted_out_bytes(l, r, fuel) + rest) as int) < l as int + r as int,
    decreases fuel,
{
    let out = shifted_out_bytes(l, r, fuel);
    if fuel == 0 || !needs_shift(l, r) {
        assert(out + rest =~= rest);
    } else {
        let (l2, r2) = shifted_window(l, r);
        lemma_one_shift(l, r, 0);
        lemma_normalize_back(l2, r2, (fuel - 1) as nat, rest);
        let inner = shifted_out_bytes(l2, r2, (fuel - 1) as nat) + rest;
        lemma_one_shift(l, r, be32(inner));
        assert(out + rest =~= seq![top_byte(l)] + inner);
        lemma_be32_prepend(top_byte(l), inner);
    }
}

/// While normalizing, the decoder shifts in the bytes that follow its code
/// and keeps the code the offset of the coded value in its window.
proof fn lemma_decoder_shifts(l: u32, r: u32, fuel: nat, code: u32, t: Seq<u8>)
    requires
        l as int + r as int <= 0x1_0000_0000,
        r > 0,
        t.len() >= normalized_window(l, r, fuel).2 + 4,
        code == wsub(be32(t), l),
    ensures
        ({
            let w = normalized_window(l, r, fuel);
            shifted_in_code(code, t.skip(4), w.2) == wsub(be32(t.skip(w.2 as int)), w.0)
        }),
    decreases fuel,
{
    let w = normalized_window(l, r, fuel);
    if fuel == 0 || !needs_shift(l, r) {
        assert(t.skip(0) =~= t);
    } else {
        let (l2, r2) = shifted_window(l, r);
        lemma_one_shift(l, r, 0);
        assert(l2 == l << 8u32) by (bit_vector)
            requires
                l2 == ((l as int * 256) % 0x1_0000_0000) as u32,
        ;
        let b = t[4];
        let code2 = (code << 8u32) | (b as u32);
        law_code_follows_shift(be32(t), l, code, b as u32);
        lemma_be32_advance(t);
        let t2 = t.skip(1);
        lemma_decoder_shifts(l2, r2, (fuel - 1) as nat, code2, t2);
        assert(t.skip(4)[0] == b);
        assert(t.skip(4).skip(1) =~= t2.skip(4));
        assert(t2.skip((w.2 - 1) as int) =~= t.skip(w.2 as int));
    }
}

/// The encoder's output from a window, read from its start, is a value of
/// that window.
proof fn lemma_run_value(low: u32, range: u32, shares: Seq<(u32, u32)>)
    requires
        low as int + range as int <= 0x1_0000_0000,
        range > 0,
        shares_fit(low, range, shares),
    ensures
        ({
            let run = encoder_run(low, range, shares);
            let s = run.2 + flushed_bytes(run.0);
            &&& s.len() >= 4
            &&& low <= be32(s)
            &&& (be32(s) as int) < low as int + range as int
        }),
    decreases shares.len(),
{
    let run = encoder_run(low, range, shares);
    if shares.len() == 0 {
        assert(run.2 + flushed_bytes(run.0) =~= flushed_bytes(low));
        lemma_be32_flushed(low);
    } else {
        let (l1, r1) = narrowed(low, shares[0]);
        let w = normalized_window(l1, r1, MAX_NORMALIZE_SHIFTS as nat);
        let tail = shares.skip(1);
        lemma_normalize_window(l1, r1, MAX_NORMALIZE_SHIFTS as nat);
        lemma_run_value(w.0, w.1, tail);
        let run2 = encoder_run(w.0, w.1, tail);
        let rest = run2.2 + flushed_bytes(run2.0);
        lemma_normalize_back(l1, r1, MAX_NORMALIZE_SHIFTS as nat, rest);
        assert(run.2 + flushed_bytes(run.0) =~= shifted_out_bytes(
            l1,
            r1,
            MAX_NORMALIZE_SHIFTS as nat,
        ) + rest);
    }
}

/// The decoder, started on the encoder's output from a window, finds each
/// share that the encoder coded.
proof fn lemma_decoder_follows(low: u32, range: u32, shares: Seq<(u32, u32)>, t: Seq<u8>, code: u32)
    requires
        low as int + range as int <= 0x1_0000_0000,
        range > 0,
        shares_fit(low, range, shares),
        t == encoder_run(low, range, shares).2 + flushed_bytes(encoder_run(low, range, shares).0),
        code == wsub(be32(t), low),
    ensures
        decoder_finds_shares(low, range, code, t.skip(4), shares),
    decreases shares.len(),
{
    if shares.len() > 0 {
        let share = shares[0];
        let (l1, r1) = narrowed(low, share);
        let w = normalized_window(l1, r1, MAX_NORMALIZE_SHIFTS as nat);
        let tail = shares.skip(1);
        lemma_normalize_window(l1, r1, MAX_NORMALIZE_SHIFTS as nat);
        lemma_run_value(w.0, w.1, tail);
        let run2 = encoder_run(w.0, w.1, tail);
        let rest = run2.2 + flushed_bytes(run2.0);
        lemma_normalize_back(l1, r1, MAX_NORMALIZE_SHIFTS as nat, rest);
        let out = shifted_out_bytes(l1, r1, MAX_NORMALIZE_SHIFTS as nat);
        assert(t =~= out + rest);
        let v = be32(t);
        let c1 = wsub(code, share.0);
        law_code_follows_narrowing(v, low, code, share.0);
        lemma_decoder_shifts(l1, r1, MAX_NORMALIZE_SHIFTS as nat, c1, t);
        assert(t.skip(w.2 as int) =~= rest);
        assert(t.skip(4).skip(w.2 as int) =~= rest.skip(4));
        lemma_decoder_follows(w.0, w.1, tail, rest, wsub(be32(rest), w.0));
    }
}

/// What the carryless range coder encodes, it decodes: for any sequence of
/// shares, each fitting the window it is coded in, the decoder that reads
/// the encoder's whole output (the bytes written while coding, then the
/// four flushed bytes) finds its code inside each share in turn, before it
/// narrows its window the way the encoder did; so its threshold picks the
/// symbol that was coded (see `law_threshold_finds_symbol`).
pub proof fn law_range_coder_round_trip(shares: Seq<(u32, u32)>)
    requires
        shares_fit(0, 0xFFFF_FFFF, shares),
    ensures
        encoder_output(shares).len() >= 4,
        decoder_finds_shares(
            0,
            0xFFFF_FFFF,
            be32(encoder_output(shares)),
            encoder_output(shares).skip(4),
            shares,
        ),
{
    lemma_run_value(0, 0xFFFF_FFFF, shares);
    lemma_decoder_follows(0, 0xFFFF_FFFF, shares, encoder_output(shares), be32(encoder_output(shares)));
}

/// A bound on the byte shifts that normalization still makes from the
/// window `(low, range)`: for a window inside 2^32, each shift lowers it.
/// Inside 2^32 with room above, each shift multiplies the range by 256
/// until the top bytes differ; on the edge of 2^32, shifts multiply `low`
/// (while its top byte is zero) or the range (while below `K_BOT_VALUE`)
/// by 256.
spec fn shifts_left(low: u32, range: u32) -> u32 {
    if (low as u64) + (range as u64) == 0x1_0000_0000u64 {
        ((if low < 0x100u32 {
            2u32
        } else {
            0u32
        }) + (if low < 0x1_0000u32 {
            2u32
        } else {
            0u32
        }) + (if low < 0x100_0000u32 {
            2u32
        } else {
            0u32
        }) + (if range < 0x80u32 {
            1u32
        } else {
            0u32
        }) + (if range < 0x8000u32 {
            1u32
        } else {
            0u32
        })) as u32
    } else {
        ((if range < 0x100u32 {
            2u32
        } else {
            0u32
        }) + (if range < 0x1_0000u32 {
            2u32
        } else {
            0u32
        }) + (if range < 0x100_0000u32 {
            2u32
        } else {
            0u32
        }) + 4u32) as u32
    }
}

/// Each byte shift of a window inside 2^32 lowers `shifts_left`.
proof fn lemma_shift_lowers(l: u32, r: u32)
    requires
        l as int + r as int <= 0x1_0000_0000,
        r > 0,
        needs_shift(l, r),
    ensures
        ({
            let (l2, r2) = shifted_window(l, r);
            &&& l2 as int + r2 as int <= 0x1_0000_0000
            &&& r2 > 0
            &&& 0 <= shifts_left(l2, r2) < shifts_left(l, r)
        }),
{
    lemma_one_shift(l, r, 0);
    let s = wadd(l, r);
    let rc: u32 = if (l ^ s) < K_TOP_VALUE {
        r
    } else {
        wsub(0, l) & (K_BOT_VALUE - 1) as u32
    };
    let (l2, r2) = shifted_window(l, r);
    assert(l2 == l << 8u32) by (bit_vector)
        requires
            l2 == ((l as int * 256) % 0x1_0000_0000) as u32,
    ;
    assert(r2 == rc << 8u32) by (bit_vector)
        requires
            r2 == ((rc as int * 256) % 0x1_0000_0000) as u32,
    ;
    let lu = l as u64;
    let ru = r as u64;
    assert(s as u64 == ((lu + ru) as u64) & 0xFFFF_FFFFu64) by (bit_vector)
        requires
            s == wadd(l, r),
            lu == l as u64,
            ru == r as u64,
    ;
    let p = shifts_left(l, r);
    let p2 = shifts_left(l2, r2);
    assert(p2 < p) by (bit_vector)
        requires
            lu == l as u64,
            ru == r as u64,
            lu + ru <= 0x1_0000_0000u64,
            r > 0,
            s as u64 == ((lu + ru) as u64) & 0xFFFF_FFFFu64,
            (l ^ s) < 0x100_0000u32 || r < 0x8000u32,
            rc == if (l ^ s) < 0x100_0000u32 {
                r
            } else {
                wsub(0u32, l) & 0x7FFFu32
            },
            l2 == l << 8u32,
            r2 == rc << 8u32,
            p == shifts_left(l, r),
            p2 == shifts_left(l2, r2),
    ;
}

proof fn lemma_normalize_done(l: u32, r: u32, fuel: nat)
    requires
        l as int + r as int <= 0x1_0000_0000,
        r > 0,
        fuel > shifts_left(l, r),
    ensures
        ({
            let w = normalized_window(l, r, fuel);
            &&& !needs_shift(w.0, w.1)
            &&& w.2 <= shifts_left(l, r)
        }),
    decreases fuel,
{
    if needs_shift(l, r) {
        let (l2, r2) = shifted_window(l, r);
        lemma_shift_lowers(l, r);
        lemma_normalize_done(l2, r2, (fuel - 1) as nat);
    }
}

/// Normalizing a nonempty window inside 2^32 ends with a window that needs
/// no further shift, after at most ten shifts, so the coders' bound of
/// `MAX_NORMALIZE_SHIFTS` shifts is never what stops them; the window stays
/// nonempty and inside 2^32.
pub proof fn law_normalization_completes(low: u32, range: u32)
    requires
        low as int + range as int <= 0x1_0000_0000,
        range > 0,
    ensures
        ({
            let w = normalized_window(low, range, MAX_NORMALIZE_SHIFTS as nat);
            &&& !needs_shift(w.0, w.1)
            &&& w.2 <= 10
            &&& w.0 as int + w.1 as int <= 0x1_0000_0000
            &&& w.1 > 0
        }),
{
    let p = shifts_left(low, range);
    assert(p <= 10) by (bit_vector)
        requires
            p == shifts_left(low, range),
    ;
    lemma_normalize_done(low, range, MAX_NORMALIZE_SHIFTS as nat);
    lemma_normalize_window(low, range, MAX_NORMALIZE_SHIFTS as nat);
}

} // verus!
