//! Symbol coding with the PPMd7 model, and the PPMd7 encoder and decoder.
use crate::byte_io::{
    drops_front, extends, lemma_drops_front_refl, lemma_drops_front_trans, lemma_extends_refl,
    lemma_extends_trans, ByteSink, ByteSource,
};
use crate::arena::{byte_at, u16_at, u32_at};
use crate::coder8::{full_mask, listed_symbol, mask_of, mask_out};
use crate::range8::{be32, shifted_in_code, unit_width, wadd, wmul};
use crate::model7::{initial_state_at, num_stats7, root_context7, root_fits, Ppmd7};
use crate::units::UNIT_SIZE;
use crate::model8::{bin_probs_in_scale, exp_escape, freq, one_state, set_freq, state_at, stats, successor, suffix, summ_freq, symbol, symbol_flag_exec};
use crate::prob::ppmd_update_prob_1;
use crate::range7::{
    zero_padded,
    encoder_output7, encoder_run7, flushed_bytes7, normalized_encoder7, shares7_fit, RangeDecoder7, RangeEncoder7, Share7,
};
use crate::{Error, PPMD7_MAX_MEM_SIZE, PPMD7_MAX_ORDER, PPMD7_MIN_MEM_SIZE, PPMD7_MIN_ORDER, SYM_END, SYM_ERROR};
use vstd::prelude::*;

verus! {

/// Rules out every symbol of the context `mc`.
fn mask_context7(model: &Ppmd7, mask: &mut Vec<u8>, mc: u32)
    requires
        old(mask)@.len() == 256,
    ensures
        final(mask)@.len() == 256,
        forall|k: int|
            0 <= k < 256 ==> #[trigger] final(mask)@[k] == (if listed_symbol(
                model.mem@,
                u32_at(model.mem@, wadd(mc, 4) as int) as u32,
                u16_at(model.mem@, mc as int),
                k,
            ) {
                0u8
            } else {
                old(mask)@[k]
            }),
{
    let sts = stats(&model.mem, mc);
    let n = num_stats7(&model.mem, mc);
    let mut i: u32 = 0;
    while i < n
        invariant
            mask@.len() == 256,
            i <= n,
            sts == u32_at(model.mem@, wadd(mc, 4) as int),
            n == u16_at(model.mem@, mc as int),
            forall|k: int|
                0 <= k < 256 ==> #[trigger] mask@[k] == (if listed_symbol(model.mem@, sts, i as int, k) {
                    0u8
                } else {
                    old(mask)@[k]
                }),
        decreases n - i,
    {
        let sym = symbol(&model.mem, state_at(sts, i));
        mask_out(mask, sym);
        proof {
            assert forall|k: int| 0 <= k < 256 implies #[trigger] mask@[k] == (if listed_symbol(
                model.mem@,
                sts,
                i + 1,
                k,
            ) {
                0u8
            } else {
                old(mask)@[k]
            }) by {
                if k == sym {
                    assert(byte_at(model.mem@, wadd(sts, wmul(i, 6)) as int) == k);
                } else {
                    if listed_symbol(model.mem@, sts, i + 1, k) {
                        let j = choose|j: u32| j < i + 1 && #[trigger] byte_at(model.mem@, wadd(sts, wmul(j, 6)) as int) == k;
                        assert(j != i);
                        assert(listed_symbol(model.mem@, sts, i as int, k));
                    }
                }
            }
        }
        i = i + 1;
    }
}

/// The frequency of the state `i` of the list at `sts`, kept only where the
/// mask leaves its symbol in play.
pub(crate) open spec fn masked_freq(mem: Seq<u8>, mask: Seq<u8>, sts: u32, i: int) -> u32 {
    let s = wadd(sts, wmul(i as u32, 6));
    let sym = byte_at(mem, s as int);
    let m: u32 = if 0 <= sym < mask.len() {
        mask[sym] as u32
    } else {
        0
    };
    (byte_at(mem, wadd(s, 1) as int) as u32) & m
}

/// The wrapping sum of the masked frequencies of the states `from..to`.
pub(crate) open spec fn masked_sum(mem: Seq<u8>, mask: Seq<u8>, sts: u32, from: int, to: int) -> u32
    decreases to - from,
{
    if to <= from {
        0
    } else {
        wadd(masked_sum(mem, mask, sts, from, to - 1), masked_freq(mem, mask, sts, to - 1))
    }
}

/// The sum of the frequencies of the symbols of `mc` still in play.
fn masked_sum7(model: &Ppmd7, mask: &Vec<u8>, mc: u32, from: u32) -> (r: u32)
    requires
        mask@.len() == 256,
    ensures
        r == masked_sum(
            model.mem@,
            mask@,
            u32_at(model.mem@, wadd(mc, 4) as int) as u32,
            from as int,
            u16_at(model.mem@, mc as int),
        ),
{
    let sts = stats(&model.mem, mc);
    let n = num_stats7(&model.mem, mc);
    let mut sum: u32 = 0;
    let mut i: u32 = from;
    while i < n
        invariant
            mask@.len() == 256,
            from <= i,
            i <= n || i == from,
            sts == u32_at(model.mem@, wadd(mc, 4) as int),
            n == u16_at(model.mem@, mc as int),
            sum == masked_sum(model.mem@, mask@, sts, from as int, i as int),
        decreases n - i,
    {
        let s = state_at(sts, i);
        sum = sum.wrapping_add(freq(&model.mem, s) & mask_of(mask, symbol(&model.mem, s)));
        i = i + 1;
    }
    sum
}

/// The frequency count that a code falls on: `code / (range / total)`, or
/// `u32::MAX` when a unit of the total has no width.
pub open spec fn threshold_of(range: u32, code: u32, total: u32) -> u32 {
    let w = unit_width(range, total);
    if w > 0 {
        code / w
    } else {
        u32::MAX
    }
}

/// The frequency of the state `k` of the list at `sts`.
pub open spec fn state_freq(mem: Seq<u8>, sts: u32, k: int) -> u32 {
    byte_at(mem, wadd(wadd(sts, wmul(k as u32, 6)), 1) as int) as u32
}

/// The symbol of the state `k` of the list at `sts`.
pub open spec fn state_symbol(mem: Seq<u8>, sts: u32, k: int) -> u8 {
    byte_at(mem, wadd(sts, wmul(k as u32, 6)) as int) as u8
}

/// `count` with the frequencies of the first `k` states of the list at
/// `sts` taken off, wrapping.
pub open spec fn count_after(mem: Seq<u8>, sts: u32, count: u32, k: int) -> u32
    decreases k,
{
    if k <= 0 {
        count
    } else {
        crate::range8::wsub(count_after(mem, sts, count, k - 1), state_freq(mem, sts, k - 1))
    }
}

/// From the state `k` on, the first state of the list at `sts` past whose
/// frequency the count falls below zero; `n` when there is none.
pub open spec fn first_hit(mem: Seq<u8>, sts: u32, count: u32, n: int, k: int) -> int
    decreases n - k,
{
    if k >= n {
        n
    } else if count_after(mem, sts, count, k + 1) >= 0x8000_0000 {
        k
    } else {
        first_hit(mem, sts, count, n, k + 1)
    }
}

/// The symbol that the decoder finds in the current context of `model`
/// with the window `range` and the code `code`, before any escape: in a
/// context of several symbols the state on whose cumulative frequency the
/// threshold falls, in a binary context its symbol when the code lies in
/// the share of its probability. `None` when the decoder escapes.
pub closed spec fn first_stage7(model: Ppmd7, range: u32, code: u32) -> Option<u8> {
    let m = model.mem@;
    let mc = model.min_context;
    let n = u16_at(m, mc as int);
    if n != 1 {
        let sts = u32_at(m, wadd(mc, 4) as int) as u32;
        let summ = u16_at(m, wadd(mc, 2) as int) as u32;
        let k = first_hit(m, sts, threshold_of(range, code, summ), n, 0);
        if k < n {
            Some(state_symbol(m, sts, k))
        } else {
            None
        }
    } else {
        let pi = model.bin_slot(mc);
        let pr0: u32 = if pi < 8192 {
            model.bin_summ@[pi as int] as u32
        } else {
            0
        };
        if code < wmul(range >> 14u32, pr0) {
            Some(byte_at(m, wadd(mc, 2) as int) as u8)
        } else {
            None
        }
    }
}

/// From the state `k` on, the first of the `n` states of the list at `sts`
/// that holds `sym`; `n` when none does.
pub open spec fn first_with(mem: Seq<u8>, sts: u32, sym: int, n: int, k: int) -> int
    decreases n - k,
{
    if k >= n {
        n
    } else if state_symbol(mem, sts, k) as int == sym {
        k
    } else {
        first_with(mem, sts, sym, n, k + 1)
    }
}

/// The wrapping sum of the frequencies of the first `k` states of the list
/// at `sts`.
pub open spec fn cum_freq(mem: Seq<u8>, sts: u32, k: int) -> u32
    decreases k,
{
    if k <= 0 {
        0
    } else {
        wadd(cum_freq(mem, sts, k - 1), state_freq(mem, sts, k - 1))
    }
}

/// The share `(start, size, total)` with which the encoder codes `sym` in
/// the current context of `model` before any escape: the cumulative
/// frequency of the states before the first that holds it, its frequency,
/// and the context's frequency sum. `None` for a binary context and for a
/// symbol that the context does not hold.
pub closed spec fn first_share7(model: Ppmd7, sym: int) -> Option<(u32, u32, u32)> {
    let m = model.mem@;
    let mc = model.min_context;
    let n = u16_at(m, mc as int);
    if n != 1 {
        let sts = u32_at(m, wadd(mc, 4) as int) as u32;
        let summ = u16_at(m, wadd(mc, 2) as int) as u32;
        let k = first_with(m, sts, sym, n, 0);
        if k < n {
            Some((cum_freq(m, sts, k), state_freq(m, sts, k), summ))
        } else {
            None
        }
    } else {
        None
    }
}

/// The width with which the encoder codes `sym` in the current context of
/// `model` when the context is binary and holds `sym`: the share of the
/// context's probability in the window `range`. `None` otherwise.
pub closed spec fn first_bit7(model: Ppmd7, range: u32, sym: int) -> Option<u32> {
    let m = model.mem@;
    let mc = model.min_context;
    if u16_at(m, mc as int) == 1 && byte_at(m, wadd(mc, 2) as int) == sym {
        let pi = model.bin_slot(mc);
        let pr0: u32 = if pi < 8192 {
            model.bin_summ@[pi as int] as u32
        } else {
            0
        };
        Some(wmul(range >> 14u32, pr0))
    } else {
        None
    }
}

/// Encoder and decoder narrow their windows alike: with the same model and
/// window, a decoder whose code lies in the part of the window that the
/// encoder's share of a symbol covers narrows its window to the width that
/// the encoder codes the symbol with, before both normalize with the same
/// bound on shifts.
pub proof fn law_first_stage_windows_agree7(model: Ppmd7, sym: u8, range: u32, code: u32)
    requires
        first_share7(model, sym as int) matches Some(share) && ({
            let w = unit_width(range, share.2);
            &&& share.0 as int * w <= code
            &&& (code as int) < (share.0 as int + share.1 as int) * w
        }),
    ensures
        first_window7(model, range, code) matches Some(win) && first_share7(model, sym as int) matches Some(share)
            && win.0 == wmul(share.1, unit_width(range, share.2)) && win.2 == 2,
{
    law_first_stage_finds_symbol7(model, sym, range, code);
    let m = model.mem@;
    let mc = model.min_context;
    let n = u16_at(m, mc as int);
    let sts = u32_at(m, wadd(mc, 4) as int) as u32;
    let summ = u16_at(m, wadd(mc, 2) as int) as u32;
    let k = first_with(m, sts, sym as int, n, 0);
    lemma_first_with(m, sts, sym as int, n, 0);
    let w = unit_width(range, summ);
    let start = cum_freq(m, sts, k);
    let size = state_freq(m, sts, k);
    assert(w > 0) by (nonlinear_arith)
        requires
            start as int * w <= code,
            (code as int) < (start as int + size as int) * w,
            w >= 0,
    ;
    let thr = threshold_of(range, code, summ);
    assert(start <= thr && (thr as int) < start as int + size as int) by (nonlinear_arith)
        requires
            start as int * w <= code,
            (code as int) < (start as int + size as int) * w,
            w > 0,
            thr == code / w,
    ;
    assert(n <= 65535);
    lemma_first_hit(m, sts, thr, n, k, 0);
}

/// What the PPMd7 encoder codes in a binary context, the decoder finds
/// there: with the same model and window, a decoder whose code lies below
/// the width with which the encoder codes the context's symbol finds that
/// symbol.
pub proof fn law_binary_stage_finds_symbol7(model: Ppmd7, sym: u8, range: u32, code: u32)
    requires
        first_bit7(model, range, sym as int) matches Some(bound) && code < bound,
    ensures
        first_stage7(model, range, code) == Some(sym),
{
}

/// What the PPMd7 encoder writes for a symbol that it codes in its first
/// stage from a fresh window, a decoder with the same model finds again:
/// the bytes of coding the symbol and flushing start with the zero byte that
/// the decoder checks, and a decoder whose code is read from the next four
/// bytes finds the symbol. The symbol's share must be a nonempty part of the
/// context's frequency sum, as in every model that the coder builds.
#[verifier::rlimit(50)]
pub proof fn law_first_symbol_round_trip7(model: Ppmd7, sym: u8)
    requires
        first_share7(model, sym as int) matches Some(share) && 0 < share.1 && share.0 as int + share.1 as int
            <= share.2 as int,
    ensures
        match first_share7(model, sym as int) {
            Some(share) => {
                let c = coded_share7(0, 0xFFFF_FFFF, 0, 1, share, 2);
                let out = c.4 + flushed_bytes7(c.0, c.2, c.3, 5);
                let w = unit_width(0xFFFF_FFFF, share.2);
                &&& out.len() >= 5
                &&& out[0] == 0
                &&& first_stage7(model, 0xFFFF_FFFF, be32(out.skip(1))) == Some(sym)
                &&& share.0 as int * w <= be32(out.skip(1))
                &&& (be32(out.skip(1)) as int) < (share.0 as int + share.1 as int) * w
            },
            None => false,
        },
{
    let share = first_share7(model, sym as int)->Some_0;
    let (start, size, total) = share;
    let w = unit_width(0xFFFF_FFFF, total);
    assert(w as int * total as int <= 0xFFFF_FFFF) by (nonlinear_arith)
        requires
            w == 0xFFFF_FFFFu32 / total,
            total > 0,
    ;
    assert(w >= 1) by (nonlinear_arith)
        requires
            w == 0xFFFF_FFFFu32 / total,
            total > 0,
    ;
    assert(start as int * w as int + size as int * w as int <= 0xFFFF_FFFF) by (nonlinear_arith)
        requires
            w as int * total as int <= 0xFFFF_FFFF,
            start as int + size as int <= total as int,
            w >= 0,
    ;
    assert(size as int * w as int >= 1) by (nonlinear_arith)
        requires
            size >= 1,
            w >= 1,
    ;
    assert(start as int * w as int >= 0) by (nonlinear_arith)
        requires
            w >= 0,
    ;
    let off = wmul(start, w);
    let width = wmul(size, w);
    assert(off as int == start as int * w as int);
    assert(width as int == size as int * w as int);
    let shares: Seq<Share7> = seq![(off, width, 2u32)];
    assert(shares.skip(1) =~= Seq::<Share7>::empty());
    assert(shares[0] == (off, width, 2u32));
    assert(shares7_fit(crate::range7::normalized_range7(width, 2), shares.skip(1)));
    assert(shares7_fit(0xFFFF_FFFF, shares));
    let c = coded_share7(0, 0xFFFF_FFFF, 0, 1, share, 2);
    let n = normalized_encoder7(off as u64, width, 0, 1, 2);
    assert(((0 + off as int) % 0x1_0000_0000_0000_0000) as u64 == off as u64);
    assert(c == n);
    assert(encoder_run7(n.0, n.1, n.2, n.3, shares.skip(1)) == (n.0, n.1, n.2, n.3, Seq::<u8>::empty()));
    assert(encoder_run7(0, 0xFFFF_FFFF, 0, 1, shares) == (n.0, n.1, n.2, n.3, n.4 + Seq::<u8>::empty()));
    assert(n.4 + Seq::<u8>::empty() =~= n.4);
    assert(encoder_run7(0, 0xFFFF_FFFF, 0, 1, shares).4 =~= c.4);
    assert(encoder_output7(shares) =~= c.4 + flushed_bytes7(c.0, c.2, c.3, 5));
    crate::laws7::law_range_coder7_round_trip(shares);
    let out = encoder_output7(shares);
    let code = be32(out.skip(1));
    assert(off <= code && (code as int) < off as int + width as int);
    assert((start as int + size as int) * w as int == start as int * w as int + size as int * w as int) by (nonlinear_arith);
    law_first_stage_finds_symbol7(model, sym, 0xFFFF_FFFF, code);
}

/// The coder state `(low, range, cache, cache_size)` and the bytes written
/// after the share `(start, size, total)` was coded from `(low, range, cache,
/// cache_size)` and the window was normalized with at most `shifts` shifts.
pub open spec fn coded_share7(
    low: u64,
    range: u32,
    cache: u8,
    cache_size: u64,
    share: (u32, u32, u32),
    shifts: nat,
) -> (u64, u32, u8, u64, Seq<u8>) {
    let w = unit_width(range, share.2);
    normalized_encoder7(
        ((low as int + wmul(share.0, w)) % 0x1_0000_0000_0000_0000) as u64,
        wmul(share.1, w),
        cache,
        cache_size,
        shifts,
    )
}

/// The sum of the frequencies of a list stays small: below 256 times its
/// length, and with no wrapping on the way.
pub(crate) proof fn lemma_cum_small(m: Seq<u8>, sts: u32, k: int)
    requires
        0 <= k <= 65536,
    ensures
        cum_freq(m, sts, k) as int <= 255 * k,
        k > 0 ==> cum_freq(m, sts, k) as int == cum_freq(m, sts, k - 1) as int + state_freq(m, sts, k - 1) as int,
    decreases k,
{
    if k > 0 {
        lemma_cum_small(m, sts, k - 1);
        assert(state_freq(m, sts, k - 1) <= 255);
    }
}

/// The cumulative frequencies grow along the list.
pub(crate) proof fn lemma_cum_mono(m: Seq<u8>, sts: u32, i: int, j: int)
    requires
        0 <= i <= j <= 65536,
    ensures
        cum_freq(m, sts, i) <= cum_freq(m, sts, j),
    decreases j - i,
{
    if i < j {
        lemma_cum_mono(m, sts, i, j - 1);
        lemma_cum_small(m, sts, j);
    }
}

/// While the count reaches past the cumulative frequency, taking the
/// frequencies off it does not wrap.
pub(crate) proof fn lemma_count_after(m: Seq<u8>, sts: u32, thr: u32, j: int)
    requires
        0 <= j <= 65536,
        cum_freq(m, sts, j) <= thr,
    ensures
        count_after(m, sts, thr, j) as int == thr as int - cum_freq(m, sts, j) as int,
    decreases j,
{
    if j > 0 {
        lemma_cum_small(m, sts, j);
        lemma_cum_mono(m, sts, j - 1, j);
        lemma_count_after(m, sts, thr, j - 1);
    }
}

/// A count that falls in the share of the state `k` is first taken below
/// zero by the frequency of that state.
pub(crate) proof fn lemma_first_hit(m: Seq<u8>, sts: u32, thr: u32, n: int, k: int, j: int)
    requires
        0 <= j <= k < n <= 65535,
        cum_freq(m, sts, k) <= thr,
        (thr as int) < cum_freq(m, sts, k) as int + state_freq(m, sts, k) as int,
    ensures
        first_hit(m, sts, thr, n, j) == k,
    decreases k - j,
{
    lemma_cum_small(m, sts, k + 1);
    lemma_cum_small(m, sts, k);
    if j == k {
        lemma_count_after(m, sts, thr, k);
        assert(count_after(m, sts, thr, k + 1) >= 0x8000_0000);
    } else {
        lemma_cum_mono(m, sts, j + 1, k);
        lemma_count_after(m, sts, thr, j + 1);
        assert(count_after(m, sts, thr, j + 1) < 0x8000_0000);
        lemma_first_hit(m, sts, thr, n, k, j + 1);
    }
}

/// The first state from `k` on that holds `sym` holds it.
pub(crate) proof fn lemma_first_with(m: Seq<u8>, sts: u32, sym: int, n: int, k: int)
    requires
        0 <= k,
        first_with(m, sts, sym, n, k) < n,
    ensures
        state_symbol(m, sts, first_with(m, sts, sym, n, k)) as int == sym,
        k <= first_with(m, sts, sym, n, k),
    decreases n - k,
{
    if k < n && state_symbol(m, sts, k) as int != sym {
        lemma_first_with(m, sts, sym, n, k + 1);
    }
}

/// Taking the frequencies of the first `k` states off a count takes off
/// their sum, wrapping.
pub(crate) proof fn lemma_count_after_sum(mem: Seq<u8>, sts: u32, c: u32, k: int)
    requires
        0 <= k,
    ensures
        count_after(mem, sts, c, k) == crate::range8::wsub(c, cum_freq(mem, sts, k)),
    decreases k,
{
    if k > 0 {
        lemma_count_after_sum(mem, sts, c, k - 1);
    }
}

/// The decoder's count in the current context of several symbols falls
/// past the context's total: no state and no escape holds it, so the data
/// is corrupt.
pub closed spec fn first_stage_overflow7(model: Ppmd7, range: u32, code: u32) -> bool {
    let m = model.mem@;
    let mc = model.min_context;
    let n = u16_at(m, mc as int);
    let sts = u32_at(m, wadd(mc, 4) as int) as u32;
    let summ = u16_at(m, wadd(mc, 2) as int) as u32;
    let thr = threshold_of(range, code, summ);
    &&& n > 1
    &&& first_hit(m, sts, thr, n, 0) == n
    &&& thr >= summ
}

/// The window the decoder narrows to when it finds a symbol in the current
/// context before any escape, with the most shifts that follow: the width
/// and the code after the narrowing, and the shift bound. `None` when the
/// decoder escapes.
pub closed spec fn first_window7(model: Ppmd7, range: u32, code: u32) -> Option<(u32, u32, nat)> {
    let m = model.mem@;
    let mc = model.min_context;
    let n = u16_at(m, mc as int);
    if n != 1 {
        let sts = u32_at(m, wadd(mc, 4) as int) as u32;
        let summ = u16_at(m, wadd(mc, 2) as int) as u32;
        let k = first_hit(m, sts, threshold_of(range, code, summ), n, 0);
        let w = unit_width(range, summ);
        if k < n {
            Some(
                (
                    wmul(state_freq(m, sts, k), w),
                    crate::range8::wsub(code, wmul(cum_freq(m, sts, k), w)),
                    2nat,
                ),
            )
        } else {
            None
        }
    } else {
        let pi = model.bin_slot(mc);
        let pr0: u32 = if pi < 8192 {
            model.bin_summ@[pi as int] as u32
        } else {
            0
        };
        let bound = wmul(range >> 14u32, pr0);
        if code < bound {
            Some((bound, code, 1nat))
        } else {
            None
        }
    }
}

/// What the PPMd7 encoder codes in a context, the decoder finds there: with
/// the same model, a decoder whose code lies in the part of its window that
/// the encoder's share of the symbol covers, `[start * w, (start + size) *
/// w)` with `w` the width of one unit of the frequency sum, finds that
/// symbol in its first stage, before any escape.
pub proof fn law_first_stage_finds_symbol7(model: Ppmd7, sym: u8, range: u32, code: u32)
    requires
        first_share7(model, sym as int) matches Some(share) && ({
            let w = unit_width(range, share.2);
            &&& share.0 as int * w <= code
            &&& (code as int) < (share.0 as int + share.1 as int) * w
        }),
    ensures
        first_stage7(model, range, code) == Some(sym),
{
    let m = model.mem@;
    let mc = model.min_context;
    let n = u16_at(m, mc as int);
    let sts = u32_at(m, wadd(mc, 4) as int) as u32;
    let summ = u16_at(m, wadd(mc, 2) as int) as u32;
    let k = first_with(m, sts, sym as int, n, 0);
    lemma_first_with(m, sts, sym as int, n, 0);
    let start = cum_freq(m, sts, k);
    let size = state_freq(m, sts, k);
    let w = unit_width(range, summ);
    assert(w > 0) by (nonlinear_arith)
        requires
            start as int * w <= code,
            (code as int) < (start as int + size as int) * w,
            w >= 0,
    ;
    let thr = threshold_of(range, code, summ);
    assert(thr == code / w);
    assert(start <= thr && (thr as int) < start as int + size as int) by (nonlinear_arith)
        requires
            start as int * w <= code,
            (code as int) < (start as int + size as int) * w,
            w > 0,
            thr == code / w,
    ;
    assert(n <= 65535);
    lemma_first_hit(m, sts, thr, n, k, 0);
}

/// In the root context of a restarted model, the state `j` has frequency 1
/// and symbol `j`, so the states before `k` sum to `k`.
proof fn lemma_root_states(mem: Seq<u8>, mc: int, s: int, k: int)
    requires
        root_fits(mem.len() as int, mc, s),
        root_context7(mem, mc, s),
        0 <= k <= 256,
    ensures
        cum_freq(mem, s as u32, k) == k,
        forall|j: int| 0 <= j < 256 ==> #[trigger] state_freq(mem, s as u32, j) == 1,
        forall|j: int| 0 <= j < 256 ==> #[trigger] state_symbol(mem, s as u32, j) == j,
    decreases k,
{
    assert forall|j: int| 0 <= j < 256 implies #[trigger] state_freq(mem, s as u32, j) == 1 && state_symbol(
        mem,
        s as u32,
        j,
    ) == j by {
        assert(initial_state_at(mem, s, j));
        assert(wmul(j as u32, 6) == 6 * j);
        assert(wadd(s as u32, wmul(j as u32, 6)) == s + 6 * j);
        assert(wadd(wadd(s as u32, wmul(j as u32, 6)), 1) == s + 6 * j + 1);
    }
    assert forall|j: int| 0 <= j < 256 implies #[trigger] state_symbol(mem, s as u32, j) == j by {
        assert(state_freq(mem, s as u32, j) == 1);
    }
    if k > 0 {
        lemma_root_states(mem, mc, s, k - 1);
    }
}

/// A model fresh from construction, with its size in the accepted range.
pub closed spec fn fresh_model7(m: Ppmd7) -> bool {
    &&& m.is_initial()
    &&& m.mem@.len() == m.align_offset + m.size
    &&& m.align_offset <= 3
    &&& PPMD7_MIN_MEM_SIZE <= m.size <= PPMD7_MAX_MEM_SIZE
}

/// A fresh model's current context is its root context, which fits the
/// arena.
proof fn lemma_fresh_root7(m: Ppmd7)
    requires
        fresh_model7(m),
    ensures
        root_fits(m.mem@.len() as int, m.min_context as int, m.found_state as int),
        root_context7(m.mem@, m.min_context as int, m.found_state as int),
        wadd(m.min_context, 2) == m.min_context + 2,
        wadd(m.min_context, 4) == m.min_context + 4,
        u32_at(m.mem@, wadd(m.min_context, 4) as int) as u32 == m.found_state,
{
    let size = m.size;
    let hi0 = wadd(m.align_offset, size);
    assert(hi0 == m.align_offset + size);
    let q = (size / 8 / UNIT_SIZE * 7 * UNIT_SIZE) as u32;
    assert(q >= 1764 && q <= size) by (nonlinear_arith)
        requires
            q == (size / 8 / 12 * 7 * 12) as u32,
            size >= 2048,
            size <= 4294967259u32,
    ;
    assert(m.min_context == hi0 - 12);
    assert(m.found_state == hi0 - q);
}

/// In a fresh model, the decoder's first symbol is its code divided by the
/// width of one unit of the frequency sum 257, whenever that falls on a
/// symbol.
proof fn lemma_fresh_first_stage7(m: Ppmd7, code: u32)
    requires
        fresh_model7(m),
        code / (0xFFFF_FFFFu32 / 257) < 256,
    ensures
        first_stage7(m, 0xFFFF_FFFF, code) == Some((code / (0xFFFF_FFFFu32 / 257)) as u8),
{
    lemma_fresh_root7(m);
    let mem = m.mem@;
    let mc = m.min_context;
    let st = m.found_state;
    let thr = code / (0xFFFF_FFFFu32 / 257);
    assert(u16_at(mem, mc as int) == 256);
    assert(u16_at(mem, wadd(mc, 2) as int) == 257);
    assert(unit_width(0xFFFF_FFFF, 257) == 0xFFFF_FFFFu32 / 257);
    assert(threshold_of(0xFFFF_FFFF, code, 257) == thr);
    lemma_root_states(mem, mc as int, st as int, thr as int);
    lemma_first_hit(mem, st, thr, 256, thr as int, 0);
    assert(first_hit(mem, st, threshold_of(0xFFFF_FFFF, code, 257), 256, 0) == thr);
    assert(state_symbol(mem, st, thr as int) == thr);
}

/// In a fresh model, the encoder codes each symbol `sym` with the share
/// `[sym, sym + 1)` of the frequency sum 257.
proof fn lemma_fresh_first_share7(m: Ppmd7, sym: u8)
    requires
        fresh_model7(m),
    ensures
        first_share7(m, sym as int) == Some((sym as u32, 1u32, 257u32)),
{
    lemma_fresh_root7(m);
    let mem = m.mem@;
    let st = m.found_state;
    lemma_root_states(mem, m.min_context as int, st as int, sym as int);
    lemma_first_with_at(mem, st, sym as int, 256, 0);
}

/// When the state `j` holds `j` for each `j`, the first state from `k` on
/// that holds `sym` is `sym`.
pub(crate) proof fn lemma_first_with_at(mem: Seq<u8>, sts: u32, sym: int, n: int, k: int)
    requires
        0 <= k <= sym < n <= 256,
        forall|j: int| 0 <= j < 256 ==> #[trigger] state_symbol(mem, sts, j) == j,
    ensures
        first_with(mem, sts, sym, n, k) == sym,
    decreases sym - k,
{
    if k < sym {
        assert(state_symbol(mem, sts, k) == k);
        lemma_first_with_at(mem, sts, sym, n, k + 1);
    } else {
        assert(state_symbol(mem, sts, k) == k);
    }
}

/// A fresh PPMd7 decoder gives every symbol the same share of its root
/// context: the first symbol that it finds is its code divided by the width
/// of one unit of the frequency sum 257, whenever that falls on a symbol.
pub proof fn law_fresh_decoder_first_symbol7<R: ByteSource>(d: Ppmd7Decoder<R>)
    requires
        d.is_fresh(),
        d.window() == 0xFFFF_FFFF,
        PPMD7_MIN_MEM_SIZE <= d.mem_size() <= PPMD7_MAX_MEM_SIZE,
        d.code() / (0xFFFF_FFFFu32 / 257) < 256,
    ensures
        d.next_symbol() == Some((d.code() / (0xFFFF_FFFFu32 / 257)) as u8),
{
    lemma_fresh_first_stage7(d.model, d.rc.code);
}

/// What a fresh PPMd7 encoder writes for its first symbol, a fresh decoder
/// finds first: the bytes of coding the symbol and flushing start with the
/// zero byte that the decoder checks, and a decoder with a fresh model whose
/// code is read from the next four bytes finds the symbol.
pub proof fn law_fresh_first_symbol_round_trip7<W: ByteSink, R: ByteSource>(
    e: Ppmd7Encoder<W>,
    d: Ppmd7Decoder<R>,
    sym: u8,
)
    requires
        e.is_fresh(),
        e.at_start(),
        PPMD7_MIN_MEM_SIZE <= e.mem_size() <= PPMD7_MAX_MEM_SIZE,
        d.is_fresh(),
        d.window() == 0xFFFF_FFFF,
        PPMD7_MIN_MEM_SIZE <= d.mem_size() <= PPMD7_MAX_MEM_SIZE,
    ensures
        e.first_output(sym) matches Some(out) && out.len() >= 5 && out[0] == 0 && (d.code() == be32(out.skip(1))
            ==> d.next_symbol() == Some(sym)),
{
    lemma_fresh_first_share7(e.model, sym);
    law_first_symbol_round_trip7(e.model, sym);
    let share = (sym as u32, 1u32, 257u32);
    let c = coded_share7(0, 0xFFFF_FFFF, 0, 1, share, 2);
    let out = c.4 + flushed_bytes7(c.0, c.2, c.3, 5);
    let code = be32(out.skip(1));
    let w = unit_width(0xFFFF_FFFF, 257);
    assert(w == 0xFFFF_FFFFu32 / 257);
    assert(code / w == sym as int) by (nonlinear_arith)
        requires
            sym as int * w <= code,
            (code as int) < (sym as int + 1) * w,
            w > 0,
    ;
    if d.rc.code == code {
        lemma_fresh_first_stage7(d.model, code);
    }
}

/// The context reached from `c` by following `k` suffix links.
pub open spec fn suffix_walk(mem: Seq<u8>, c: u32, k: nat) -> u32
    decreases k,
{
    if k == 0 {
        c
    } else {
        u32_at(mem, wadd(suffix_walk(mem, c, (k - 1) as nat), 8) as int) as u32
    }
}

/// Following the suffix links from `c` reaches a context without a suffix:
/// the root, past which a decoder escapes only for the end marker.
pub open spec fn reaches_root(mem: Seq<u8>, c: u32) -> bool {
    exists|k: nat| u32_at(mem, wadd(#[trigger] suffix_walk(mem, c, k), 8) as int) == 0
}

/// Decodes one symbol: a byte value, `SYM_END` for the end marker or
/// `SYM_ERROR` for data that no encoder produced.
pub(crate) fn decode_symbol7<R: ByteSource>(model: &mut Ppmd7, rc: &mut RangeDecoder7<R>) -> (r: i32)
    requires
        old(model).wf(),
    ensures
        final(model).wf(),
        final(model).same_params(*old(model)),
        -2 <= r < 256,
        R::models_pending() ==> drops_front(old(rc).reader.pending(), final(rc).reader.pending()),
        first_stage7(*old(model), old(rc).range, old(rc).code) matches Some(s) ==> r == s as i32,
        first_stage_overflow7(*old(model), old(rc).range, old(rc).code) ==> r == SYM_ERROR,
        first_window7(*old(model), old(rc).range, old(rc).code) matches Some(win) ==> ({
            let n = crate::range7::shifts7(win.0, win.2);
            let p = old(rc).reader.pending();
            &&& final(rc).range == crate::range7::normalized_range7(win.0, win.2)
            &&& (R::models_pending() && n <= p.len() && final(rc).reader.pending() == p.skip(n as int))
                ==> final(rc).code == shifted_in_code(win.1, p, n)
        }),
        r == SYM_END ==> final(model).mem == old(model).mem && reaches_root(old(model).mem@, old(model).min_context),
{
    broadcast use lemma_drops_front_refl;

    let mut mask = full_mask();
    let mc = model.min_context;
    if num_stats7(&model.mem, mc) != 1 {
        let sts = stats(&model.mem, mc);
        let summ = summ_freq(&model.mem, mc);
        let mut count = rc.get_threshold(summ);
        let hi_cnt = count;
        let f0 = freq(&model.mem, sts);
        count = count.wrapping_sub(f0);
        proof {
            assert(wmul(0u32, 6) == 0);
            assert(wadd(sts, 0) == sts);
            assert(count_after(model.mem@, sts, hi_cnt, 0) == hi_cnt);
            assert(count == count_after(model.mem@, sts, hi_cnt, 1));
        }
        if count >= 0x8000_0000 {
            rc.decode(0, f0, summ);
            let ghost before = rc.reader.pending();
            rc.normalize(2);
            proof {
                if R::models_pending() {
                    lemma_drops_front_trans(old(rc).reader.pending(), before, rc.reader.pending());
                }
            }
            model.found_state = sts;
            let sym = symbol(&model.mem, sts) as i32;
            model.update1_0();
            return sym;
        }
        model.prev_success = 0;
        let n = num_stats7(&model.mem, mc);
        let mut i: u32 = 1;
        while i < n
            invariant
                model.wf(),
                model.same_params(*old(model)),
                R::models_pending() ==> drops_front(old(rc).reader.pending(), rc.reader.pending()),
                i >= 1,
                i <= n || n == 0,
                model.mem == old(model).mem,
                model.min_context == old(model).min_context,
                rc.range == old(rc).range,
                rc.code == old(rc).code,
                rc.reader == old(rc).reader,
                mc == old(model).min_context,
                n == u16_at(old(model).mem@, mc as int),
                sts == u32_at(old(model).mem@, wadd(mc, 4) as int),
                summ == u16_at(old(model).mem@, wadd(mc, 2) as int),
                hi_cnt == threshold_of(old(rc).range, old(rc).code, summ),
                count == count_after(old(model).mem@, sts, hi_cnt, i as int),
                first_hit(old(model).mem@, sts, hi_cnt, n as int, 0) == first_hit(
                    old(model).mem@,
                    sts,
                    hi_cnt,
                    n as int,
                    i as int,
                ),
            decreases n - i,
        {
            let s = state_at(sts, i);
            let f = freq(&model.mem, s);
            count = count.wrapping_sub(f);
            proof {
                assert(count == count_after(old(model).mem@, sts, hi_cnt, i + 1));
            }
            if count >= 0x8000_0000 {
                proof {
                    let m = old(model).mem@;
                    lemma_count_after_sum(m, sts, hi_cnt, i + 1);
                    let c = cum_freq(m, sts, i as int);
                    assert(cum_freq(m, sts, i + 1) == wadd(c, state_freq(m, sts, i as int)));
                    assert(f == state_freq(m, sts, i as int));
                    assert(crate::range8::wsub(crate::range8::wsub(hi_cnt, count), f) == c);
                }
                rc.decode(hi_cnt.wrapping_sub(count).wrapping_sub(f), f, summ);
                let ghost before = rc.reader.pending();
                rc.normalize(2);
                proof {
                    if R::models_pending() {
                        lemma_drops_front_trans(old(rc).reader.pending(), before, rc.reader.pending());
                    }
                }
                model.found_state = s;
                let sym = symbol(&model.mem, s) as i32;
                model.update1();
                return sym;
            }
            i = i + 1;
        }
        if hi_cnt >= summ {
            return SYM_ERROR;
        }
        let start = hi_cnt.wrapping_sub(count);
        rc.decode(start, summ.wrapping_sub(start), summ);
        model.hi_bits_flag = symbol_flag_exec(symbol(&model.mem, model.found_state) as u8) as u32;
        mask_context7(model, &mut mask, mc);
    } else {
        let one = one_state(mc);
        let pi = model.bin_summ_index(mc);
        let pr0 = model.bs_get(pi) as u32;
        let size0 = (rc.range >> 14u32).wrapping_mul(pr0);
        let pr = ppmd_update_prob_1(pr0);
        if rc.code < size0 {
            model.bs_set(pi, (pr + 128) as u16);
            rc.decode_bit_0(size0);
            let ghost before = rc.reader.pending();
            rc.normalize(1);
            proof {
                if R::models_pending() {
                    lemma_drops_front_trans(old(rc).reader.pending(), before, rc.reader.pending());
                }
            }
            let f = freq(&model.mem, one);
            let c = successor(&model.mem, one);
            let sym = symbol(&model.mem, one) as i32;
            model.found_state = one;
            model.prev_success = 1;
            model.run_length = model.run_length.wrapping_add(1);
            set_freq(&mut model.mem, one, if f < 128 { f + 1 } else { f });
            if model.order_fall == 0 && c > model.text {
                model.min_context = c;
                model.max_context = c;
            } else {
                model.update_model();
            }
            return sym;
        }
        model.bs_set(pi, pr as u16);
        model.init_esc = exp_escape(pr >> 10u32);
        rc.decode_bit_1(size0);
        let sym = symbol(&model.mem, one);
        mask_out(&mut mask, sym);
        model.prev_success = 0;
    }
    let bound = model.walk_bound();
    let ghost mut dmin: nat = 0;
    let mut rounds: u32 = 0;
    while rounds < bound
        invariant
            model.wf(),
            model.same_params(*old(model)),
            R::models_pending() ==> drops_front(old(rc).reader.pending(), rc.reader.pending()),
            mask@.len() == 256,
            first_stage7(*old(model), old(rc).range, old(rc).code) is None,
            !first_stage_overflow7(*old(model), old(rc).range, old(rc).code),
            model.mem == old(model).mem,
            suffix_walk(old(model).mem@, old(model).min_context, dmin) == model.min_context,
        decreases bound - rounds,
    {
        rounds = rounds + 1;
        let ghost before = rc.reader.pending();
        rc.normalize(2);
        proof {
            if R::models_pending() {
                lemma_drops_front_trans(old(rc).reader.pending(), before, rc.reader.pending());
            }
        }
        let mut mc = model.min_context;
        let num_masked = num_stats7(&model.mem, mc);
        let mut steps: u32 = 0;
        let ghost mut d: nat = dmin;
        loop
            invariant_except_break
                steps < bound,
            invariant
                model.wf(),
                model.same_params(*old(model)),
                R::models_pending() ==> drops_front(old(rc).reader.pending(), rc.reader.pending()),
                mask@.len() == 256,
                first_stage7(*old(model), old(rc).range, old(rc).code) is None,
                !first_stage_overflow7(*old(model), old(rc).range, old(rc).code),
                model.mem == old(model).mem,
                suffix_walk(old(model).mem@, old(model).min_context, d) == mc,
            decreases bound - steps,
        {
            model.order_fall = model.order_fall.wrapping_add(1);
            if suffix(&model.mem, mc) == 0 {
                proof {
                    assert(u32_at(old(model).mem@, wadd(suffix_walk(old(model).mem@, old(model).min_context, d), 8) as int)
                        == 0);
                }
                return SYM_END;
            }
            mc = suffix(&model.mem, mc);
            proof {
                d = d + 1;
            }
            steps = steps + 1;
            if num_stats7(&model.mem, mc) != num_masked || steps >= bound {
                break;
            }
        }
        let hi_cnt = masked_sum7(model, &mask, mc, 0);
        model.min_context = mc;
        proof {
            dmin = d;
        }
        let (see, esc_freq) = model.make_esc_freq(num_masked);
        let freq_sum = esc_freq.wrapping_add(hi_cnt);
        let mut count = rc.get_threshold(freq_sum);
        if count < hi_cnt {
            let thr = count;
            let sts = stats(&model.mem, mc);
            let n = num_stats7(&model.mem, mc);
            let mut k: u32 = 0;
            let mut s = sts;
            while k < n
                invariant
                    model.wf(),
                    model.same_params(*old(model)),
                    R::models_pending() ==> drops_front(old(rc).reader.pending(), rc.reader.pending()),
                    mask@.len() == 256,
                    first_stage7(*old(model), old(rc).range, old(rc).code) is None,
                    !first_stage_overflow7(*old(model), old(rc).range, old(rc).code),
                decreases n - k,
            {
                s = state_at(sts, k);
                count = count.wrapping_sub(freq(&model.mem, s) & mask_of(&mask, symbol(&model.mem, s)));
                k = k + 1;
                if count >= 0x8000_0000 {
                    break;
                }
            }
            let f = freq(&model.mem, s);
            rc.decode(thr.wrapping_sub(count).wrapping_sub(f), f, freq_sum);
            let ghost before = rc.reader.pending();
            rc.normalize(2);
            proof {
                if R::models_pending() {
                    lemma_drops_front_trans(old(rc).reader.pending(), before, rc.reader.pending());
                }
            }
            model.see_hit(see);
            model.found_state = s;
            let sym = symbol(&model.mem, s) as i32;
            model.update2();
            return sym;
        }
        if count >= freq_sum {
            return SYM_ERROR;
        }
        rc.decode(hi_cnt, freq_sum.wrapping_sub(hi_cnt), freq_sum);
        model.see_escape(see, freq_sum);
        let mc2 = model.min_context;
        mask_context7(model, &mut mask, mc2);
    }
    SYM_ERROR
}

/// Encodes `symbol_in`: a byte value, or `SYM_END` for the end marker.
pub(crate) fn encode_symbol7<W: ByteSink>(model: &mut Ppmd7, rc: &mut RangeEncoder7<W>, symbol_in: i32) -> (r:
    Result<(), Error>)
    requires
        old(model).wf(),
    ensures
        final(model).wf(),
        final(model).same_params(*old(model)),
        W::models_written() ==> (r is Ok ==> extends(
            old(rc).writer.written(),
            final(rc).writer.written(),
        )),
        r matches Err(e) ==> e == Error::IoError,
        W::accepts_all() ==> r is Ok,
        first_share7(*old(model), symbol_in as int) matches Some(share) ==> (r is Ok ==> ({
            let c = coded_share7(old(rc).low, old(rc).range, old(rc).cache, old(rc).cache_size, share, 2);
            &&& (final(rc).low, final(rc).range, final(rc).cache, final(rc).cache_size) == (c.0, c.1, c.2, c.3)
            &&& W::models_written() ==> final(rc).writer.written() == old(rc).writer.written() + c.4
        })),
        first_bit7(*old(model), old(rc).range, symbol_in as int) matches Some(bound) ==> (r is Ok ==> ({
            let c = normalized_encoder7(old(rc).low, bound, old(rc).cache, old(rc).cache_size, 1);
            &&& (final(rc).low, final(rc).range, final(rc).cache, final(rc).cache_size) == (c.0, c.1, c.2, c.3)
            &&& W::models_written() ==> final(rc).writer.written() == old(rc).writer.written() + c.4
        })),
{
    broadcast use lemma_extends_trans, lemma_extends_refl;

    let mut mask = full_mask();
    let mc = model.min_context;
    if num_stats7(&model.mem, mc) != 1 {
        let sts = stats(&model.mem, mc);
        let summ = summ_freq(&model.mem, mc);
        proof {
            assert(wmul(0u32, 6) == 0);
            assert(wadd(sts, 0) == sts);
            assert(cum_freq(model.mem@, sts, 0) == 0);
            assert(wadd(0, state_freq(model.mem@, sts, 0)) == state_freq(model.mem@, sts, 0));
        }
        if symbol(&model.mem, sts) as i32 == symbol_in {
            rc.encode(0, freq(&model.mem, sts), summ);
            let ghost before = rc.writer.written();
            rc.normalize(2)?;
            proof {
                if W::models_written() {
                    lemma_extends_trans(old(rc).writer.written(), before, rc.writer.written());
                }
            }
            model.found_state = sts;
            model.update1_0();
            return Ok(());
        }
        model.prev_success = 0;
        let mut sum = freq(&model.mem, sts);
        let n = num_stats7(&model.mem, mc);
        let mut i: u32 = 1;
        while i < n
            invariant
                model.wf(),
                model.same_params(*old(model)),
                W::models_written() ==> extends(old(rc).writer.written(), rc.writer.written()),
                i >= 1,
                i <= n || n == 0,
                model.mem == old(model).mem,
                model.min_context == old(model).min_context,
                *rc == *old(rc),
                mc == old(model).min_context,
                n == u16_at(old(model).mem@, mc as int),
                sts == u32_at(old(model).mem@, wadd(mc, 4) as int),
                summ == u16_at(old(model).mem@, wadd(mc, 2) as int),
                sum == cum_freq(old(model).mem@, sts, i as int),
                first_with(old(model).mem@, sts, symbol_in as int, n as int, 0) == first_with(
                    old(model).mem@,
                    sts,
                    symbol_in as int,
                    n as int,
                    i as int,
                ),
            decreases n - i,
        {
            let s = state_at(sts, i);
            if symbol(&model.mem, s) as i32 == symbol_in {
                rc.encode(sum, freq(&model.mem, s), summ);
                let ghost before = rc.writer.written();
                rc.normalize(2)?;
                proof {
                    if W::models_written() {
                        lemma_extends_trans(old(rc).writer.written(), before, rc.writer.written());
                    }
                }
                model.found_state = s;
                model.update1();
                return Ok(());
            }
            sum = sum.wrapping_add(freq(&model.mem, s));
            i = i + 1;
        }
        rc.encode(sum, summ.wrapping_sub(sum), summ);
        model.hi_bits_flag = symbol_flag_exec(symbol(&model.mem, model.found_state) as u8) as u32;
        mask_context7(model, &mut mask, mc);
    } else {
        let one = one_state(mc);
        let pi = model.bin_summ_index(mc);
        let pr0 = model.bs_get(pi) as u32;
        let bound = (rc.range >> 14u32).wrapping_mul(pr0);
        let pr = ppmd_update_prob_1(pr0);
        if symbol(&model.mem, one) as i32 == symbol_in {
            model.bs_set(pi, (pr + 128) as u16);
            rc.encode_bit_0(bound);
            let ghost before = rc.writer.written();
            rc.normalize(1)?;
            proof {
                if W::models_written() {
                    lemma_extends_trans(old(rc).writer.written(), before, rc.writer.written());
                }
            }
            let f = freq(&model.mem, one);
            let c = successor(&model.mem, one);
            model.found_state = one;
            model.prev_success = 1;
            model.run_length = model.run_length.wrapping_add(1);
            set_freq(&mut model.mem, one, if f < 128 { f + 1 } else { f });
            if model.order_fall == 0 && c > model.text {
                model.min_context = c;
                model.max_context = c;
            } else {
                model.update_model();
            }
            return Ok(());
        }
        model.bs_set(pi, pr as u16);
        model.init_esc = exp_escape(pr >> 10u32);
        rc.encode_bit_1(bound);
        let sym = symbol(&model.mem, one);
        mask_out(&mut mask, sym);
        model.prev_success = 0;
    }
    let walk = model.walk_bound();
    let mut rounds: u32 = 0;
    while rounds < walk
        invariant
            model.wf(),
            model.same_params(*old(model)),
            W::models_written() ==> extends(old(rc).writer.written(), rc.writer.written()),
            mask@.len() == 256,
            first_share7(*old(model), symbol_in as int) is None,
            first_bit7(*old(model), old(rc).range, symbol_in as int) is None,
        decreases walk - rounds,
    {
        rounds = rounds + 1;
        let ghost before = rc.writer.written();
        rc.normalize(2)?;
        proof {
            if W::models_written() {
                lemma_extends_trans(old(rc).writer.written(), before, rc.writer.written());
            }
        }
        let mut mc = model.min_context;
        let num_masked = num_stats7(&model.mem, mc);
        let mut steps: u32 = 0;
        loop
            invariant_except_break
                steps < walk,
            invariant
                model.wf(),
                model.same_params(*old(model)),
                W::models_written() ==> extends(old(rc).writer.written(), rc.writer.written()),
                mask@.len() == 256,
                first_share7(*old(model), symbol_in as int) is None,
                first_bit7(*old(model), old(rc).range, symbol_in as int) is None,
            decreases walk - steps,
        {
            model.order_fall = model.order_fall.wrapping_add(1);
            if suffix(&model.mem, mc) == 0 {
                return Ok(());
            }
            mc = suffix(&model.mem, mc);
            steps = steps + 1;
            if num_stats7(&model.mem, mc) != num_masked || steps >= walk {
                break;
            }
        }
        model.min_context = mc;
        let (see, esc_freq) = model.make_esc_freq(num_masked);
        let sts = stats(&model.mem, mc);
        let n = num_stats7(&model.mem, mc);
        let mut sum: u32 = 0;
        let mut i: u32 = 0;
        while i < n
            invariant
                model.wf(),
                model.same_params(*old(model)),
                W::models_written() ==> extends(old(rc).writer.written(), rc.writer.written()),
                mask@.len() == 256,
                first_share7(*old(model), symbol_in as int) is None,
                first_bit7(*old(model), old(rc).range, symbol_in as int) is None,
            decreases n - i,
        {
            let s = state_at(sts, i);
            let cur = symbol(&model.mem, s);
            if cur as i32 == symbol_in {
                let low = sum;
                let f = freq(&model.mem, s);
                model.see_hit(see);
                model.found_state = s;
                let rest = masked_sum7(model, &mask, mc, i);
                let total = sum.wrapping_add(esc_freq).wrapping_add(rest);
                rc.encode(low, f, total);
                let ghost before = rc.writer.written();
                rc.normalize(2)?;
                proof {
                    if W::models_written() {
                        lemma_extends_trans(old(rc).writer.written(), before, rc.writer.written());
                    }
                }
                model.update2();
                return Ok(());
            }
            sum = sum.wrapping_add(freq(&model.mem, s) & mask_of(&mask, cur));
            i = i + 1;
        }
        let total = sum.wrapping_add(esc_freq);
        model.see_escape(see, total);
        rc.encode(sum, esc_freq, total);
        let mc2 = model.min_context;
        mask_context7(model, &mut mask, mc2);
    }
    Ok(())
}

/// Whether the PPMd7 coders accept the parameters: the order and the memory
/// size within their bounds.
pub open spec fn valid_ppmd7_params(order: u32, mem_size: u32) -> bool {
    &&& PPMD7_MIN_ORDER <= order <= PPMD7_MAX_ORDER
    &&& PPMD7_MIN_MEM_SIZE <= mem_size <= PPMD7_MAX_MEM_SIZE
}

/// A decoder of PPMd7 (PPMdH) data coded with the 7z range coder.
pub struct Ppmd7Decoder<R: ByteSource> {
    model: Ppmd7,
    rc: RangeDecoder7<R>,
    finished: bool,
}

impl<R: ByteSource> Ppmd7Decoder<R> {
    /// The model is well formed.
    pub closed spec fn wf(&self) -> bool {
        self.model.wf()
    }

    /// The end of the data (or corrupt data) was met.
    pub closed spec fn is_finished(&self) -> bool {
        self.finished
    }

    /// The model is in its initial state: a single context of order 0 that
    /// holds every symbol once, the initial scalar state and free lists, and
    /// the initial probability and SEE tables.
    pub closed spec fn is_fresh(&self) -> bool {
        &&& self.model.is_initial()
        &&& self.model.mem@.len() == self.model.align_offset + self.model.size
        &&& self.model.align_offset <= 3
    }

    /// The model order of the decoder.
    pub closed spec fn order(&self) -> u32 {
        self.model.max_order
    }

    /// The model memory size of the decoder.
    pub closed spec fn mem_size(&self) -> u32 {
        self.model.size
    }

    /// The probabilities of the binary contexts of the model.
    pub closed spec fn binary_probabilities(&self) -> Seq<u16> {
        self.model.bin_summ@
    }

    /// Every binary-context probability of a well-formed decoder lies strictly
    /// inside the binary scale. `new` makes the decoder well formed and every
    /// operation keeps it so, hence this holds of every decoder.
    pub proof fn law_binary_probabilities_in_scale(&self)
        requires
            self.wf(),
        ensures
            bin_probs_in_scale(self.binary_probabilities()),
    {
    }

    /// The symbol that the decoder finds next in its current context, before
    /// any escape; `None` when it would escape to a shorter context.
    pub closed spec fn next_symbol(&self) -> Option<u8> {
        first_stage7(self.model, self.rc.range, self.rc.code)
    }

    /// The window width of the decoder's range coder.
    pub closed spec fn window(&self) -> u32 {
        self.rc.range
    }

    /// The code of the decoder's range coder: where the coded value lies
    /// in its window.
    pub closed spec fn code(&self) -> u32 {
        self.rc.code
    }

    /// The source that the decoder reads from.
    pub closed spec fn source(&self) -> R {
        self.rc.reader
    }

    /// A decoder over the compressed bytes of `reader`.
    ///
    /// The `order` must be between [`PPMD7_MIN_ORDER`] and
    /// [`PPMD7_MAX_ORDER`] and the `mem_size` between [`PPMD7_MIN_MEM_SIZE`]
    /// and [`PPMD7_MAX_MEM_SIZE`], else the result is `InvalidParameter`. The
    /// first five bytes start the range decoder (`RangeDecoderInitialization`
    /// when they are not a valid start); a byte that the source cannot give
    /// reads as zero, here and while decoding.
    pub fn new(reader: R, order: u32, mem_size: u32) -> (r: Result<Self, Error>)
        ensures
            (r == Err::<Self, Error>(Error::InvalidParameter)) <==> !valid_ppmd7_params(order, mem_size),
            r matches Ok(d) ==> {
                &&& d.wf()
                &&& d.is_fresh()
                &&& !d.is_finished()
                &&& d.order() == order
                &&& d.mem_size() == mem_size
            },
            r matches Err(e) ==> e == Error::InvalidParameter || e
                == Error::RangeDecoderInitialization || e == Error::MemoryAllocation,
            R::models_pending() ==> (r matches Ok(d) ==> drops_front(reader.pending(), d.source().pending())),
            R::models_pending() && R::reads_all() && reader.pending().len() >= 5 ==> (r matches Ok(d)
                ==> d.source().pending() == reader.pending().skip(5) && d.code() == be32(reader.pending().skip(1))),
            r matches Ok(d) ==> d.window() == 0xFFFF_FFFF,
            R::models_pending() && R::reads_all() ==> ({
                let pad = zero_padded(reader.pending());
                &&& (r == Err::<Self, Error>(Error::RangeDecoderInitialization) <==> valid_ppmd7_params(
                    order,
                    mem_size,
                ) && !(pad[0] == 0 && be32(pad.skip(1)) != 0xFFFF_FFFF))
                &&& r matches Ok(d) ==> d.code() == be32(pad.skip(1))
            }),
            R::models_pending() && R::reads_all() && reader.pending().len() >= 5 ==> (r
                == Err::<Self, Error>(Error::RangeDecoderInitialization) <==> valid_ppmd7_params(order, mem_size)
                && !(reader.pending()[0] == 0 && be32(reader.pending().skip(1)) != 0xFFFF_FFFF)),
    {
        if !(PPMD7_MIN_ORDER <= order && order <= PPMD7_MAX_ORDER) || !(PPMD7_MIN_MEM_SIZE
            <= mem_size && mem_size <= PPMD7_MAX_MEM_SIZE) {
            return Err(Error::InvalidParameter);
        }
        let rc = match RangeDecoder7::new(reader) {
            Ok(rc) => rc,
            Err(e) => {
                return Err(e);
            },
        };
        let model = match Ppmd7::new(order, mem_size) {
            Ok(m) => m,
            Err(e) => {
                return Err(e);
            },
        };
        Ok(Ppmd7Decoder { model, rc, finished: false })
    }

    /// Decodes up to `buf.len()` bytes into `buf` and gives their number.
    ///
    /// Decoding stops early at the end marker; once it was met (or the data
    /// was found corrupt) every further call gives `Ok(0)`. Data that no
    /// encoder produced gives `InvalidData`.
    pub fn read(&mut self, buf: &mut [u8]) -> (r: Result<usize, Error>)
        requires
            old(self).wf(),
        ensures
            final(self).wf(),
            final(self).order() == old(self).order(),
            final(self).mem_size() == old(self).mem_size(),
            final(buf)@.len() == old(buf)@.len(),
            old(self).is_finished() ==> r == Ok::<usize, Error>(0) && *final(self) == *old(self),
            !old(self).is_finished() && old(buf)@.len() == 0 ==> r == Ok::<usize, Error>(0)
                && *final(self) == *old(self),
            r matches Ok(n) ==> n <= old(buf)@.len(),
            r matches Ok(n) ==> (n < old(buf)@.len() && !old(self).is_finished())
                ==> final(self).is_finished() && final(self).code() == 0,
            r matches Ok(n) ==> forall|j: int|
                n <= j < old(buf)@.len() ==> #[trigger] final(buf)@[j] == old(buf)@[j],
            r == Err::<usize, Error>(Error::InvalidData) ==> final(self).is_finished(),
            r matches Err(e) ==> e == Error::InvalidData,
            R::models_pending() ==> drops_front(old(self).source().pending(), final(self).source().pending()),
            !old(self).is_finished() && old(buf)@.len() > 0 ==> (old(self).next_symbol() matches Some(s)
                ==> final(buf)@[0] == s && (r matches Ok(n) ==> n >= 1)),
    {
        broadcast use lemma_drops_front_refl;
        if self.finished {
            return Ok(0);
        }
        if buf.len() == 0 {
            return Ok(0);
        }
        let mut sym: i32 = 0;
        let mut decoded: usize = 0;
        while decoded < buf.len()
            invariant_except_break
                sym >= 0,
                decoded == 0 ==> self.model == old(self).model && self.rc.range == old(self).rc.range
                    && self.rc.code == old(self).rc.code,
            invariant
                self.model.wf(),
                self.model.same_params(old(self).model),
                !self.finished,
                !old(self).finished,
                buf@.len() == old(buf)@.len(),
                decoded <= buf@.len(),
                forall|j: int| decoded <= j < buf@.len() ==> #[trigger] buf@[j] == old(buf)@[j],
                R::models_pending() ==> drops_front(
                    old(self).rc.reader.pending(),
                    self.rc.reader.pending(),
                ),
                old(self).next_symbol() matches Some(s) ==> (decoded >= 1 ==> buf@[0] == s),
                buf@.len() > 0,
            ensures
                sym >= 0 ==> decoded == buf@.len(),
                old(self).next_symbol() matches Some(s) ==> (decoded >= 1 && buf@[0] == s),
            decreases buf@.len() - decoded,
        {
            let ghost before = self.rc.reader.pending();
            let d = decode_symbol7(&mut self.model, &mut self.rc);
            proof {
                if R::models_pending() {
                    lemma_drops_front_trans(
                        old(self).rc.reader.pending(),
                        before,
                        self.rc.reader.pending(),
                    );
                }
            }
            sym = d;
            if sym < 0 {
                break;
            }
            buf[decoded] = sym as u8;
            decoded = decoded + 1;
        }
        let code = self.rc.code;
        if sym >= 0 {
            return Ok(decoded);
        }
        self.finished = true;
        if sym != SYM_END || code != 0 {
            return Err(Error::InvalidData);
        }
        Ok(decoded)
    }

    /// The size in bytes of the model memory that the decoder allocated.
    pub fn memory_size(&self) -> (r: u32)
        ensures
            r == self.mem_size(),
    {
        self.model.memory_size()
    }

    /// Gives up the decoder and returns its source.
    pub fn into_inner(self) -> (r: R)
        ensures
            r == self.source(),
    {
        self.rc.reader
    }
}

/// An encoder that compresses data with PPMd7 (PPMdH) and the 7z range coder.
pub struct Ppmd7Encoder<W: ByteSink> {
    model: Ppmd7,
    rc: RangeEncoder7<W>,
}

impl<W: ByteSink> Ppmd7Encoder<W> {
    /// The model is well formed.
    pub closed spec fn wf(&self) -> bool {
        self.model.wf()
    }

    /// The model is in its initial state: a single context of order 0 that
    /// holds every symbol once, the initial scalar state and free lists, and
    /// the initial probability and SEE tables.
    pub closed spec fn is_fresh(&self) -> bool {
        &&& self.model.is_initial()
        &&& self.model.mem@.len() == self.model.align_offset + self.model.size
        &&& self.model.align_offset <= 3
    }

    /// The model order of the encoder.
    pub closed spec fn order(&self) -> u32 {
        self.model.max_order
    }

    /// The model memory size of the encoder.
    pub closed spec fn mem_size(&self) -> u32 {
        self.model.size
    }

    /// The probabilities of the binary contexts of the model.
    pub closed spec fn binary_probabilities(&self) -> Seq<u16> {
        self.model.bin_summ@
    }

    /// Every binary-context probability of a well-formed encoder lies strictly
    /// inside the binary scale. `new` makes the encoder well formed and every
    /// operation keeps it so, hence this holds of every encoder.
    pub proof fn law_binary_probabilities_in_scale(&self)
        requires
            self.wf(),
        ensures
            bin_probs_in_scale(self.binary_probabilities()),
    {
    }

    /// The range coder is at its start: the full window, nothing held back.
    pub closed spec fn at_start(&self) -> bool {
        &&& self.rc.low == 0
        &&& self.rc.range == 0xFFFF_FFFF
        &&& self.rc.cache == 0
        &&& self.rc.cache_size == 1
    }

    /// Everything that the encoder writes when it codes `sym` as its next
    /// symbol in its current context and then is flushed; `None` when coding
    /// `sym` there takes an escape or the context is binary.
    pub closed spec fn first_output(&self, sym: u8) -> Option<Seq<u8>> {
        match first_share7(self.model, sym as int) {
            Some(share) => {
                let c = coded_share7(self.rc.low, self.rc.range, self.rc.cache, self.rc.cache_size, share, 2);
                Some(c.4 + flushed_bytes7(c.0, c.2, c.3, 5))
            },
            None => None,
        }
    }

    /// The bytes that the encoder writes while it codes `sym` as its next
    /// symbol in its current context; `None` when coding `sym` there takes
    /// an escape.
    pub closed spec fn first_coding(&self, sym: u8) -> Option<Seq<u8>> {
        match first_share7(self.model, sym as int) {
            Some(share) => Some(
                coded_share7(self.rc.low, self.rc.range, self.rc.cache, self.rc.cache_size, share, 2).4,
            ),
            None => match first_bit7(self.model, self.rc.range, sym as int) {
                Some(bound) => Some(normalized_encoder7(self.rc.low, bound, self.rc.cache, self.rc.cache_size, 1).4),
                None => None,
            },
        }
    }

    /// The sink that the encoder writes to.
    pub closed spec fn sink(&self) -> W {
        self.rc.writer
    }

    /// The bytes that a flush writes out from the coder's current window
    /// (the window's bottom, with any bytes held back for a carry).
    pub closed spec fn flush_output(&self) -> Seq<u8> {
        crate::range7::flushed_bytes7(self.rc.low, self.rc.cache, self.rc.cache_size, 5)
    }

    /// An encoder that writes the compressed data to `writer`.
    ///
    /// The `order` must be between [`PPMD7_MIN_ORDER`] and
    /// [`PPMD7_MAX_ORDER`] and the `mem_size` between [`PPMD7_MIN_MEM_SIZE`]
    /// and [`PPMD7_MAX_MEM_SIZE`], else the result is `InvalidParameter`.
    pub fn new(writer: W, order: u32, mem_size: u32) -> (r: Result<Self, Error>)
        ensures
            (r == Err::<Self, Error>(Error::InvalidParameter)) <==> !valid_ppmd7_params(order, mem_size),
            r matches Ok(e) ==> {
                &&& e.wf()
                &&& e.is_fresh()
                &&& e.at_start()
                &&& e.order() == order
                &&& e.mem_size() == mem_size
                &&& e.sink() == writer
            },
            r matches Err(e) ==> e == Error::InvalidParameter || e == Error::MemoryAllocation,
    {
        if !(PPMD7_MIN_ORDER <= order && order <= PPMD7_MAX_ORDER) || !(PPMD7_MIN_MEM_SIZE
            <= mem_size && mem_size <= PPMD7_MAX_MEM_SIZE) {
            return Err(Error::InvalidParameter);
        }
        let model = match Ppmd7::new(order, mem_size) {
            Ok(m) => m,
            Err(e) => {
                return Err(e);
            },
        };
        Ok(Ppmd7Encoder { model, rc: RangeEncoder7::new(writer) })
    }

    /// Compresses the bytes of `buf` and gives their number.
    pub fn write(&mut self, buf: &[u8]) -> (r: Result<usize, Error>)
        requires
            old(self).wf(),
        ensures
            final(self).wf(),
            final(self).order() == old(self).order(),
            final(self).mem_size() == old(self).mem_size(),
            r matches Ok(n) ==> n == buf@.len(),
            buf@.len() == 0 ==> r == Ok::<usize, Error>(0),
            W::models_written() ==> (r is Ok ==> extends(
                old(self).sink().written(),
                final(self).sink().written(),
            )),
            r matches Err(e) ==> e == Error::IoError,
            W::accepts_all() ==> r is Ok,
            W::models_written() && buf@.len() > 0 ==> (old(self).first_coding(buf@[0]) matches Some(bytes)
                ==> (r is Ok ==> extends(old(self).sink().written() + bytes, final(self).sink().written()))),
            W::models_written() && buf@.len() == 1 ==> (old(self).first_output(buf@[0]) matches Some(out) ==> (r is Ok
                ==> final(self).sink().written() + final(self).flush_output() == old(self).sink().written() + out)),
    {
        broadcast use lemma_extends_refl;
        if buf.len() == 0 {
            return Ok(0);
        }
        let mut i: usize = 0;
        while i < buf.len()
            invariant
                self.model.wf(),
                self.model.same_params(old(self).model),
                W::models_written() ==> extends(old(self).rc.writer.written(), self.rc.writer.written()),
                i <= buf@.len(),
                i == 0 ==> self.model == old(self).model && self.rc == old(self).rc,
                W::models_written() && i == 1 ==> (first_share7(old(self).model, buf@[0] as int) matches Some(share)
                    ==> ({
                    let c = coded_share7(
                        old(self).rc.low,
                        old(self).rc.range,
                        old(self).rc.cache,
                        old(self).rc.cache_size,
                        share,
                        2,
                    );
                    &&& (self.rc.low, self.rc.range, self.rc.cache, self.rc.cache_size) == (c.0, c.1, c.2, c.3)
                    &&& self.rc.writer.written() == old(self).rc.writer.written() + c.4
                })),
                W::models_written() && i >= 1 ==> (old(self).first_coding(buf@[0]) matches Some(bytes) ==> extends(
                    old(self).rc.writer.written() + bytes,
                    self.rc.writer.written(),
                )),
            decreases buf@.len() - i,
        {
            let ghost before = self.rc.writer.written();
            encode_symbol7(&mut self.model, &mut self.rc, buf[i] as i32)?;
            proof {
                if W::models_written() {
                    lemma_extends_trans(old(self).rc.writer.written(), before, self.rc.writer.written());
                    if i >= 1 {
                        match old(self).first_coding(buf@[0]) {
                            Some(bytes) => {
                                lemma_extends_trans(
                                    old(self).rc.writer.written() + bytes,
                                    before,
                                    self.rc.writer.written(),
                                );
                            },
                            None => {},
                        }
                    } else {
                        lemma_extends_refl(self.rc.writer.written());
                        match first_share7(old(self).model, buf@[0] as int) {
                            Some(share) => {
                                let c = coded_share7(
                                    old(self).rc.low,
                                    old(self).rc.range,
                                    old(self).rc.cache,
                                    old(self).rc.cache_size,
                                    share,
                                    2,
                                );
                                assert(old(self).rc.writer.written() + c.4 + flushed_bytes7(c.0, c.2, c.3, 5)
                                    =~= old(self).rc.writer.written() + (c.4 + flushed_bytes7(c.0, c.2, c.3, 5)));
                            },
                            None => {},
                        }
                    }
                }
            }
            i = i + 1;
        }
        Ok(buf.len())
    }

    /// Writes out the pending bytes of the range coder and flushes the
    /// writer; the data written so far can then be decoded.
    pub fn flush(&mut self) -> (r: Result<(), Error>)
        requires
            old(self).wf(),
        ensures
            final(self).wf(),
            final(self).order() == old(self).order(),
            final(self).mem_size() == old(self).mem_size(),
            W::models_written() ==> (r is Ok ==> extends(
                old(self).sink().written(),
                final(self).sink().written(),
            )),
            W::models_written() ==> (r is Ok ==> final(self).sink().written() == old(self).sink().written()
                + old(self).flush_output()),
            r matches Err(e) ==> e == Error::IoError,
            W::accepts_all() ==> r is Ok,
    {
        self.rc.flush()
    }

    /// Finishes the data, with an end marker when `with_end_marker` is set,
    /// flushes, and gives back the writer.
    pub fn finish(self, with_end_marker: bool) -> (r: Result<W, Error>)
        requires
            self.wf(),
        ensures
            W::models_written() ==> (r matches Ok(w) ==> extends(self.sink().written(), w.written())),
            W::models_written() && !with_end_marker ==> (r matches Ok(w) ==> w.written() == self.sink().written()
                + self.flush_output()),
            r matches Err(e) ==> e == Error::IoError,
            W::accepts_all() ==> r is Ok,
    {
        broadcast use lemma_extends_refl;
        let mut enc = self;
        if with_end_marker {
            encode_symbol7(&mut enc.model, &mut enc.rc, SYM_END)?;
        }
        let ghost before = enc.rc.writer.written();
        enc.flush()?;
        proof {
            if W::models_written() {
                lemma_extends_trans(self.rc.writer.written(), before, enc.rc.writer.written());
            }
        }
        Ok(enc.into_inner())
    }

    /// The size in bytes of the model memory that the encoder allocated.
    pub fn memory_size(&self) -> (r: u32)
        ensures
            r == self.mem_size(),
    {
        self.model.memory_size()
    }

    /// Gives up the encoder and returns its writer.
    pub fn into_inner(self) -> (r: W)
        ensures
            r == self.sink(),
    {
        self.rc.writer
    }
}

} // verus!
