//! Symbol coding with the PPMd8 model, and the PPMd8 encoder and decoder.
use crate::byte_io::{
    drops_front, extends, lemma_drops_front_refl, lemma_drops_front_trans, lemma_extends_refl,
    lemma_extends_trans, ByteSink, ByteSource,
};
use crate::arena::{byte_at, u16_at, u32_at};
use crate::coder7::{
    cum_freq, reaches_root, suffix_walk, first_hit, first_with, lemma_first_hit, lemma_first_with, state_freq, state_symbol, threshold_of,
};
use crate::model8::{
    bin_probs_in_scale, exp_escape, flags, freq, num_stats, one_state, set_freq, state_at, stats, successor, suffix,
    summ_freq, symbol, root_context8, Ppmd8,
};
use crate::model7::{initial_state_at, root_fits};
use crate::units::UNIT_SIZE;
use crate::prob::{ppmd_update_prob_1, PPMD_BIN_SCALE};
use crate::range8::{
    encoder_output, encoder_run, flushed_bytes, narrowed, shares_fit,
    be32, coded_window, corrected_sum, normalized_window, shifted_out_bytes, unit_width, wadd, wmul, RangeDecoder,
    RangeEncoder, MAX_NORMALIZE_SHIFTS,
};
use crate::{Error, RestoreMethod, PPMD8_MAX_MEM_SIZE, PPMD8_MAX_ORDER, PPMD8_MIN_MEM_SIZE, PPMD8_MIN_ORDER, SYM_END, SYM_ERROR};
use vstd::prelude::*;

verus! {

/// A mask over the 256 symbols: `0xFF` for a symbol still in play, `0` for
/// one that an escape ruled out.
pub(crate) fn full_mask() -> (r: Vec<u8>)
    ensures
        r@.len() == 256,
{
    let mut m: Vec<u8> = Vec::new();
    let mut i: u32 = 0;
    while i < 256
        invariant
            i <= 256,
            m@.len() == i,
        decreases 256 - i,
    {
        m.push(0xFF);
        i = i + 1;
    }
    m
}

/// `mask[sym]` for the symbol held in an arena byte.
pub(crate) fn mask_of(mask: &Vec<u8>, sym: u32) -> (r: u32)
    requires
        mask@.len() == 256,
    ensures
        r == (if sym < 256 {
            mask@[sym as int] as u32
        } else {
            0u32
        }),
        r < 256,
{
    if sym < 256 {
        mask[sym as usize] as u32
    } else {
        0
    }
}

/// Rules the symbol `sym` out of the mask.
pub(crate) fn mask_out(mask: &mut Vec<u8>, sym: u32)
    ensures
        final(mask)@ == (if (sym as int) < old(mask)@.len() {
            old(mask)@.update(sym as int, 0u8)
        } else {
            old(mask)@
        }),
{
    if (sym as usize) < mask.len() {
        mask.set(sym as usize, 0);
    }
}

/// Whether `k` is the symbol of one of the first `count` states of the
/// symbol list at `sts`.
pub(crate) open spec fn listed_symbol(mem: Seq<u8>, sts: u32, count: int, k: int) -> bool {
    exists|i: u32| i < count && #[trigger] byte_at(mem, wadd(sts, wmul(i, 6)) as int) == k
}

/// Rules out every symbol of the context `mc`.
fn mask_context(model: &Ppmd8, mask: &mut Vec<u8>, mc: u32)
    requires
        old(mask)@.len() == 256,
    ensures
        final(mask)@.len() == 256,
        forall|k: int|
            0 <= k < 256 ==> #[trigger] final(mask)@[k] == (if listed_symbol(
                model.mem@,
                u32_at(model.mem@, wadd(mc, 4) as int) as u32,
                byte_at(model.mem@, mc as int) + 1,
                k,
            ) {
                0u8
            } else {
                old(mask)@[k]
            }),
{
    let sts = stats(&model.mem, mc);
    let n = num_stats(&model.mem, mc);
    let mut i: u32 = 0;
    while i <= n
        invariant
            mask@.len() == 256,
            n < 256,
            i <= n + 1,
            sts == u32_at(model.mem@, wadd(mc, 4) as int),
            n == byte_at(model.mem@, mc as int),
            forall|k: int|
                0 <= k < 256 ==> #[trigger] mask@[k] == (if listed_symbol(model.mem@, sts, i as int, k) {
                    0u8
                } else {
                    old(mask)@[k]
                }),
        decreases n + 1 - i,
    {
        let sym = symbol(&model.mem, state_at(sts, i));
        mask_out(mask, sym);
        proof {
            assert forall|k: int| 0 <= k < 256 implies #[trigger] mask@[k] == (if listed_symbol(
                model.mem@,
                sts,
                i + 1,
                k,
            ) {
                0u8
            } else {
                old(mask)@[k]
            }) by {
                if k == sym {
                    assert(byte_at(model.mem@, wadd(sts, wmul(i, 6)) as int) == k);
                } else {
                    if listed_symbol(model.mem@, sts, i + 1, k) {
                        let j = choose|j: u32| j < i + 1 && #[trigger] byte_at(model.mem@, wadd(sts, wmul(j, 6)) as int) == k;
                        assert(j != i);
                        assert(listed_symbol(model.mem@, sts, i as int, k));
                    }
                }
            }
        }
        i = i + 1;
    }
}

/// The slot of the probability of the binary context `mc`: the row goes by
/// the frequency of its one symbol, the column by the last outcome, the run
/// length, the size of the suffix context and the context's flags; an
/// out-of-range pair goes to the spare slot 1600.
pub(crate) open spec fn bin_slot8(model: Ppmd8, mc: u32) -> u32 {
    let m = model.mem@;
    let fr = crate::range8::wsub(byte_at(m, wadd(wadd(mc, 2), 1) as int) as u32, 1);
    let row: u32 = if fr < 260 {
        model.ns2index@[fr as int] as u32
    } else {
        0
    };
    let ns = byte_at(m, u32_at(m, wadd(mc, 8) as int));
    let bs: u32 = if ns < 256 {
        model.ns2bs_index@[ns] as u32
    } else {
        0
    };
    let rl: u32 = if model.run_length < 0 {
        0x20
    } else {
        0
    };
    let col = wadd(wadd(wadd(model.prev_success, rl), bs), byte_at(m, wadd(mc, 1) as int) as u32);
    if row < 25 && col < 64 {
        (row * 64 + col) as u32
    } else {
        1600
    }
}

/// The index of the probability of the binary context `mc` in the table of
/// binary-context probabilities.
fn bin_summ_index(model: &Ppmd8, mc: u32) -> (r: u32)
    requires
        model.wf(),
    ensures
        r == bin_slot8(*model, mc),
{
    let one = one_state(mc);
    let row = model.ns2idx(freq(&model.mem, one).wrapping_sub(1));
    let rl: u32 = if model.run_length < 0 { 0x20 } else { 0 };
    let col = model.prev_success.wrapping_add(rl).wrapping_add(
        model.ns2bs(num_stats(&model.mem, suffix(&model.mem, mc))),
    ).wrapping_add(flags(&model.mem, mc));
    if row < 25 && col < 64 {
        row * 64 + col
    } else {
        1600
    }
}

/// The symbol that the decoder finds in the current context of `model`
/// with the window `range` and the code `code`, before any escape: in a
/// context of several symbols the state on whose cumulative frequency the
/// threshold falls (the total held to the range), in a binary context its
/// symbol when the code lies in the share of its probability. `None` when
/// the decoder escapes.
pub closed spec fn first_stage8(model: Ppmd8, range: u32, code: u32) -> Option<u8> {
    let m = model.mem@;
    let mc = model.min_context;
    let ns = byte_at(m, mc as int);
    if ns != 0 {
        let sts = u32_at(m, wadd(mc, 4) as int) as u32;
        let summ = corrected_sum(range, u16_at(m, wadd(mc, 2) as int) as u32);
        let k = first_hit(m, sts, threshold_of(range, code, summ), ns + 1, 0);
        if k < ns + 1 {
            Some(state_symbol(m, sts, k))
        } else {
            None
        }
    } else {
        let pi = bin_slot8(model, mc);
        let pr0: u32 = if pi < 1600 {
            model.bin_summ@[pi as int] as u32
        } else {
            0
        };
        if code < wmul(range >> 14u32, pr0) {
            Some(byte_at(m, wadd(mc, 2) as int) as u8)
        } else {
            None
        }
    }
}

/// The decoder's count in the current context of several symbols falls
/// past the context's total: no state and no escape holds it, so the data
/// is corrupt.
pub closed spec fn first_stage_overflow8(model: Ppmd8, range: u32, code: u32) -> bool {
    let m = model.mem@;
    let mc = model.min_context;
    let ns = byte_at(m, mc as int);
    let sts = u32_at(m, wadd(mc, 4) as int) as u32;
    let summ = corrected_sum(range, u16_at(m, wadd(mc, 2) as int) as u32);
    let thr = threshold_of(range, code, summ);
    &&& ns != 0
    &&& first_hit(m, sts, thr, ns + 1, 0) == ns + 1
    &&& thr >= summ
}

/// The window `(low, range)` and the code that the decoder narrows to when
/// it finds a symbol in the current context before any escape, from the
/// window `(low, range)` and the code `code`. `None` when the decoder escapes.
pub closed spec fn first_window8(model: Ppmd8, low: u32, range: u32, code: u32) -> Option<(u32, u32, u32)> {
    let m = model.mem@;
    let mc = model.min_context;
    let ns = byte_at(m, mc as int);
    if ns != 0 {
        let sts = u32_at(m, wadd(mc, 4) as int) as u32;
        let summ = corrected_sum(range, u16_at(m, wadd(mc, 2) as int) as u32);
        let k = first_hit(m, sts, threshold_of(range, code, summ), ns + 1, 0);
        if k < ns + 1 {
            let c = coded_window(low, range, cum_freq(m, sts, k), state_freq(m, sts, k), summ);
            Some((c.0, c.1, crate::range8::wsub(code, wmul(cum_freq(m, sts, k), unit_width(range, summ)))))
        } else {
            None
        }
    } else {
        let pi = bin_slot8(model, mc);
        let pr0: u32 = if pi < 1600 {
            model.bin_summ@[pi as int] as u32
        } else {
            0
        };
        let bound = wmul(range >> 14u32, pr0);
        if code < bound {
            Some((low, bound, code))
        } else {
            None
        }
    }
}

/// The share `(start, size, total)` with which the encoder codes `sym` in
/// the current context of `model` before any escape, with the window
/// `range`: the cumulative frequency of the states before the first that
/// holds it, its frequency, and the context's frequency sum held to the
/// range. `None` for a binary context and for a symbol that the context
/// does not hold.
pub closed spec fn first_share8(model: Ppmd8, range: u32, sym: int) -> Option<(u32, u32, u32)> {
    let m = model.mem@;
    let mc = model.min_context;
    let ns = byte_at(m, mc as int);
    if ns != 0 {
        let sts = u32_at(m, wadd(mc, 4) as int) as u32;
        let summ = corrected_sum(range, u16_at(m, wadd(mc, 2) as int) as u32);
        let k = first_with(m, sts, sym, ns + 1, 0);
        if k < ns + 1 {
            Some((cum_freq(m, sts, k), state_freq(m, sts, k), summ))
        } else {
            None
        }
    } else {
        None
    }
}

/// What the PPMd8 encoder writes for a symbol that it codes in its first
/// stage from a fresh window, a decoder with the same model finds again: a
/// decoder whose code is read from the first four bytes of coding the symbol
/// and flushing finds the symbol. The symbol's share must be a nonempty part
/// of the context's frequency sum, as in every model that the coder builds.
#[verifier::rlimit(50)]
pub proof fn law_first_symbol_round_trip8(model: Ppmd8, sym: u8)
    requires
        first_share8(model, 0xFFFF_FFFF, sym as int) matches Some(share) && 0 < share.1 && share.0 as int
            + share.1 as int <= share.2 as int,
    ensures
        match first_share8(model, 0xFFFF_FFFF, sym as int) {
            Some(share) => {
                let c = coded_share8(0, 0xFFFF_FFFF, share);
                let out = c.2 + flushed_bytes(c.0);
                let w = unit_width(0xFFFF_FFFF, share.2);
                &&& out.len() >= 4
                &&& first_stage8(model, 0xFFFF_FFFF, be32(out)) == Some(sym)
                &&& share.0 as int * w <= be32(out)
                &&& (be32(out) as int) < (share.0 as int + share.1 as int) * w
            },
            None => false,
        },
{
    let share = first_share8(model, 0xFFFF_FFFF, sym as int)->Some_0;
    let (start, size, total) = share;
    let w = unit_width(0xFFFF_FFFF, total);
    assert(w as int * total as int <= 0xFFFF_FFFF) by (nonlinear_arith)
        requires
            w == 0xFFFF_FFFFu32 / total,
            total > 0,
    ;
    assert(w >= 1) by (nonlinear_arith)
        requires
            w == 0xFFFF_FFFFu32 / total,
            total > 0,
    ;
    assert(start as int * w as int + size as int * w as int <= 0xFFFF_FFFF) by (nonlinear_arith)
        requires
            w as int * total as int <= 0xFFFF_FFFF,
            start as int + size as int <= total as int,
            w >= 0,
    ;
    assert(size as int * w as int >= 1) by (nonlinear_arith)
        requires
            size >= 1,
            w >= 1,
    ;
    assert(start as int * w as int >= 0) by (nonlinear_arith)
        requires
            w >= 0,
    ;
    let off = wmul(start, w);
    let width = wmul(size, w);
    assert(off as int == start as int * w as int);
    assert(width as int == size as int * w as int);
    let shares: Seq<(u32, u32)> = seq![(off, width)];
    assert(shares.skip(1) =~= Seq::<(u32, u32)>::empty());
    assert(shares[0] == (off, width));
    let (l1, r1) = narrowed(0, shares[0]);
    let nw = normalized_window(l1, r1, MAX_NORMALIZE_SHIFTS as nat);
    assert(shares_fit(nw.0, nw.1, shares.skip(1)));
    assert(shares_fit(0, 0xFFFF_FFFF, shares));
    let c = coded_share8(0, 0xFFFF_FFFF, share);
    assert(coded_window(0, 0xFFFF_FFFF, start, size, total) == (l1, r1));
    assert(encoder_run(nw.0, nw.1, shares.skip(1)) == (nw.0, nw.1, Seq::<u8>::empty()));
    assert(encoder_run(0, 0xFFFF_FFFF, shares) == (nw.0, nw.1, c.2 + Seq::<u8>::empty()));
    assert(c.2 + Seq::<u8>::empty() =~= c.2);
    assert(encoder_output(shares) =~= c.2 + flushed_bytes(c.0));
    crate::laws::law_range_coder_round_trip(shares);
    let out = encoder_output(shares);
    let code = be32(out);
    assert(off <= code && (code as int) < off as int + width as int);
    assert((start as int + size as int) * w as int == start as int * w as int + size as int * w as int) by (nonlinear_arith);
    law_first_stage_finds_symbol8(model, sym, 0xFFFF_FFFF, code);
}

/// Encoder and decoder narrow their windows alike: with the same model and
/// window, a decoder whose code lies in the part of the window that the
/// encoder's share of a symbol covers narrows its window to the one that the
/// encoder codes the symbol into.
pub proof fn law_first_stage_windows_agree8(model: Ppmd8, sym: u8, low: u32, range: u32, code: u32)
    requires
        first_share8(model, range, sym as int) matches Some(share) && ({
            let w = unit_width(range, share.2);
            &&& share.0 as int * w <= code
            &&& (code as int) < (share.0 as int + share.1 as int) * w
        }),
    ensures
        first_window8(model, low, range, code) matches Some(win) && first_share8(model, range, sym as int) matches Some(
            share,
        ) && (win.0, win.1) == coded_window(low, range, share.0, share.1, share.2),
{
    law_first_stage_finds_symbol8(model, sym, range, code);
    let m = model.mem@;
    let mc = model.min_context;
    let ns = byte_at(m, mc as int);
    let n = ns + 1;
    let sts = u32_at(m, wadd(mc, 4) as int) as u32;
    let summ = corrected_sum(range, u16_at(m, wadd(mc, 2) as int) as u32);
    let k = first_with(m, sts, sym as int, n, 0);
    lemma_first_with(m, sts, sym as int, n, 0);
    let w = unit_width(range, summ);
    let start = cum_freq(m, sts, k);
    let size = state_freq(m, sts, k);
    assert(w > 0) by (nonlinear_arith)
        requires
            start as int * w <= code,
            (code as int) < (start as int + size as int) * w,
            w >= 0,
    ;
    let thr = threshold_of(range, code, summ);
    assert(start <= thr && (thr as int) < start as int + size as int) by (nonlinear_arith)
        requires
            start as int * w <= code,
            (code as int) < (start as int + size as int) * w,
            w > 0,
            thr == code / w,
    ;
    lemma_first_hit(m, sts, thr, n, k, 0);
}

/// The width with which the encoder codes `sym` in the current context of
/// `model` when the context is binary and holds `sym`: the share of the
/// context's probability in the window `range`. `None` otherwise.
pub closed spec fn first_bit8(model: Ppmd8, range: u32, sym: int) -> Option<u32> {
    let m = model.mem@;
    let mc = model.min_context;
    if byte_at(m, mc as int) == 0 && byte_at(m, wadd(mc, 2) as int) == sym {
        let pi = bin_slot8(model, mc);
        let pr0: u32 = if pi < 1600 {
            model.bin_summ@[pi as int] as u32
        } else {
            0
        };
        Some(wmul(range >> 14u32, pr0))
    } else {
        None
    }
}

/// What the PPMd8 encoder codes in a binary context, the decoder finds
/// there: with the same model and window, a decoder whose code lies below
/// the width with which the encoder codes the context's symbol finds that
/// symbol.
pub proof fn law_binary_stage_finds_symbol8(model: Ppmd8, sym: u8, range: u32, code: u32)
    requires
        first_bit8(model, range, sym as int) matches Some(bound) && code < bound,
    ensures
        first_stage8(model, range, code) == Some(sym),
{
}

/// The window `(low, range)` and the bytes written after the share `(start,
/// size, total)` was coded from `(low, range)` and the window normalized.
pub open spec fn coded_share8(low: u32, range: u32, share: (u32, u32, u32)) -> (u32, u32, Seq<u8>) {
    let c = coded_window(low, range, share.0, share.1, share.2);
    let w = normalized_window(c.0, c.1, MAX_NORMALIZE_SHIFTS as nat);
    (w.0, w.1, shifted_out_bytes(c.0, c.1, MAX_NORMALIZE_SHIFTS as nat))
}

/// What the PPMd8 encoder codes in a context, the decoder finds there: with
/// the same model and window, a decoder whose code lies in the part of its
/// window that the encoder's share of the symbol covers, `[start * w,
/// (start + size) * w)` with `w` the width of one unit of the frequency sum,
/// finds that symbol in its first stage, before any escape.
pub proof fn law_first_stage_finds_symbol8(model: Ppmd8, sym: u8, range: u32, code: u32)
    requires
        first_share8(model, range, sym as int) matches Some(share) && ({
            let w = unit_width(range, share.2);
            &&& share.0 as int * w <= code
            &&& (code as int) < (share.0 as int + share.1 as int) * w
        }),
    ensures
        first_stage8(model, range, code) == Some(sym),
{
    let m = model.mem@;
    let mc = model.min_context;
    let ns = byte_at(m, mc as int);
    let n = ns + 1;
    let sts = u32_at(m, wadd(mc, 4) as int) as u32;
    let summ = corrected_sum(range, u16_at(m, wadd(mc, 2) as int) as u32);
    let k = first_with(m, sts, sym as int, n, 0);
    lemma_first_with(m, sts, sym as int, n, 0);
    let start = cum_freq(m, sts, k);
    let size = state_freq(m, sts, k);
    let w = unit_width(range, summ);
    assert(w > 0) by (nonlinear_arith)
        requires
            start as int * w <= code,
            (code as int) < (start as int + size as int) * w,
            w >= 0,
    ;
    let thr = threshold_of(range, code, summ);
    assert(thr == code / w);
    assert(start <= thr && (thr as int) < start as int + size as int) by (nonlinear_arith)
        requires
            start as int * w <= code,
            (code as int) < (start as int + size as int) * w,
            w > 0,
            thr == code / w,
    ;
    assert(n <= 256);
    lemma_first_hit(m, sts, thr, n, k, 0);
}

/// In the root context of a restarted model, the state `j` has frequency 1
/// and symbol `j`, so the states before `k` sum to `k`.
proof fn lemma_root_states8(mem: Seq<u8>, mc: int, s: int, k: int)
    requires
        root_fits(mem.len() as int, mc, s),
        root_context8(mem, mc, s),
        0 <= k <= 256,
    ensures
        cum_freq(mem, s as u32, k) == k,
        forall|j: int| 0 <= j < 256 ==> #[trigger] state_freq(mem, s as u32, j) == 1,
        forall|j: int| 0 <= j < 256 ==> #[trigger] state_symbol(mem, s as u32, j) == j,
    decreases k,
{
    assert forall|j: int| 0 <= j < 256 implies #[trigger] state_freq(mem, s as u32, j) == 1 && state_symbol(
        mem,
        s as u32,
        j,
    ) == j by {
        assert(initial_state_at(mem, s, j));
        assert(wmul(j as u32, 6) == 6 * j);
        assert(wadd(s as u32, wmul(j as u32, 6)) == s + 6 * j);
        assert(wadd(wadd(s as u32, wmul(j as u32, 6)), 1) == s + 6 * j + 1);
    }
    assert forall|j: int| 0 <= j < 256 implies #[trigger] state_symbol(mem, s as u32, j) == j by {
        assert(state_freq(mem, s as u32, j) == 1);
    }
    if k > 0 {
        lemma_root_states8(mem, mc, s, k - 1);
    }
}

/// A model fresh from construction, with its size in the accepted range.
pub closed spec fn fresh_model8(m: Ppmd8) -> bool {
    &&& m.is_initial()
    &&& m.mem@.len() == m.align_offset + m.size
    &&& m.align_offset <= 3
    &&& DECODER8_MIN_MEM_SIZE <= m.size <= PPMD8_MAX_MEM_SIZE
}

/// A fresh model's current context is its root context, which fits the
/// arena.
proof fn lemma_fresh_root8(m: Ppmd8)
    requires
        fresh_model8(m),
    ensures
        root_fits(m.mem@.len() as int, m.min_context as int, m.found_state as int),
        root_context8(m.mem@, m.min_context as int, m.found_state as int),
        wadd(m.min_context, 2) == m.min_context + 2,
        wadd(m.min_context, 4) == m.min_context + 4,
        u32_at(m.mem@, wadd(m.min_context, 4) as int) as u32 == m.found_state,
{
    let size = m.size;
    let hi0 = wadd(m.align_offset, size);
    assert(hi0 == m.align_offset + size);
    let q = (size / 8 / UNIT_SIZE * 7 * UNIT_SIZE) as u32;
    assert(q >= 1548 && q <= size) by (nonlinear_arith)
        requires
            q == (size / 8 / 12 * 7 * 12) as u32,
            size >= 1824,
            size <= 4294967259u32,
    ;
    assert(m.min_context == hi0 - 12);
    assert(m.found_state == hi0 - q);
}

/// In a fresh model, the decoder's first symbol is its code divided by the
/// width of one unit of the frequency sum 257, whenever that falls on a
/// symbol.
proof fn lemma_fresh_first_stage8(m: Ppmd8, code: u32)
    requires
        fresh_model8(m),
        code / (0xFFFF_FFFFu32 / 257) < 256,
    ensures
        first_stage8(m, 0xFFFF_FFFF, code) == Some((code / (0xFFFF_FFFFu32 / 257)) as u8),
{
    lemma_fresh_root8(m);
    let mem = m.mem@;
    let mc = m.min_context;
    let st = m.found_state;
    let thr = code / (0xFFFF_FFFFu32 / 257);
    assert(byte_at(mem, mc as int) == 255);
    assert(u16_at(mem, wadd(mc, 2) as int) == 257);
    assert(corrected_sum(0xFFFF_FFFF, 257) == 257);
    assert(unit_width(0xFFFF_FFFF, 257) == 0xFFFF_FFFFu32 / 257);
    assert(threshold_of(0xFFFF_FFFF, code, 257) == thr);
    lemma_root_states8(mem, mc as int, st as int, thr as int);
    lemma_first_hit(mem, st, thr, 256, thr as int, 0);
    assert(first_hit(mem, st, threshold_of(0xFFFF_FFFF, code, 257), 256, 0) == thr);
    assert(state_symbol(mem, st, thr as int) == thr);
}

/// In a fresh model, the encoder codes each symbol `sym` with the share
/// `[sym, sym + 1)` of the frequency sum 257.
proof fn lemma_fresh_first_share8(m: Ppmd8, sym: u8)
    requires
        fresh_model8(m),
    ensures
        first_share8(m, 0xFFFF_FFFF, sym as int) == Some((sym as u32, 1u32, 257u32)),
{
    lemma_fresh_root8(m);
    let mem = m.mem@;
    let st = m.found_state;
    assert(byte_at(mem, m.min_context as int) == 255);
    assert(corrected_sum(0xFFFF_FFFF, 257) == 257);
    lemma_root_states8(mem, m.min_context as int, st as int, sym as int);
    crate::coder7::lemma_first_with_at(mem, st, sym as int, 256, 0);
}

/// A fresh PPMd8 decoder gives every symbol the same share of its root
/// context: the first symbol that it finds is its code divided by the width
/// of one unit of the frequency sum 257, whenever that falls on a symbol.
pub proof fn law_fresh_decoder_first_symbol8<R: ByteSource>(d: Ppmd8Decoder<R>)
    requires
        d.is_fresh(),
        d.window() == 0xFFFF_FFFF,
        DECODER8_MIN_MEM_SIZE <= d.mem_size() <= PPMD8_MAX_MEM_SIZE,
        d.code() / (0xFFFF_FFFFu32 / 257) < 256,
    ensures
        d.next_symbol() == Some((d.code() / (0xFFFF_FFFFu32 / 257)) as u8),
{
    lemma_fresh_first_stage8(d.model, d.rc.code);
}

/// What a fresh PPMd8 encoder writes for its first symbol, a fresh decoder
/// finds first: a decoder with a fresh model whose code is read from the
/// first four bytes of coding the symbol and flushing finds the symbol.
pub proof fn law_fresh_first_symbol_round_trip8<W: ByteSink, R: ByteSource>(
    e: Ppmd8Encoder<W>,
    d: Ppmd8Decoder<R>,
    sym: u8,
)
    requires
        e.is_fresh(),
        e.at_start(),
        DECODER8_MIN_MEM_SIZE <= e.mem_size() <= PPMD8_MAX_MEM_SIZE,
        d.is_fresh(),
        d.window() == 0xFFFF_FFFF,
        DECODER8_MIN_MEM_SIZE <= d.mem_size() <= PPMD8_MAX_MEM_SIZE,
    ensures
        e.first_output(sym) matches Some(out) && out.len() >= 4 && (d.code() == be32(out) ==> d.next_symbol() == Some(
            sym,
        )),
{
    lemma_fresh_first_share8(e.model, sym);
    law_first_symbol_round_trip8(e.model, sym);
    let share = (sym as u32, 1u32, 257u32);
    let c = coded_share8(0, 0xFFFF_FFFF, share);
    let out = c.2 + flushed_bytes(c.0);
    let code = be32(out);
    let w = unit_width(0xFFFF_FFFF, 257);
    assert(w == 0xFFFF_FFFFu32 / 257);
    assert(code / w == sym as int) by (nonlinear_arith)
        requires
            sym as int * w <= code,
            (code as int) < (sym as int + 1) * w,
            w > 0,
    ;
    if d.rc.code == code {
        lemma_fresh_first_stage8(d.model, code);
    }
}

/// Decodes one symbol: a byte value, `SYM_END` for the end marker or
/// `SYM_ERROR` for data that no encoder produced.
pub(crate) fn decode_symbol<R: ByteSource>(model: &mut Ppmd8, rc: &mut RangeDecoder<R>) -> (r: Result<
    i32,
    Error,
>)
    requires
        old(model).wf(),
    ensures
        final(model).wf(),
        final(model).same_params(*old(model)),
        r matches Ok(sym) ==> -2 <= sym < 256,
        R::models_pending() ==> (r is Ok ==> drops_front(
            old(rc).reader.pending(),
            final(rc).reader.pending(),
        )),
        r matches Err(e) ==> e == Error::IoError,
        R::models_pending() && R::reads_all() && r is Err ==> final(rc).reader.pending().len() == 0,
        first_stage_overflow8(*old(model), old(rc).range, old(rc).code) ==> r == Ok::<i32, Error>(SYM_ERROR),
        first_stage8(*old(model), old(rc).range, old(rc).code) matches Some(s) ==> (r is Ok ==> r == Ok::<
            i32,
            Error,
        >(s as i32)),
        first_window8(*old(model), old(rc).low, old(rc).range, old(rc).code) matches Some(win) ==> (r is Ok ==> ({
            let w = normalized_window(win.0, win.1, MAX_NORMALIZE_SHIFTS as nat);
            let p = old(rc).reader.pending();
            &&& (final(rc).low, final(rc).range) == (w.0, w.1)
            &&& R::models_pending() ==> {
                &&& w.2 <= p.len()
                &&& final(rc).code == crate::range8::shifted_in_code(win.2, p, w.2)
                &&& final(rc).reader.pending() == p.skip(w.2 as int)
            }
        })),
        r == Ok::<i32, Error>(SYM_END) ==> final(model).mem == old(model).mem && reaches_root(old(model).mem@, old(model).min_context),
{
    broadcast use lemma_drops_front_refl;

    let mut mask = full_mask();
    let mc = model.min_context;
    if num_stats(&model.mem, mc) != 0 {
        let sts = stats(&model.mem, mc);
        let summ = rc.correct_sum_range(summ_freq(&model.mem, mc));
        let mut count = rc.get_threshold(summ);
        let hi_cnt = count;
        let s0 = sts;
        let f0 = freq(&model.mem, s0);
        count = count.wrapping_sub(f0);
        proof {
            assert(wmul(0u32, 6) == 0);
            assert(wadd(sts, 0) == sts);
            assert(crate::coder7::count_after(model.mem@, sts, hi_cnt, 0) == hi_cnt);
            assert(count == crate::coder7::count_after(model.mem@, sts, hi_cnt, 1));
        }
        if count >= 0x8000_0000 {
            let ghost before = rc.reader.pending();
            rc.decode_final(0, f0, summ)?;
            proof {
                if R::models_pending() {
                    lemma_drops_front_trans(old(rc).reader.pending(), before, rc.reader.pending());
                }
            }
            model.found_state = s0;
            let sym = symbol(&model.mem, s0) as i32;
            model.update1_0();
            return Ok(sym);
        }
        model.prev_success = 0;
        let n = num_stats(&model.mem, mc);
        let mut i: u32 = 1;
        while i <= n
            invariant
                model.wf(),
                model.same_params(*old(model)),
                R::models_pending() ==> drops_front(old(rc).reader.pending(), rc.reader.pending()),
                n < 256,
                i >= 1,
                i <= n + 1,
                model.mem == old(model).mem,
                model.min_context == old(model).min_context,
                rc.range == old(rc).range,
                rc.code == old(rc).code,
                rc.low == old(rc).low,
                rc.reader == old(rc).reader,
                mc == old(model).min_context,
                n == byte_at(old(model).mem@, mc as int),
                sts == u32_at(old(model).mem@, wadd(mc, 4) as int),
                summ == corrected_sum(old(rc).range, u16_at(old(model).mem@, wadd(mc, 2) as int) as u32),
                hi_cnt == threshold_of(old(rc).range, old(rc).code, summ),
                count == crate::coder7::count_after(old(model).mem@, sts, hi_cnt, i as int),
                first_hit(old(model).mem@, sts, hi_cnt, n + 1, 0) == first_hit(
                    old(model).mem@,
                    sts,
                    hi_cnt,
                    n + 1,
                    i as int,
                ),
            decreases n + 1 - i,
        {
            let s = state_at(sts, i);
            let f = freq(&model.mem, s);
            count = count.wrapping_sub(f);
            proof {
                assert(count == crate::coder7::count_after(old(model).mem@, sts, hi_cnt, i + 1));
            }
            if count >= 0x8000_0000 {
                proof {
                    let m = old(model).mem@;
                    crate::coder7::lemma_count_after_sum(m, sts, hi_cnt, i + 1);
                    let c = cum_freq(m, sts, i as int);
                    assert(cum_freq(m, sts, i + 1) == wadd(c, state_freq(m, sts, i as int)));
                    assert(f == state_freq(m, sts, i as int));
                    assert(crate::range8::wsub(crate::range8::wsub(hi_cnt, count), f) == c);
                }
                let ghost before = rc.reader.pending();
                rc.decode_final(hi_cnt.wrapping_sub(count).wrapping_sub(f), f, summ)?;
                proof {
                    if R::models_pending() {
                        lemma_drops_front_trans(old(rc).reader.pending(), before, rc.reader.pending());
                    }
                }
                model.found_state = s;
                let sym = symbol(&model.mem, s) as i32;
                model.update1();
                return Ok(sym);
            }
            i = i + 1;
        }
        if hi_cnt >= summ {
            return Ok(SYM_ERROR);
        }
        let start = hi_cnt.wrapping_sub(count);
        rc.decode(start, summ.wrapping_sub(start), summ);
        mask_context(model, &mut mask, mc);
    } else {
        let one = one_state(mc);
        let pi = bin_summ_index(model, mc);
        let pr0 = model.bs_get(pi) as u32;
        let size0 = (rc.range >> 14u32).wrapping_mul(pr0);
        let pr = ppmd_update_prob_1(pr0);
        if rc.code < size0 {
            model.bs_set(pi, (pr + 128) as u16);
            rc.decode_bit_0(size0);
            let ghost before = rc.reader.pending();
            rc.normalize()?;
            proof {
                if R::models_pending() {
                    lemma_drops_front_trans(old(rc).reader.pending(), before, rc.reader.pending());
                }
            }
            let f = freq(&model.mem, one);
            let c = successor(&model.mem, one);
            let sym = symbol(&model.mem, one) as i32;
            model.found_state = one;
            model.prev_success = 1;
            model.run_length = model.run_length.wrapping_add(1);
            set_freq(&mut model.mem, one, if f < 196 { f + 1 } else { f });
            if model.order_fall == 0 && c >= model.units_start {
                model.min_context = c;
                model.max_context = c;
            } else {
                model.update_model();
            }
            return Ok(sym);
        }
        model.bs_set(pi, pr as u16);
        model.init_esc = exp_escape(pr >> 10u32);
        rc.decode_bit_1(size0);
        let sym = symbol(&model.mem, one);
        mask_out(&mut mask, sym);
        model.prev_success = 0;
    }
    let bound = model.walk_bound();
    let ghost mut dmin: nat = 0;
    let mut rounds: u32 = 0;
    while rounds < bound
        invariant
            model.wf(),
            model.same_params(*old(model)),
            R::models_pending() ==> drops_front(old(rc).reader.pending(), rc.reader.pending()),
            mask@.len() == 256,
            first_stage8(*old(model), old(rc).range, old(rc).code) is None,
            !first_stage_overflow8(*old(model), old(rc).range, old(rc).code),
            model.mem == old(model).mem,
            suffix_walk(old(model).mem@, old(model).min_context, dmin) == model.min_context,
        decreases bound - rounds,
    {
        rounds = rounds + 1;
        let ghost before = rc.reader.pending();
        rc.normalize()?;
        proof {
            if R::models_pending() {
                lemma_drops_front_trans(old(rc).reader.pending(), before, rc.reader.pending());
            }
        }
        let mut mc = model.min_context;
        let num_masked = num_stats(&model.mem, mc);
        let mut steps: u32 = 0;
        let ghost mut d: nat = dmin;
        loop
            invariant_except_break
                steps < bound,
            invariant
                model.wf(),
                model.same_params(*old(model)),
                R::models_pending() ==> drops_front(old(rc).reader.pending(), rc.reader.pending()),
                mask@.len() == 256,
                first_stage8(*old(model), old(rc).range, old(rc).code) is None,
                !first_stage_overflow8(*old(model), old(rc).range, old(rc).code),
                model.mem == old(model).mem,
                suffix_walk(old(model).mem@, old(model).min_context, d) == mc,
            decreases bound - steps,
        {
            model.order_fall = model.order_fall.wrapping_add(1);
            if suffix(&model.mem, mc) == 0 {
                proof {
                    assert(u32_at(old(model).mem@, wadd(suffix_walk(old(model).mem@, old(model).min_context, d), 8) as int)
                        == 0);
                }
                return Ok(SYM_END);
            }
            mc = suffix(&model.mem, mc);
            proof {
                d = d + 1;
            }
            steps = steps + 1;
            if num_stats(&model.mem, mc) != num_masked || steps >= bound {
                break;
            }
        }
        let sts = stats(&model.mem, mc);
        let n = num_stats(&model.mem, mc);
        let mut hi_cnt: u32 = 0;
        let mut i: u32 = 0;
        while i <= n
            invariant
                model.wf(),
                model.same_params(*old(model)),
                R::models_pending() ==> drops_front(old(rc).reader.pending(), rc.reader.pending()),
                mask@.len() == 256,
                first_stage8(*old(model), old(rc).range, old(rc).code) is None,
                !first_stage_overflow8(*old(model), old(rc).range, old(rc).code),
                n < 256,
            decreases n + 1 - i,
        {
            let s = state_at(sts, i);
            hi_cnt = hi_cnt.wrapping_add(freq(&model.mem, s) & mask_of(&mask, symbol(&model.mem, s)));
            i = i + 1;
        }
        model.min_context = mc;
        proof {
            dmin = d;
        }
        let (see, esc_freq) = model.make_esc_freq(num_masked);
        let freq_sum = esc_freq.wrapping_add(hi_cnt);
        let freq_sum2 = rc.correct_sum_range(freq_sum);
        let mut count = rc.get_threshold(freq_sum2);
        if count < hi_cnt {
            let thr = count;
            let mut k: u32 = 0;
            let mut s = sts;
            while k <= n
                invariant
                    model.wf(),
                    model.same_params(*old(model)),
                    R::models_pending() ==> drops_front(old(rc).reader.pending(), rc.reader.pending()),
                    mask@.len() == 256,
                    first_stage8(*old(model), old(rc).range, old(rc).code) is None,
                    !first_stage_overflow8(*old(model), old(rc).range, old(rc).code),
                    n < 256,
                decreases n + 1 - k,
            {
                s = state_at(sts, k);
                count = count.wrapping_sub(freq(&model.mem, s) & mask_of(&mask, symbol(&model.mem, s)));
                k = k + 1;
                if count >= 0x8000_0000 {
                    break;
                }
            }
            let f = freq(&model.mem, s);
            let ghost before = rc.reader.pending();
            rc.decode_final(thr.wrapping_sub(count).wrapping_sub(f), f, freq_sum2)?;
            proof {
                if R::models_pending() {
                    lemma_drops_front_trans(old(rc).reader.pending(), before, rc.reader.pending());
                }
            }
            model.see_hit(see);
            model.found_state = s;
            let sym = symbol(&model.mem, s) as i32;
            model.update2();
            return Ok(sym);
        }
        if count >= freq_sum2 {
            return Ok(SYM_ERROR);
        }
        rc.decode(hi_cnt, freq_sum2.wrapping_sub(hi_cnt), freq_sum2);
        model.see_escape(see, freq_sum);
        mask_context(model, &mut mask, mc);
    }
    Ok(SYM_ERROR)
}

/// Encodes `symbol`: a byte value, or `SYM_END` for the end marker.
pub(crate) fn encode_symbol<W: ByteSink>(model: &mut Ppmd8, rc: &mut RangeEncoder<W>, symbol_in: i32) -> (r:
    Result<(), Error>)
    requires
        old(model).wf(),
    ensures
        final(model).wf(),
        final(model).same_params(*old(model)),
        W::models_written() ==> (r is Ok ==> extends(
            old(rc).writer.written(),
            final(rc).writer.written(),
        )),
        r matches Err(e) ==> e == Error::IoError,
        W::accepts_all() ==> r is Ok,
        first_share8(*old(model), old(rc).range, symbol_in as int) matches Some(share) ==> (r is Ok ==> ({
            let c = coded_share8(old(rc).low, old(rc).range, share);
            &&& (final(rc).low, final(rc).range) == (c.0, c.1)
            &&& W::models_written() ==> final(rc).writer.written() == old(rc).writer.written() + c.2
        })),
        first_bit8(*old(model), old(rc).range, symbol_in as int) matches Some(bound) ==> (r is Ok ==> ({
            let w = normalized_window(old(rc).low, bound, MAX_NORMALIZE_SHIFTS as nat);
            &&& (final(rc).low, final(rc).range) == (w.0, w.1)
            &&& W::models_written() ==> final(rc).writer.written() == old(rc).writer.written() + shifted_out_bytes(
                old(rc).low,
                bound,
                MAX_NORMALIZE_SHIFTS as nat,
            )
        })),
{
    broadcast use lemma_extends_trans, lemma_extends_refl;

    let mut mask = full_mask();
    let mc = model.min_context;
    if num_stats(&model.mem, mc) != 0 {
        let sts = stats(&model.mem, mc);
        let summ = rc.correct_sum_range(summ_freq(&model.mem, mc));
        let s0 = sts;
        proof {
            assert(wmul(0u32, 6) == 0);
            assert(wadd(sts, 0) == sts);
            assert(cum_freq(model.mem@, sts, 0) == 0);
            assert(wadd(0, state_freq(model.mem@, sts, 0)) == state_freq(model.mem@, sts, 0));
        }
        if symbol(&model.mem, s0) as i32 == symbol_in {
            rc.encode(0, freq(&model.mem, s0), summ);
            let ghost before = rc.writer.written();
            rc.normalize()?;
            proof {
                if W::models_written() {
                    lemma_extends_trans(old(rc).writer.written(), before, rc.writer.written());
                }
            }
            model.found_state = s0;
            model.update1_0();
            return Ok(());
        }
        model.prev_success = 0;
        let mut sum = freq(&model.mem, s0);
        let n = num_stats(&model.mem, mc);
        let mut i: u32 = 1;
        while i <= n
            invariant
                model.wf(),
                model.same_params(*old(model)),
                W::models_written() ==> extends(old(rc).writer.written(), rc.writer.written()),
                n < 256,
                i >= 1,
                i <= n + 1,
                model.mem == old(model).mem,
                model.min_context == old(model).min_context,
                *rc == *old(rc),
                mc == old(model).min_context,
                n == byte_at(old(model).mem@, mc as int),
                sts == u32_at(old(model).mem@, wadd(mc, 4) as int),
                summ == corrected_sum(old(rc).range, u16_at(old(model).mem@, wadd(mc, 2) as int) as u32),
                sum == cum_freq(old(model).mem@, sts, i as int),
                first_with(old(model).mem@, sts, symbol_in as int, n + 1, 0) == first_with(
                    old(model).mem@,
                    sts,
                    symbol_in as int,
                    n + 1,
                    i as int,
                ),
            decreases n + 1 - i,
        {
            let s = state_at(sts, i);
            if symbol(&model.mem, s) as i32 == symbol_in {
                rc.encode(sum, freq(&model.mem, s), summ);
                let ghost before = rc.writer.written();
                rc.normalize()?;
                proof {
                    if W::models_written() {
                        lemma_extends_trans(old(rc).writer.written(), before, rc.writer.written());
                    }
                }
                model.found_state = s;
                model.update1();
                return Ok(());
            }
            sum = sum.wrapping_add(freq(&model.mem, s));
            i = i + 1;
        }
        rc.encode(sum, summ.wrapping_sub(sum), summ);
        mask_context(model, &mut mask, mc);
    } else {
        let one = one_state(mc);
        let pi = bin_summ_index(model, mc);
        let pr0 = model.bs_get(pi) as u32;
        let bound = (rc.range >> 14u32).wrapping_mul(pr0);
        let pr = ppmd_update_prob_1(pr0);
        if symbol(&model.mem, one) as i32 == symbol_in {
            model.bs_set(pi, (pr + 128) as u16);
            rc.encode_bit_0(bound);
            let ghost before = rc.writer.written();
            rc.normalize()?;
            proof {
                if W::models_written() {
                    lemma_extends_trans(old(rc).writer.written(), before, rc.writer.written());
                }
            }
            let f = freq(&model.mem, one);
            let c = successor(&model.mem, one);
            model.found_state = one;
            model.prev_success = 1;
            model.run_length = model.run_length.wrapping_add(1);
            set_freq(&mut model.mem, one, if f < 196 { f + 1 } else { f });
            if model.order_fall == 0 && c >= model.units_start {
                model.min_context = c;
                model.max_context = c;
            } else {
                model.update_model();
            }
            return Ok(());
        }
        model.bs_set(pi, pr as u16);
        model.init_esc = exp_escape(pr >> 10u32);
        rc.encode_bit_1(bound);
        let sym = symbol(&model.mem, one);
        mask_out(&mut mask, sym);
        model.prev_success = 0;
    }
    let walk = model.walk_bound();
    let mut rounds: u32 = 0;
    while rounds < walk
        invariant
            model.wf(),
            model.same_params(*old(model)),
            W::models_written() ==> extends(old(rc).writer.written(), rc.writer.written()),
            mask@.len() == 256,
            first_share8(*old(model), old(rc).range, symbol_in as int) is None,
            first_bit8(*old(model), old(rc).range, symbol_in as int) is None,
        decreases walk - rounds,
    {
        rounds = rounds + 1;
        let ghost before = rc.writer.written();
        rc.normalize()?;
        proof {
            if W::models_written() {
                lemma_extends_trans(old(rc).writer.written(), before, rc.writer.written());
            }
        }
        let mut mc = model.min_context;
        let num_masked = num_stats(&model.mem, mc);
        let mut steps: u32 = 0;
        loop
            invariant_except_break
                steps < walk,
            invariant
                model.wf(),
                model.same_params(*old(model)),
                W::models_written() ==> extends(old(rc).writer.written(), rc.writer.written()),
                mask@.len() == 256,
                first_share8(*old(model), old(rc).range, symbol_in as int) is None,
                first_bit8(*old(model), old(rc).range, symbol_in as int) is None,
            decreases walk - steps,
        {
            model.order_fall = model.order_fall.wrapping_add(1);
            if suffix(&model.mem, mc) == 0 {
                return Ok(());
            }
            mc = suffix(&model.mem, mc);
            steps = steps + 1;
            if num_stats(&model.mem, mc) != num_masked || steps >= walk {
                break;
            }
        }
        model.min_context = mc;
        let (see, esc_freq) = model.make_esc_freq(num_masked);
        let sts = stats(&model.mem, mc);
        let n = num_stats(&model.mem, mc);
        let mut sum: u32 = 0;
        let mut i: u32 = 0;
        while i <= n
            invariant
                model.wf(),
                model.same_params(*old(model)),
                W::models_written() ==> extends(old(rc).writer.written(), rc.writer.written()),
                mask@.len() == 256,
                first_share8(*old(model), old(rc).range, symbol_in as int) is None,
                first_bit8(*old(model), old(rc).range, symbol_in as int) is None,
                n < 256,
            decreases n + 1 - i,
        {
            let s = state_at(sts, i);
            let cur = symbol(&model.mem, s);
            if cur as i32 == symbol_in {
                let low = sum;
                let f = freq(&model.mem, s);
                model.see_hit(see);
                model.found_state = s;
                let mut total = sum.wrapping_add(esc_freq);
                let mut j = i;
                while j <= n
                    invariant
                        model.wf(),
                        model.same_params(*old(model)),
                        W::models_written() ==> extends(old(rc).writer.written(), rc.writer.written()),
                        mask@.len() == 256,
                        first_share8(*old(model), old(rc).range, symbol_in as int) is None,
                        first_bit8(*old(model), old(rc).range, symbol_in as int) is None,
                        n < 256,
                    decreases n + 1 - j,
                {
                    let t = state_at(sts, j);
                    total = total.wrapping_add(freq(&model.mem, t) & mask_of(&mask, symbol(&model.mem, t)));
                    j = j + 1;
                }
                let total = rc.correct_sum_range(total);
                rc.encode(low, f, total);
                let ghost before = rc.writer.written();
                rc.normalize()?;
                proof {
                    if W::models_written() {
                        lemma_extends_trans(old(rc).writer.written(), before, rc.writer.written());
                    }
                }
                model.update2();
                return Ok(());
            }
            sum = sum.wrapping_add(freq(&model.mem, s) & mask_of(&mask, cur));
            i = i + 1;
        }
        let total = sum.wrapping_add(esc_freq);
        model.see_escape(see, total);
        let total = rc.correct_sum_range(total);
        rc.encode(sum, total.wrapping_sub(sum), total);
        mask_context(model, &mut mask, mc);
    }
    Ok(())
}

/// Whether the PPMd8 decoder accepts the parameters: the order and the
/// memory size within their bounds and a supported restore method.
pub open spec fn valid_decoder8_params(order: u32, mem_size: u32, restore_method: RestoreMethod) -> bool {
    &&& PPMD8_MIN_ORDER <= order <= PPMD8_MAX_ORDER
    &&& DECODER8_MIN_MEM_SIZE <= mem_size <= DECODER8_MAX_MEM_SIZE
    &&& restore_method != RestoreMethod::Unsupported
}

/// Whether the PPMd8 encoder accepts the parameters: the order and the
/// memory size within their bounds.
pub open spec fn valid_encoder8_params(order: u32, mem_size: u32) -> bool {
    &&& PPMD8_MIN_ORDER <= order <= PPMD8_MAX_ORDER
    &&& PPMD8_MIN_MEM_SIZE <= mem_size <= PPMD8_MAX_MEM_SIZE
}

/// The largest memory size the PPMd8 decoder takes: the arena's allocation
/// size, rounded up to whole words, still fits in 32 bits.
pub const DECODER8_MAX_MEM_SIZE: u32 = 0xFFFF_FFFC;

/// The smallest memory size the PPMd8 decoder takes: the units area, seven
/// eighths of the memory in whole units, holds the root context below its
/// 256 states (`law_fresh_decoder_first_symbol8` proves it from this size).
pub const DECODER8_MIN_MEM_SIZE: u32 = 1824;

/// A decoder of PPMd8 (PPMdI rev.1) compressed data.
pub struct Ppmd8Decoder<R: ByteSource> {
    model: Ppmd8,
    rc: RangeDecoder<R>,
    finished: bool,
}

impl<R: ByteSource> Ppmd8Decoder<R> {
    /// The model is well formed.
    pub closed spec fn wf(&self) -> bool {
        self.model.wf()
    }

    /// The end of the data (or corrupt data) was met.
    pub closed spec fn is_finished(&self) -> bool {
        self.finished
    }

    /// The model is in its initial state: a single context of order 0 that
    /// holds every symbol once, the initial scalar state and free lists, and
    /// the initial probability and SEE tables.
    pub closed spec fn is_fresh(&self) -> bool {
        &&& self.model.is_initial()
        &&& self.model.mem@.len() == self.model.align_offset + self.model.size
        &&& self.model.align_offset <= 3
    }

    /// The model order of the decoder.
    pub closed spec fn order(&self) -> u32 {
        self.model.max_order
    }

    /// The model memory size of the decoder.
    pub closed spec fn mem_size(&self) -> u32 {
        self.model.size
    }

    /// The probabilities of the binary contexts of the model.
    pub closed spec fn binary_probabilities(&self) -> Seq<u16> {
        self.model.bin_summ@
    }

    /// Every binary-context probability of a well-formed decoder lies strictly
    /// inside the binary scale. `new` makes the decoder well formed and every
    /// operation keeps it so, hence this holds of every decoder.
    pub proof fn law_binary_probabilities_in_scale(&self)
        requires
            self.wf(),
        ensures
            bin_probs_in_scale(self.binary_probabilities()),
    {
    }

    /// The symbol that the decoder finds next in its current context, before
    /// any escape; `None` when it would escape to a shorter context.
    pub closed spec fn next_symbol(&self) -> Option<u8> {
        first_stage8(self.model, self.rc.range, self.rc.code)
    }

    /// The window width of the decoder's range coder.
    pub closed spec fn window(&self) -> u32 {
        self.rc.range
    }

    /// The code of the decoder's range coder: where the coded value lies
    /// in its window.
    pub closed spec fn code(&self) -> u32 {
        self.rc.code
    }

    /// The source that the decoder reads from.
    pub closed spec fn source(&self) -> R {
        self.rc.reader
    }

    /// The restore method of the decoder.
    pub closed spec fn restore(&self) -> RestoreMethod {
        self.model.restore_method
    }

    /// A decoder over the compressed bytes of `reader`.
    ///
    /// The `order` must be between [`PPMD8_MIN_ORDER`] and
    /// [`PPMD8_MAX_ORDER`] and the restore method supported, else the result
    /// is `InvalidParameter`. The memory must hold the root context of the
    /// model and its allocation size must fit in 32 bits: a `mem_size` below
    /// [`DECODER8_MIN_MEM_SIZE`] or above [`DECODER8_MAX_MEM_SIZE`] is
    /// `InvalidParameter` too. The first four bytes of the data start
    /// the range decoder (`IoError` when they cannot be read,
    /// `RangeDecoderInitialization` when they are all `0xFF`).
    pub fn new(reader: R, order: u32, mem_size: u32, restore_method: RestoreMethod) -> (r: Result<
        Self,
        Error,
    >)
        ensures
            (r == Err::<Self, Error>(Error::InvalidParameter)) <==> !valid_decoder8_params(
                order,
                mem_size,
                restore_method,
            ),
            r matches Ok(d) ==> {
                &&& d.wf()
                &&& d.is_fresh()
                &&& !d.is_finished()
                &&& d.order() == order
                &&& d.mem_size() == mem_size
                &&& d.restore() == restore_method
                &&& R::models_pending() ==> d.source().pending() == reader.pending().skip(4)
                &&& R::models_pending() ==> d.code() == be32(reader.pending())
                &&& d.window() == 0xFFFF_FFFF
            },
            r matches Err(e) ==> e == Error::InvalidParameter || e == Error::IoError || e
                == Error::RangeDecoderInitialization || e == Error::MemoryAllocation,
            R::models_pending() && R::reads_all() ==> (r == Err::<Self, Error>(Error::IoError) <==> valid_decoder8_params(
                order,
                mem_size,
                restore_method,
            ) && reader.pending().len() < 4),
            R::models_pending() && R::reads_all() ==> (r == Err::<Self, Error>(Error::RangeDecoderInitialization)
                <==> valid_decoder8_params(order, mem_size, restore_method) && reader.pending().len() >= 4 && be32(
                reader.pending(),
            ) == 0xFFFF_FFFF),
    {
        if !(PPMD8_MIN_ORDER <= order && order <= PPMD8_MAX_ORDER) || !(DECODER8_MIN_MEM_SIZE
            <= mem_size && mem_size <= DECODER8_MAX_MEM_SIZE) || restore_method
            == RestoreMethod::Unsupported {
            return Err(Error::InvalidParameter);
        }
        let rc = match RangeDecoder::new(reader) {
            Ok(rc) => rc,
            Err(e) => {
                return Err(e);
            },
        };
        let model = match Ppmd8::new(order, mem_size, restore_method) {
            Ok(m) => m,
            Err(e) => {
                return Err(e);
            },
        };
        Ok(Ppmd8Decoder { model, rc, finished: false })
    }

    /// Decodes up to `buf.len()` bytes into `buf` and gives their number.
    ///
    /// Decoding stops early at the end marker; once it was met (or the data
    /// was found corrupt) every further call gives `Ok(0)`. Data that no
    /// encoder produced gives `InvalidData`, and a failing source `IoError`.
    pub fn read(&mut self, buf: &mut [u8]) -> (r: Result<usize, Error>)
        requires
            old(self).wf(),
        ensures
            final(self).wf(),
            final(self).order() == old(self).order(),
            final(self).mem_size() == old(self).mem_size(),
            final(self).restore() == old(self).restore(),
            final(buf)@.len() == old(buf)@.len(),
            old(self).is_finished() ==> r == Ok::<usize, Error>(0) && *final(self) == *old(self),
            !old(self).is_finished() && old(buf)@.len() == 0 ==> r == Ok::<usize, Error>(0)
                && *final(self) == *old(self),
            r matches Ok(n) ==> n <= old(buf)@.len(),
            r matches Ok(n) ==> (n < old(buf)@.len() && !old(self).is_finished())
                ==> final(self).is_finished() && final(self).code() == 0,
            r matches Ok(n) ==> forall|j: int|
                n <= j < old(buf)@.len() ==> #[trigger] final(buf)@[j] == old(buf)@[j],
            r == Err::<usize, Error>(Error::InvalidData) ==> final(self).is_finished(),
            r == Err::<usize, Error>(Error::IoError) ==> !final(self).is_finished(),
            r matches Err(e) ==> e == Error::IoError || e == Error::InvalidData,
            R::models_pending() && R::reads_all() && r == Err::<usize, Error>(Error::IoError)
                ==> final(self).source().pending().len() == 0,
            R::models_pending() ==> (r != Err::<usize, Error>(Error::IoError) ==> drops_front(
                old(self).source().pending(),
                final(self).source().pending(),
            )),
            !old(self).is_finished() && old(buf)@.len() > 0 && r != Err::<usize, Error>(Error::IoError) ==> (old(
                self,
            ).next_symbol() matches Some(s) ==> final(buf)@[0] == s && (r matches Ok(n) ==> n >= 1)),
    {
        broadcast use lemma_drops_front_refl;
        if self.finished {
            return Ok(0);
        }
        if buf.len() == 0 {
            return Ok(0);
        }
        let mut sym: i32 = 0;
        let mut decoded: usize = 0;
        while decoded < buf.len()
            invariant_except_break
                sym >= 0,
                decoded == 0 ==> self.model == old(self).model && self.rc.range == old(self).rc.range
                    && self.rc.code == old(self).rc.code,
            invariant
                self.model.wf(),
                self.model.same_params(old(self).model),
                !self.finished,
                !old(self).finished,
                buf@.len() == old(buf)@.len(),
                decoded <= buf@.len(),
                forall|j: int| decoded <= j < buf@.len() ==> #[trigger] buf@[j] == old(buf)@[j],
                R::models_pending() ==> drops_front(
                    old(self).rc.reader.pending(),
                    self.rc.reader.pending(),
                ),
                old(self).next_symbol() matches Some(s) ==> (decoded >= 1 ==> buf@[0] == s),
                buf@.len() > 0,
            ensures
                sym >= 0 ==> decoded == buf@.len(),
                old(self).next_symbol() matches Some(s) ==> (decoded >= 1 && buf@[0] == s),
            decreases buf@.len() - decoded,
        {
            let ghost before = self.rc.reader.pending();
            let d = decode_symbol(&mut self.model, &mut self.rc)?;
            proof {
                if R::models_pending() {
                    lemma_drops_front_trans(
                        old(self).rc.reader.pending(),
                        before,
                        self.rc.reader.pending(),
                    );
                }
            }
            sym = d;
            if sym < 0 {
                break;
            }
            buf[decoded] = sym as u8;
            decoded = decoded + 1;
        }
        let code = self.rc.code;
        if sym >= 0 {
            return Ok(decoded);
        }
        self.finished = true;
        if sym != SYM_END || code != 0 {
            return Err(Error::InvalidData);
        }
        Ok(decoded)
    }

    /// The size in bytes of the model memory that the decoder allocated.
    pub fn memory_size(&self) -> (r: u32)
        ensures
            r == self.mem_size(),
    {
        self.model.memory_size()
    }

    /// Gives up the decoder and returns its source.
    pub fn into_inner(self) -> (r: R)
        ensures
            r == self.source(),
    {
        self.rc.reader
    }
}

/// An encoder that compresses data with PPMd8 (PPMdI rev.1).
pub struct Ppmd8Encoder<W: ByteSink> {
    model: Ppmd8,
    rc: RangeEncoder<W>,
}

impl<W: ByteSink> Ppmd8Encoder<W> {
    /// The model is well formed.
    pub closed spec fn wf(&self) -> bool {
        self.model.wf()
    }

    /// The model is in its initial state: a single context of order 0 that
    /// holds every symbol once, the initial scalar state and free lists, and
    /// the initial probability and SEE tables.
    pub closed spec fn is_fresh(&self) -> bool {
        &&& self.model.is_initial()
        &&& self.model.mem@.len() == self.model.align_offset + self.model.size
        &&& self.model.align_offset <= 3
    }

    /// The model order of the encoder.
    pub closed spec fn order(&self) -> u32 {
        self.model.max_order
    }

    /// The model memory size of the encoder.
    pub closed spec fn mem_size(&self) -> u32 {
        self.model.size
    }

    /// The probabilities of the binary contexts of the model.
    pub closed spec fn binary_probabilities(&self) -> Seq<u16> {
        self.model.bin_summ@
    }

    /// Every binary-context probability of a well-formed encoder lies strictly
    /// inside the binary scale. `new` makes the encoder well formed and every
    /// operation keeps it so, hence this holds of every encoder.
    pub proof fn law_binary_probabilities_in_scale(&self)
        requires
            self.wf(),
        ensures
            bin_probs_in_scale(self.binary_probabilities()),
    {
    }

    /// The range coder is at its start: the full window.
    pub closed spec fn at_start(&self) -> bool {
        &&& self.rc.low == 0
        &&& self.rc.range == 0xFFFF_FFFF
    }

    /// Everything that the encoder writes when it codes `sym` as its next
    /// symbol in its current context and then is flushed; `None` when coding
    /// `sym` there takes an escape or the context is binary.
    pub closed spec fn first_output(&self, sym: u8) -> Option<Seq<u8>> {
        match first_share8(self.model, self.rc.range, sym as int) {
            Some(share) => {
                let c = coded_share8(self.rc.low, self.rc.range, share);
                Some(c.2 + flushed_bytes(c.0))
            },
            None => None,
        }
    }

    /// The bytes that the encoder writes while it codes `sym` as its next
    /// symbol in its current context; `None` when coding `sym` there takes
    /// an escape.
    pub closed spec fn first_coding(&self, sym: u8) -> Option<Seq<u8>> {
        match first_share8(self.model, self.rc.range, sym as int) {
            Some(share) => Some(coded_share8(self.rc.low, self.rc.range, share).2),
            None => match first_bit8(self.model, self.rc.range, sym as int) {
                Some(bound) => Some(shifted_out_bytes(self.rc.low, bound, MAX_NORMALIZE_SHIFTS as nat)),
                None => None,
            },
        }
    }

    /// The sink that the encoder writes to.
    pub closed spec fn sink(&self) -> W {
        self.rc.writer
    }

    /// The bytes that a flush writes out from the coder's current window
    /// (the window's bottom, with any bytes held back for a carry).
    pub closed spec fn flush_output(&self) -> Seq<u8> {
        crate::range8::flushed_bytes(self.rc.low)
    }

    /// The restore method of the encoder.
    pub closed spec fn restore(&self) -> RestoreMethod {
        self.model.restore_method
    }

    /// An encoder that writes the compressed data to `writer`.
    ///
    /// The `order` must be between [`PPMD8_MIN_ORDER`] and
    /// [`PPMD8_MAX_ORDER`] and the `mem_size` between [`PPMD8_MIN_MEM_SIZE`]
    /// and [`PPMD8_MAX_MEM_SIZE`], else the result is `InvalidParameter`.
    pub fn new(writer: W, order: u32, mem_size: u32, restore_method: RestoreMethod) -> (r: Result<
        Self,
        Error,
    >)
        ensures
            (r == Err::<Self, Error>(Error::InvalidParameter)) <==> !valid_encoder8_params(
                order,
                mem_size,
            ),
            r matches Ok(e) ==> {
                &&& e.wf()
                &&& e.is_fresh()
                &&& e.at_start()
                &&& e.order() == order
                &&& e.mem_size() == mem_size
                &&& e.restore() == restore_method
                &&& e.sink() == writer
            },
            r matches Err(e) ==> e == Error::InvalidParameter || e == Error::MemoryAllocation,
    {
        if !(PPMD8_MIN_ORDER <= order && order <= PPMD8_MAX_ORDER) || !(PPMD8_MIN_MEM_SIZE
            <= mem_size && mem_size <= PPMD8_MAX_MEM_SIZE) {
            return Err(Error::InvalidParameter);
        }
        let model = match Ppmd8::new(order, mem_size, restore_method) {
            Ok(m) => m,
            Err(e) => {
                return Err(e);
            },
        };
        Ok(Ppmd8Encoder { model, rc: RangeEncoder::new(writer) })
    }

    /// Compresses the bytes of `buf` and gives their number.
    pub fn write(&mut self, buf: &[u8]) -> (r: Result<usize, Error>)
        requires
            old(self).wf(),
        ensures
            final(self).wf(),
            final(self).order() == old(self).order(),
            final(self).mem_size() == old(self).mem_size(),
            final(self).restore() == old(self).restore(),
            r matches Ok(n) ==> n == buf@.len(),
            buf@.len() == 0 ==> r == Ok::<usize, Error>(0),
            W::models_written() ==> (r is Ok ==> extends(
                old(self).sink().written(),
                final(self).sink().written(),
            )),
            r matches Err(e) ==> e == Error::IoError,
            W::accepts_all() ==> r is Ok,
            W::models_written() && buf@.len() > 0 ==> (old(self).first_coding(buf@[0]) matches Some(bytes)
                ==> (r is Ok ==> extends(old(self).sink().written() + bytes, final(self).sink().written()))),
            W::models_written() && buf@.len() == 1 ==> (old(self).first_output(buf@[0]) matches Some(out) ==> (r is Ok
                ==> final(self).sink().written() + final(self).flush_output() == old(self).sink().written() + out)),
    {
        broadcast use lemma_extends_refl;
        if buf.len() == 0 {
            return Ok(0);
        }
        let mut i: usize = 0;
        while i < buf.len()
            invariant
                self.model.wf(),
                self.model.same_params(old(self).model),
                W::models_written() ==> extends(old(self).rc.writer.written(), self.rc.writer.written()),
                i <= buf@.len(),
                i == 0 ==> self.model == old(self).model && self.rc == old(self).rc,
                W::models_written() && i == 1 ==> (first_share8(old(self).model, old(self).rc.range, buf@[0] as int) matches Some(
                    share,
                ) ==> ({
                    let c = coded_share8(old(self).rc.low, old(self).rc.range, share);
                    &&& (self.rc.low, self.rc.range) == (c.0, c.1)
                    &&& self.rc.writer.written() == old(self).rc.writer.written() + c.2
                })),
                W::models_written() && i >= 1 ==> (old(self).first_coding(buf@[0]) matches Some(bytes) ==> extends(
                    old(self).rc.writer.written() + bytes,
                    self.rc.writer.written(),
                )),
            decreases buf@.len() - i,
        {
            let ghost before = self.rc.writer.written();
            encode_symbol(&mut self.model, &mut self.rc, buf[i] as i32)?;
            proof {
                if W::models_written() {
                    lemma_extends_trans(old(self).rc.writer.written(), before, self.rc.writer.written());
                    if i >= 1 {
                        match old(self).first_coding(buf@[0]) {
                            Some(bytes) => {
                                lemma_extends_trans(
                                    old(self).rc.writer.written() + bytes,
                                    before,
                                    self.rc.writer.written(),
                                );
                            },
                            None => {},
                        }
                    } else {
                        lemma_extends_refl(self.rc.writer.written());
                        match first_share8(old(self).model, old(self).rc.range, buf@[0] as int) {
                            Some(share) => {
                                let c = coded_share8(old(self).rc.low, old(self).rc.range, share);
                                assert(old(self).rc.writer.written() + c.2 + flushed_bytes(c.0)
                                    =~= old(self).rc.writer.written() + (c.2 + flushed_bytes(c.0)));
                            },
                            None => {},
                        }
                    }
                }
            }
            i = i + 1;
        }
        Ok(buf.len())
    }

    /// Writes out the pending bytes of the range coder and flushes the
    /// writer; the data written so far can then be decoded.
    pub fn flush(&mut self) -> (r: Result<(), Error>)
        requires
            old(self).wf(),
        ensures
            final(self).wf(),
            final(self).order() == old(self).order(),
            final(self).mem_size() == old(self).mem_size(),
            final(self).restore() == old(self).restore(),
            W::models_written() ==> (r is Ok ==> extends(
                old(self).sink().written(),
                final(self).sink().written(),
            )),
            W::models_written() ==> (r is Ok ==> final(self).sink().written() == old(self).sink().written()
                + old(self).flush_output()),
            r matches Err(e) ==> e == Error::IoError,
            W::accepts_all() ==> r is Ok,
    {
        self.rc.flush()
    }

    /// Finishes the data, with an end marker when `with_end_marker` is set,
    /// flushes, and gives back the writer.
    pub fn finish(self, with_end_marker: bool) -> (r: Result<W, Error>)
        requires
            self.wf(),
        ensures
            W::models_written() ==> (r matches Ok(w) ==> extends(self.sink().written(), w.written())),
            W::models_written() && !with_end_marker ==> (r matches Ok(w) ==> w.written() == self.sink().written()
                + self.flush_output()),
            r matches Err(e) ==> e == Error::IoError,
            W::accepts_all() ==> r is Ok,
    {
        broadcast use lemma_extends_refl;
        let mut enc = self;
        if with_end_marker {
            encode_symbol(&mut enc.model, &mut enc.rc, SYM_END)?;
        }
        let ghost before = enc.rc.writer.written();
        enc.flush()?;
        proof {
            if W::models_written() {
                lemma_extends_trans(self.rc.writer.written(), before, enc.rc.writer.written());
            }
        }
        Ok(enc.into_inner())
    }

    /// The size in bytes of the model memory that the encoder allocated.
    pub fn memory_size(&self) -> (r: u32)
        ensures
            r == self.mem_size(),
    {
        self.model.memory_size()
    }

    /// Gives up the encoder and returns its writer.
    pub fn into_inner(self) -> (r: W)
        ensures
            r == self.sink(),
    {
        self.rc.writer
    }
}

} // verus!
