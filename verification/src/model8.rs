//! The PPMd8 (PPMdI rev.1) context model and its memory allocator.
//!
//! The model is a tree of contexts kept in a byte arena, in PPMd's record
//! layout: a context of 12 bytes holds its number of symbols less one, its
//! flags, its frequency sum (or, for a context with one symbol, that symbol
//! and its frequency), the offset of its symbol list (or the successor of its
//! one symbol) and the offset of its suffix context. A symbol state of 6
//! bytes holds the symbol, its frequency and the offset of its successor.
//!
//! Loops that walk lists or chains stored in the arena are bounded by the
//! number of units the arena holds: a chain that the model builds is never
//! longer, so the bound only cuts short a walk over a corrupted arena.
use crate::arena::{lemma_put_u32_keeps_u32, lemma_put_u32_elsewhere, lemma_u16_read_back, lemma_u32_read_back, copied_within, disjoint_records, lemma_copied_within_disjoint, lemma_u32_bytes, swapped, byte_at, put_byte, put_u16, put_u32, u16_at, u32_at, Arena};
use crate::range8::{wadd, wmul};
use crate::prob::PPMD_BIN_SCALE;
use crate::units::{class_of, class_units, UnitTables, NUM_INDEXES, UNIT_SIZE};
use crate::coder7::{first_with, lemma_first_with, state_symbol};
use crate::model7::{moved_ahead, outgrows_prev, header_apart, initial_state_at, lemma_state_write, ns2bs7_of, root_fits, tri_row};
use crate::{Error, RestoreMethod};
use vstd::prelude::*;

verus! {

/// The largest frequency a symbol reaches before its context is rescaled.
pub const MAX_FREQ: u32 = 124;

/// A stamp that marks a free block.
pub const EMPTY_NODE: u32 = 0xFFFF_FFFF;

/// The number of secondary-escape-estimation rows and columns.
pub const SEE_ROWS: u32 = 24;
pub const SEE_COLS: u32 = 32;

/// The index that stands for the dummy SEE context.
pub const DUMMY_SEE: u32 = 768;

/// The escape estimates `[25, 14, 9, 7, 5, 5, 4, 4, 4, 3, 3, 3, 2, ...]`
/// by probability class.
pub open spec fn exp_escape_of(i: u32) -> u32 {
    if i == 0 {
        25
    } else if i == 1 {
        14
    } else if i == 2 {
        9
    } else if i == 3 {
        7
    } else if i <= 5 {
        5
    } else if i <= 8 {
        4
    } else if i <= 11 {
        3
    } else {
        2
    }
}

/// The escape estimate that a binary context with the probability class
/// `i` (its probability `>> 10`) hands on to the next context.
pub fn exp_escape(i: u32) -> (r: u32)
    ensures
        r == exp_escape_of(i),
        1 < r <= 25,
{
    match i {
        0 => 25,
        1 => 14,
        2 => 9,
        3 => 7,
        4 | 5 => 5,
        6 | 7 | 8 => 4,
        9 | 10 | 11 => 3,
        _ => 2,
    }
}

/// The initial escape estimates of the binary contexts by column:
/// `[0x3CDD, 0x1F3F, 0x59BF, 0x48F3, 0x64A1, 0x5ABC, 0x6632, 0x6051]`.
pub open spec fn init_bin_esc_of(k: u32) -> u32 {
    if k == 0 {
        0x3CDD
    } else if k == 1 {
        0x1F3F
    } else if k == 2 {
        0x59BF
    } else if k == 3 {
        0x48F3
    } else if k == 4 {
        0x64A1
    } else if k == 5 {
        0x5ABC
    } else if k == 6 {
        0x6632
    } else {
        0x6051
    }
}

/// The initial escape estimate of the binary contexts of column `k`.
pub fn init_bin_esc(k: u32) -> (r: u32)
    ensures
        r == init_bin_esc_of(k),
        0x1F3F <= r <= 0x6632,
{
    match k {
        0 => 0x3CDD,
        1 => 0x1F3F,
        2 => 0x59BF,
        3 => 0x48F3,
        4 => 0x64A1,
        5 => 0x5ABC,
        6 => 0x6632,
        _ => 0x6051,
    }
}

/// The frequency of a symbol in a new order-1 context, from its count `cf`
/// less one and the rest `s0` of the frequency sum of the context below.
pub open spec fn new_context_freq(cf: int, s0: int) -> int {
    if 2 * cf <= s0 {
        if 5 * cf > s0 {
            2
        } else {
            1
        }
    } else if s0 == 0 {
        1 + cf
    } else {
        1 + (cf + 2 * s0 - 3) / s0
    }
}

/// Computes `new_context_freq`.
pub fn new_context_freq_exec(cf: u32, s0: u32) -> (r: u32)
    requires
        cf <= 255,
    ensures
        r == new_context_freq(cf as int, s0 as int),
{
    if 2 * cf <= s0 {
        if 5 * cf > s0 {
            2
        } else {
            1
        }
    } else if s0 == 0 {
        1 + cf
    } else {
        1 + (cf + 2 * s0 - 3) / s0
    }
}

/// The frequency given to a symbol that a context gains, and the context's
/// new frequency sum, from its frequency sum `sum`, the rest `s0` of the
/// frequency sum of the coding context and the frequency `f_freq` of the
/// symbol there (all in 32-bit wrapping arithmetic).
pub open spec fn added_symbol_freq(sum: u32, s0: u32, f_freq: u32) -> (u32, u32) {
    let cf = crate::range8::wmul(crate::range8::wmul(2, crate::range8::wadd(sum, 6)), f_freq);
    let sf = crate::range8::wadd(s0, sum);
    if cf < crate::range8::wmul(6, sf) {
        let f = 1 + (if cf > sf { 1u32 } else { 0u32 }) + (if cf >= crate::range8::wmul(4, sf) { 1u32 } else { 0u32 });
        (f as u32, crate::range8::wadd(sum, 4))
    } else {
        let f = 4 + (if cf > crate::range8::wmul(9, sf) { 1u32 } else { 0u32 }) + (if cf > crate::range8::wmul(12, sf) { 1u32 } else { 0u32 })
            + (if cf > crate::range8::wmul(15, sf) { 1u32 } else { 0u32 });
        (f as u32, crate::range8::wadd(sum, f as u32))
    }
}

/// Computes `added_symbol_freq`.
pub fn added_symbol_freq_exec(sum: u32, s0: u32, f_freq: u32) -> (r: (u32, u32))
    ensures
        r == added_symbol_freq(sum, s0, f_freq),
        1 <= r.0 <= 7,
{
    let a = sum.wrapping_add(6);
    let b = 2u32.wrapping_mul(a);
    let cf = b.wrapping_mul(f_freq);
    let sf = s0.wrapping_add(sum);
    let sf4 = 4u32.wrapping_mul(sf);
    let sf6 = 6u32.wrapping_mul(sf);
    let sf9 = 9u32.wrapping_mul(sf);
    let sf12 = 12u32.wrapping_mul(sf);
    let sf15 = 15u32.wrapping_mul(sf);
    if cf < sf6 {
        let f: u32 = 1 + (if cf > sf { 1u32 } else { 0u32 }) + (if cf >= sf4 { 1u32 } else { 0u32 });
        (f, sum.wrapping_add(4))
    } else {
        let f: u32 = 4 + (if cf > sf9 { 1u32 } else { 0u32 }) + (if cf > sf12 { 1u32 } else { 0u32 })
            + (if cf > sf15 { 1u32 } else { 0u32 });
        (f, sum.wrapping_add(f))
    }
}

/// A SEE context after it estimated an escape: the estimate is
/// `summ >> shift` (at least 1) and the sum loses it.
pub open spec fn see_estimate(see: See) -> (See, u32) {
    let r = (see.summ as int / vstd::arithmetic::power2::pow2(see.shift as nat) as int) as u32;
    (See { summ: (see.summ - r) as u16, shift: see.shift, count: see.count }, if r == 0 { 1u32 } else { r })
}

/// Computes `see_estimate`.
pub fn see_estimate_exec(see: See) -> (r: (See, u32))
    ensures
        r == see_estimate(see),
{
    let summ = see.summ as u32;
    let shift = see.shift as u32;
    let r: u32 = if shift >= 32 { 0 } else { summ >> shift };
    proof {
        vstd::arithmetic::power2::lemma_pow2_pos(see.shift as nat);
        if shift < 32 {
            vstd::bits::lemma_u32_shr_is_div(summ, shift);
        } else {
            vstd::arithmetic::power2::lemma_pow2_strictly_increases(16, see.shift as nat);
            vstd::arithmetic::power2::lemma2_to64();
            assert(summ < vstd::arithmetic::power2::pow2(see.shift as nat));
            vstd::arithmetic::div_mod::lemma_basic_div(summ as int, vstd::arithmetic::power2::pow2(see.shift as nat) as int);
        }
        assert(r <= summ) by {
            vstd::arithmetic::div_mod::lemma_div_is_ordered_by_denominator(summ as int, 1, vstd::arithmetic::power2::pow2(see.shift as nat) as int);
        }
    }
    let new_see = See { summ: (summ - r) as u16, shift: see.shift, count: see.count };
    (new_see, if r == 0 { 1 } else { r })
}

/// A SEE context after the symbol it estimated the escape for was found:
/// while the shift is below 7 the countdown runs, and when it runs out the
/// sum doubles, the shift grows by one and the countdown restarts at
/// `3 << old_shift`.
pub open spec fn see_after_hit(see: See) -> See {
    if see.shift < 7 {
        let count = ((see.count as int - 1) % 256) as u8;
        if count == 0 {
            See {
                summ: ((see.summ as int * 2) % 0x1_0000) as u16,
                shift: (see.shift + 1) as u8,
                count: ((3 * vstd::arithmetic::power2::pow2(see.shift as nat)) % 256) as u8,
            }
        } else {
            See { summ: see.summ, shift: see.shift, count }
        }
    } else {
        see
    }
}

/// A SEE context after an escape that added `total` to its sum, wrapping
/// at 16 bits.
pub open spec fn see_after_escape(see: See, total: u32) -> See {
    See { summ: ((see.summ as int + total as int) % 0x1_0000) as u16, shift: see.shift, count: see.count }
}

/// Computes `see_after_hit`.
pub fn see_after_hit_exec(see: See) -> (r: See)
    ensures
        r == see_after_hit(see),
{
    if see.shift < 7 {
        let count = see.count.wrapping_sub(1);
        if count == 0 {
            let sh = see.shift;
            proof {
                vstd::arithmetic::power2::lemma2_to64();
                vstd::bits::lemma_u32_shl_is_mul(3, sh as u32);
                assert(3 * vstd::arithmetic::power2::pow2(sh as nat) <= 3 * 64);
            }
            let summ = see.summ as u32;
            proof {
                assert(((summ << 1u32) as u16) == ((summ as int * 2) % 0x1_0000) as u16) by (bit_vector)
                    requires summ < 0x1_0000;
            }
            See { summ: (summ << 1u32) as u16, shift: sh + 1, count: (3u32 << (sh as u32)) as u8 }
        } else {
            See { summ: see.summ, shift: see.shift, count }
        }
    } else {
        see
    }
}

/// A secondary escape estimation context.
#[derive(Copy, Clone)]
pub struct See {
    /// The adaptive sum of escape frequencies.
    pub summ: u16,
    /// The scale of the sum.
    pub shift: u8,
    /// The countdown to the next scale change.
    pub count: u8,
}

/// The flag bit of a symbol: set for symbols `0x40` and above.
pub open spec fn symbol_flag(sym: u8) -> u8 {
    if sym >= 0x40 {
        8
    } else {
        0
    }
}

/// The flag bit 3 of a symbol: `((sym + 0xC0) >> 5) & 8`.
pub fn symbol_flag_exec(sym: u8) -> (r: u8)
    ensures
        r == symbol_flag(sym),
{
    let x: u32 = sym as u32 + 0xC0;
    proof {
        assert(((x >> 5u32) & 8u32) == (if x >= 0x100 { 8u32 } else { 0u32 })) by (bit_vector)
            requires
                x < 0x200,
        ;
    }
    ((x >> 5u32) & 8u32) as u8
}

/// The flag bit 4 of a symbol, set for symbols `0x40` and above.
pub fn symbol_flag_high(sym: u8) -> (r: u8)
    ensures
        r == 2 * symbol_flag(sym),
{
    let x: u32 = sym as u32 + 0xC0;
    proof {
        assert(((x >> 4u32) & 0x10u32) == (if x >= 0x100 { 0x10u32 } else { 0u32 })) by (bit_vector)
            requires
                x < 0x200,
        ;
    }
    ((x >> 4u32) & 0x10u32) as u8
}

/// The context at `mc` is the root context of a restarted model: it holds
/// the 256 symbols (255 more than one), each once, with frequency sum 257,
/// no flags, its symbol list at `s`, and no suffix.
pub open spec fn root_context8(mem: Seq<u8>, mc: int, s: int) -> bool {
    &&& byte_at(mem, mc) == 255
    &&& byte_at(mem, mc + 1) == 0
    &&& u16_at(mem, mc + 2) == 257
    &&& u32_at(mem, mc + 4) == s
    &&& u32_at(mem, mc + 8) == 0
    &&& forall|j: int| 0 <= j < 256 ==> #[trigger] initial_state_at(mem, s, j)
}

/// The header that a restart writes at `mc` reads back as written.
#[verifier::rlimit(60)]
proof fn lemma_root_header8(m0: Seq<u8>, mc: int, s: u32)
    requires
        0 <= mc,
        mc + 12 <= m0.len(),
        m0.len() <= 0x1_0000_0000,
    ensures
        ({
            let h = put_u32(
                put_u32(put_u16(put_byte(put_byte(m0, mc + 1, 0), mc, 255), mc + 2, 257), mc + 4, s),
                mc + 8,
                0,
            );
            &&& h.len() == m0.len()
            &&& h[mc] == 255
            &&& h[mc + 1] == 0
            &&& u16_at(h, mc + 2) == 257
            &&& u32_at(h, mc + 4) == s
            &&& u32_at(h, mc + 8) == 0
        }),
{
    let ma = put_byte(m0, mc + 1, 0);
    assert(ma.len() == m0.len() && ma[mc + 1] == 0);
    let m1 = put_byte(ma, mc, 255);
    assert(m1.len() == m0.len() && m1[mc] == 255 && m1[mc + 1] == 0);
    let m2 = put_u16(m1, mc + 2, 257);
    let m3 = put_u32(m2, mc + 4, s);
    let h = put_u32(m3, mc + 8, 0);
    lemma_u16_read_back(m1, mc + 2, 257);
    lemma_u32_read_back(m2, mc + 4, s);
    lemma_u32_read_back(m3, mc + 8, 0);
    assert(h[mc] == m1[mc] && h[mc + 1] == m1[mc + 1]);
    assert(h[mc + 2] == m2[mc + 2] && h[mc + 3] == m2[mc + 3]);
    assert(h[mc + 4] == m3[mc + 4] && h[mc + 5] == m3[mc + 5] && h[mc + 6] == m3[mc + 6] && h[mc + 7] == m3[mc
        + 7]);
}

/// An arena that agrees with `h` on the header at `mc`, where `h` holds the
/// root context's header, and holds the 256 initial states at `s`, holds the
/// root context.
proof fn lemma_root_final8(m: Seq<u8>, h: Seq<u8>, mc: int, s: int)
    requires
        root_fits(m.len() as int, mc, s),
        h.len() == m.len(),
        forall|k: int| mc <= k < mc + 12 ==> #[trigger] m[k] == h[k],
        forall|j: int| 0 <= j < 256 ==> #[trigger] initial_state_at(m, s, j),
        h[mc] == 255 && h[mc + 1] == 0 && u16_at(h, mc + 2) == 257 && u32_at(h, mc + 4) == s && u32_at(h, mc + 8)
            == 0,
    ensures
        root_context8(m, mc, s),
{
    assert(m[mc] == h[mc] && m[mc + 1] == h[mc + 1]);
    assert(m[mc + 2] == h[mc + 2] && m[mc + 3] == h[mc + 3]);
    assert(m[mc + 4] == h[mc + 4] && m[mc + 5] == h[mc + 5] && m[mc + 6] == h[mc + 6] && m[mc + 7] == h[mc + 7]);
    assert(m[mc + 8] == h[mc + 8] && m[mc + 9] == h[mc + 9] && m[mc + 10] == h[mc + 10] && m[mc + 11] == h[mc + 11]);
}

/// Writes the root context of a restarted model at `mc`: all 256 symbols,
/// each once with frequency 1, frequency sum 257, no flags, no suffix, and
/// its symbol list at `s`.
fn init_root8(mem: &mut Arena, mc: u32, s: u32)
    ensures
        final(mem)@.len() == old(mem)@.len(),
        root_fits(old(mem)@.len() as int, mc as int, s as int) ==> root_context8(final(mem)@, mc as int, s as int),
{
    let ghost fits = root_fits(old(mem)@.len() as int, mc as int, s as int);
    let ghost m0 = mem@;
    set_flags(mem, mc, 0);
    set_num_stats(mem, mc, 255);
    set_summ_freq(mem, mc, 257);
    set_stats(mem, mc, s);
    set_suffix(mem, mc, 0);
    let ghost h = mem@;
    proof {
        if fits {
            assert(wadd(mc, 1) == mc + 1);
            assert(wadd(mc, 2) == mc + 2);
            assert(wadd(mc, 4) == mc + 4);
            assert(wadd(mc, 8) == mc + 8);
            lemma_root_header8(m0, mc as int, s);
        }
    }
    let mut i: u32 = 0;
    while i < 256
        invariant
            i <= 256,
            mem@.len() == old(mem)@.len(),
            h.len() == old(mem)@.len(),
            fits == root_fits(old(mem)@.len() as int, mc as int, s as int),
            fits ==> forall|k: int| mc <= k < mc + 12 ==> #[trigger] mem@[k] == h[k],
            fits ==> forall|j: int| 0 <= j < i ==> #[trigger] initial_state_at(mem@, s as int, j),
            fits ==> h[mc as int] == 255 && h[mc + 1] == 0 && u16_at(h, mc + 2) == 257 && u32_at(h, mc + 4) == s
                && u32_at(h, mc + 8) == 0,
        decreases 256 - i,
    {
        let ghost before = mem@;
        let st = state_at(s, i);
        set_symbol(mem, st, i);
        set_freq(mem, st, 1);
        set_successor(mem, st, 0);
        proof {
            if fits {
                let o = s + 6 * i;
                assert(wmul(i, 6) == 6 * i);
                assert(st == o);
                assert(wadd(st, 1) == o + 1);
                assert(wadd(st, 2) == o + 2);
                lemma_state_write(before, o, i);
                assert forall|j: int| 0 <= j < i + 1 implies #[trigger] initial_state_at(mem@, s as int, j) by {
                    if j < i {
                        assert(initial_state_at(before, s as int, j));
                    }
                }
                assert forall|k: int| mc <= k < mc + 12 implies #[trigger] mem@[k] == h[k] by {
                    assert(before[k] == h[k]);
                }
            }
        }
        i = i + 1;
    }
    proof {
        if fits {
            lemma_root_final8(mem@, h, mc as int, s as int);
        }
    }
}

/// The SEE row of a context with `i + 1` symbols: `i` itself below 5, then
/// row `m` for `m - 4` sizes in a row.
pub open spec fn ns2index8_of(i: int) -> int {
    if i < 5 {
        i
    } else {
        tri_row(i - 5, 5, 4)
    }
}

/// A state `k` that holds `sym`, with none before it from `j` on, is the
/// first from `j` on that holds `sym`.
proof fn lemma_first_with_hit(m: Seq<u8>, sts: u32, sym: int, n: int, k: int, j: int)
    requires
        0 <= j <= k < n,
        state_symbol(m, sts, k) == sym,
        forall|i: int| j <= i < k ==> #[trigger] state_symbol(m, sts, i) != sym,
    ensures
        first_with(m, sts, sym, n, j) == k,
    decreases k - j,
{
    if j < k {
        lemma_first_with_hit(m, sts, sym, n, k, j + 1);
    }
}

/// The context at `c` gives the frequency that a new context inherits for
/// `sym`: it is binary, or its symbol list holds `sym`.
pub open spec fn inherits8(m: Seq<u8>, c: u32, sym: int) -> bool {
    let n = byte_at(m, c as int);
    n == 0 || crate::coder7::first_with(m, u32_at(m, wadd(c, 4) as int) as u32, sym, n + 1, 0) < n + 1
}

/// The frequency that a new one-symbol context gets for `sym` from its
/// parent at `c`: the parent's own frequency when it is binary, else
/// `new_context_freq` of the symbol's count `cf` (its frequency less one)
/// and the rest `s0` of the parent's frequency sum.
pub open spec fn inherited_freq8(m: Seq<u8>, c: u32, sym: int) -> int {
    let n = byte_at(m, c as int);
    if n == 0 {
        byte_at(m, wadd(c, 3) as int)
    } else {
        let sts = u32_at(m, wadd(c, 4) as int) as u32;
        let k = crate::coder7::first_with(m, sts, sym, n + 1, 0);
        let f0 = crate::coder7::state_freq(m, sts, k);
        let cf: u32 = if f0 == 0 {
            0
        } else {
            (f0 - 1) as u32
        };
        let s0 = crate::range8::wsub(crate::range8::wsub(u16_at(m, wadd(c, 2) as int) as u32, n as u32), cf);
        new_context_freq(cf as int, s0 as int)
    }
}

/// The PPMd8 model.
pub struct Ppmd8 {
    pub(crate) mem: Arena,
    pub(crate) tables: UnitTables,
    pub(crate) ns2index: Vec<u8>,
    pub(crate) ns2bs_index: Vec<u8>,
    pub(crate) free_list: Vec<u32>,
    pub(crate) stamps: Vec<u32>,
    pub(crate) see: Vec<See>,
    pub(crate) dummy_see: See,
    pub(crate) bin_summ: Vec<u16>,
    pub(crate) min_context: u32,
    pub(crate) max_context: u32,
    pub(crate) found_state: u32,
    pub(crate) order_fall: u32,
    pub(crate) init_esc: u32,
    pub(crate) prev_success: u32,
    pub(crate) max_order: u32,
    pub(crate) restore_method: RestoreMethod,
    pub(crate) run_length: i32,
    pub(crate) init_rl: i32,
    pub(crate) size: u32,
    pub(crate) glue_count: u32,
    pub(crate) align_offset: u32,
    pub(crate) lo_unit: u32,
    pub(crate) hi_unit: u32,
    pub(crate) text: u32,
    pub(crate) units_start: u32,
}

/// The wrapping sum, over the first `k` size classes, of the stamp of each
/// class times its number of units.
pub(crate) open spec fn stamped_units(stamps: Seq<u32>, k: int) -> u32
    decreases k,
{
    if k <= 0 {
        0
    } else {
        wadd(stamped_units(stamps, k - 1), wmul(stamps[k - 1], class_units((k - 1) as u32)))
    }
}

/// Where a walk from `node` over empty blocks ends: each empty block has its
/// stamp cleared and the walk goes on past its units, for at most `fuel`
/// blocks.
pub(crate) open spec fn empty_run_end(mem: Seq<u8>, node: u32, fuel: nat) -> u32
    decreases fuel,
{
    if fuel == 0 || u32_at(mem, node as int) != EMPTY_NODE {
        node
    } else {
        empty_run_end(
            put_u32(mem, node as int, 0),
            wadd(node, wmul(u32_at(mem, wadd(node, 8) as int) as u32, UNIT_SIZE)),
            (fuel - 1) as nat,
        )
    }
}

/// From `i` on, the first position below `lim` whose entry `t[i + off]` is
/// not `v`, or `lim`.
pub open spec fn run_end(t: Seq<u8>, v: int, i: int, lim: int, off: int) -> int
    decreases lim - i,
{
    if i >= lim || t[i + off] != v {
        i
    } else {
        run_end(t, v, i + 1, lim, off)
    }
}

/// Where the run of the entries of the size-to-index table `t` equal to `m`
/// ends, the runs of the rows before it taken in turn.
pub open spec fn bin_row_bound(t: Seq<u8>, m: int) -> int
    decreases m,
{
    run_end(
        t,
        m,
        if m <= 0 {
            0
        } else {
            bin_row_bound(t, m - 1)
        },
        260,
        0,
    )
}

/// Where the run of the entries `t[i + 3]` equal to `m + 3` ends, the runs
/// of the rows before it taken in turn.
pub open spec fn see_row_bound(t: Seq<u8>, m: int) -> int
    decreases m,
{
    run_end(
        t,
        m + 3,
        if m <= 0 {
            0
        } else {
            see_row_bound(t, m - 1)
        },
        257,
        3,
    )
}

/// The initial probability of the binary context at `x` of the table: the
/// column's escape estimate `x % 8`, scaled down by where the run of the row
/// `x / 64` ends in the size-to-index table `t`.
pub open spec fn initial_bin_prob(t: Seq<u8>, x: int) -> u16 {
    (PPMD_BIN_SCALE as int - init_bin_esc_of((x % 8) as u32) as int / (bin_row_bound(t, x / 64) + 1)) as u16
}

/// The initial SEE context at `x` of the table: where the run of its row
/// `x / 32` ends in the size-to-index table `t` sets the sum.
pub open spec fn initial_see(t: Seq<u8>, x: int) -> See {
    See { summ: (8 * (2 * see_row_bound(t, x / 32) + 5)) as u16, shift: 3, count: 7 }
}

/// `a + b` on arena offsets, wrapping as pointer arithmetic on a 32-bit
/// arena does.
pub(crate) fn at(a: u32, b: u32) -> (r: u32)
    ensures
        r == wadd(a, b),
{
    a.wrapping_add(b)
}

/// Sets `v[i]` to `x` when `i` is an index of `v`.
pub(crate) fn vset32(v: &mut Vec<u32>, i: u32, x: u32)
    ensures
        final(v)@.len() == old(v)@.len(),
        (i as int) < old(v)@.len() ==> final(v)@ == old(v)@.update(i as int, x),
        (i as int) >= old(v)@.len() ==> final(v)@ == old(v)@,
{
    if (i as usize) < v.len() {
        v.set(i as usize, x);
    }
}

/// Sets `v[i]` to `x` when `i` is an index of `v`.
pub(crate) fn vset16(v: &mut Vec<u16>, i: u32, x: u16)
    ensures
        final(v)@.len() == old(v)@.len(),
        (i as int) < old(v)@.len() ==> final(v)@ == old(v)@.update(i as int, x),
        (i as int) >= old(v)@.len() ==> final(v)@ == old(v)@,
{
    if (i as usize) < v.len() {
        v.set(i as usize, x);
    }
}

/// Adds `x` to (or, when `!up`, subtracts it from) `v[i]`, wrapping.
pub(crate) fn vadd32(v: &mut Vec<u32>, i: u32, x: u32, up: bool)
    ensures
        final(v)@.len() == old(v)@.len(),
        (i as int) < old(v)@.len() ==> final(v)@ == old(v)@.update(
            i as int,
            if up {
                wadd(old(v)@[i as int], x)
            } else {
                crate::range8::wsub(old(v)@[i as int], x)
            },
        ),
        (i as int) >= old(v)@.len() ==> final(v)@ == old(v)@,
{
    if (i as usize) < v.len() {
        let o = v[i as usize];
        let n = if up {
            o.wrapping_add(x)
        } else {
            o.wrapping_sub(x)
        };
        v.set(i as usize, n);
    }
}

/// The number of symbols less one of the context at `c`.
pub(crate) fn num_stats(m: &Arena, c: u32) -> (r: u32)
    ensures
        r == byte_at(m@, c as int),
        r < 256,
{
    m.rd8(c) as u32
}

pub(crate) fn set_num_stats(m: &mut Arena, c: u32, v: u32)
    ensures
        final(m)@ == put_byte(old(m)@, c as int, v as u8),
{
    m.wr8(c, v as u8);
}

/// The flags of the context at `c`.
pub(crate) fn flags(m: &Arena, c: u32) -> (r: u32)
    ensures
        r == byte_at(m@, wadd(c, 1) as int),
        r < 256,
{
    m.rd8(at(c, 1)) as u32
}

pub(crate) fn set_flags(m: &mut Arena, c: u32, v: u32)
    ensures
        final(m)@ == put_byte(old(m)@, wadd(c, 1) as int, v as u8),
{
    m.wr8(at(c, 1), v as u8);
}

/// The frequency sum of the context at `c`.
pub(crate) fn summ_freq(m: &Arena, c: u32) -> (r: u32)
    ensures
        r == u16_at(m@, wadd(c, 2) as int),
        r < 0x1_0000,
{
    m.rd16(at(c, 2)) as u32
}

pub(crate) fn set_summ_freq(m: &mut Arena, c: u32, v: u32)
    ensures
        final(m)@ == put_u16(old(m)@, wadd(c, 2) as int, v as u16),
{
    m.wr16(at(c, 2), v as u16);
}

/// The offset of the symbol list of the context at `c`.
pub(crate) fn stats(m: &Arena, c: u32) -> (r: u32)
    ensures
        r == u32_at(m@, wadd(c, 4) as int),
{
    m.rd32(at(c, 4))
}

pub(crate) fn set_stats(m: &mut Arena, c: u32, v: u32)
    ensures
        final(m)@ == put_u32(old(m)@, wadd(c, 4) as int, v),
{
    m.wr32(at(c, 4), v);
}

/// The offset of the suffix of the context at `c`.
pub(crate) fn suffix(m: &Arena, c: u32) -> (r: u32)
    ensures
        r == u32_at(m@, wadd(c, 8) as int),
{
    m.rd32(at(c, 8))
}

pub(crate) fn set_suffix(m: &mut Arena, c: u32, v: u32)
    ensures
        final(m)@ == put_u32(old(m)@, wadd(c, 8) as int, v),
{
    m.wr32(at(c, 8), v);
}

/// The state of a context with one symbol, which lies inside the context.
pub(crate) fn one_state(c: u32) -> (r: u32)
    ensures
        r == wadd(c, 2),
{
    at(c, 2)
}

/// The symbol of the state at `s`.
pub(crate) fn symbol(m: &Arena, s: u32) -> (r: u32)
    ensures
        r == byte_at(m@, s as int),
        r < 256,
{
    m.rd8(s) as u32
}

pub(crate) fn set_symbol(m: &mut Arena, s: u32, v: u32)
    ensures
        final(m)@ == put_byte(old(m)@, s as int, v as u8),
{
    m.wr8(s, v as u8);
}

/// The frequency of the state at `s`.
pub(crate) fn freq(m: &Arena, s: u32) -> (r: u32)
    ensures
        r == byte_at(m@, wadd(s, 1) as int),
        r < 256,
{
    m.rd8(at(s, 1)) as u32
}

pub(crate) fn set_freq(m: &mut Arena, s: u32, v: u32)
    ensures
        final(m)@ == put_byte(old(m)@, wadd(s, 1) as int, v as u8),
{
    m.wr8(at(s, 1), v as u8);
}

/// The successor of the state at `s`.
pub(crate) fn successor(m: &Arena, s: u32) -> (r: u32)
    ensures
        r == u32_at(m@, wadd(s, 2) as int),
{
    m.rd32(at(s, 2))
}

pub(crate) fn set_successor(m: &mut Arena, s: u32, v: u32)
    ensures
        final(m)@ == put_u32(old(m)@, wadd(s, 2) as int, v),
{
    m.wr32(at(s, 2), v);
}

/// The `i`-th state of the list at `stats`.
pub(crate) fn state_at(stats: u32, i: u32) -> (r: u32)
    ensures
        r == wadd(stats, wmul(i, 6)),
{
    at(stats, i.wrapping_mul(6))
}

/// Every binary-context probability lies strictly inside the binary scale.
pub open spec fn bin_probs_in_scale(probs: Seq<u16>) -> bool {
    forall|i: int| 0 <= i < probs.len() ==> 0 < #[trigger] probs[i] < PPMD_BIN_SCALE
}

impl Ppmd8 {
    /// The tables have their sizes and contents.
    pub(crate) open spec fn wf(&self) -> bool {
        &&& self.tables.wf()
        &&& self.ns2index@.len() == 260
        &&& self.ns2index@[0] == 0
        &&& bin_probs_in_scale(self.bin_summ@)
        &&& self.ns2bs_index@.len() == 256
        &&& self.free_list@.len() == NUM_INDEXES
        &&& self.stamps@.len() == NUM_INDEXES
        &&& self.see@.len() == 768
        &&& self.bin_summ@.len() == 1600
        &&& self.max_order <= 255
    }

    /// The arena of the model.
    pub closed spec fn memory(&self) -> Seq<u8> {
        self.mem@
    }

    /// The highest order of the model.
    pub closed spec fn order(&self) -> u32 {
        self.max_order
    }

    /// The memory size of the model.
    pub closed spec fn mem_size(&self) -> u32 {
        self.size
    }

    /// The restore method of the model.
    pub closed spec fn restore(&self) -> RestoreMethod {
        self.restore_method
    }

    /// The parameters that the model was made with are those of `other`.
    pub(crate) open spec fn same_params(&self, other: Self) -> bool {
        &&& self.max_order == other.max_order
        &&& self.size == other.size
        &&& self.restore_method == other.restore_method
    }

    /// Every field but the SEE contexts is that of `other`.
    pub(crate) open spec fn same_but_see(&self, other: Self) -> bool {
        *self == (Ppmd8 { see: self.see, dummy_see: self.dummy_see, ..other })
    }

    /// Every field but the binary-context probabilities is that of `other`.
    pub(crate) open spec fn same_but_bin(&self, other: Self) -> bool {
        *self == (Ppmd8 { bin_summ: self.bin_summ, ..other })
    }

    /// Every field but the arena and the free lists is that of `other`.
    pub(crate) open spec fn same_but_lists(&self, other: Self) -> bool {
        *self == (Ppmd8 { mem: self.mem, free_list: self.free_list, stamps: self.stamps, ..other })
    }

    /// The model is in its initial state, that of a restart: one context of
    /// order 0 that holds every symbol once (where the arena has room for
    /// it), the scalar state and free lists that `restarted` gives for the
    /// model's own parameters, and the initial probability and SEE tables.
    pub(crate) open spec fn is_initial(&self) -> bool {
        &&& self.restarted(*self)
        &&& root_fits(self.mem@.len() as int, self.min_context as int, self.found_state as int) ==> root_context8(
            self.mem@,
            self.min_context as int,
            self.found_state as int,
        )
        &&& forall|x: int| 0 <= x < 1600 ==> #[trigger] self.bin_summ@[x] == initial_bin_prob(self.ns2index@, x)
        &&& forall|x: int| 0 <= x < 768 ==> #[trigger] self.see@[x] == initial_see(self.ns2index@, x)
    }

    /// The adaptive statistics that a cut-off keeps and a restart resets
    /// are those of `other`: the binary-context probabilities, the SEE
    /// contexts and the run length.
    pub(crate) open spec fn keeps_adaptive(&self, other: Self) -> bool {
        &&& self.bin_summ == other.bin_summ
        &&& self.see == other.see
        &&& self.dummy_see == other.dummy_see
        &&& self.run_length == other.run_length
    }

    /// The number of bytes of the arena that the model uses: all but the
    /// free gap between the units, the free room between the text and the
    /// units, and the units on the free lists.
    pub(crate) open spec fn used_memory(&self) -> u32 {
        crate::range8::wsub(
            crate::range8::wsub(
                crate::range8::wsub(self.size, crate::range8::wsub(self.hi_unit, self.lo_unit)),
                crate::range8::wsub(self.units_start, self.text),
            ),
            wmul(stamped_units(self.stamps@, NUM_INDEXES as int), UNIT_SIZE),
        )
    }

    /// The allocator's state and the scalar fields are those of `other`.
    pub(crate) open spec fn same_scalars(&self, other: Self) -> bool {
        *self == (Ppmd8 { mem: self.mem, see: self.see, dummy_see: self.dummy_see, bin_summ: self.bin_summ, ..other })
    }

    /// The scalar state and the free lists of `self` are those that a restart
    /// of `prev` sets up: the text area starts at the aligned start of the
    /// arena, the units area takes the top seven eighths, the root context
    /// lies in the top unit with its 256 states in the first 128 units, and
    /// every free list is empty.
    pub(crate) open spec fn restarted(&self, prev: Self) -> bool {
        let hi0 = wadd(prev.align_offset, prev.size);
        let us = crate::range8::wsub(hi0, (prev.size / 8 / UNIT_SIZE * 7 * UNIT_SIZE) as u32);
        let rl: int = if prev.max_order < 12 {
            prev.max_order as int
        } else {
            12
        };
        &&& self.align_offset == prev.align_offset
        &&& self.text == prev.align_offset
        &&& self.units_start == us
        &&& self.hi_unit == crate::range8::wsub(hi0, UNIT_SIZE)
        &&& self.lo_unit == wadd(us, 1536)
        &&& self.glue_count == 0
        &&& self.order_fall == prev.max_order
        &&& self.init_rl == -rl - 1
        &&& self.run_length == self.init_rl
        &&& self.prev_success == 0
        &&& self.min_context == self.hi_unit
        &&& self.max_context == self.hi_unit
        &&& self.found_state == us
        &&& forall|i: int| 0 <= i < NUM_INDEXES ==> #[trigger] self.free_list@[i] == 0
        &&& forall|i: int| 0 <= i < NUM_INDEXES ==> #[trigger] self.stamps@[i] == 0
        &&& self.dummy_see == (See { summ: 0, shift: 7, count: 64 })
    }

    /// Every field but the arena, the free lists and the found state is that
    /// of `other`.
    pub(crate) open spec fn same_but_alloc(&self, other: Self) -> bool {
        *self == (Ppmd8 { mem: self.mem, free_list: self.free_list, stamps: self.stamps, found_state: self.found_state, ..other })
    }

    /// Every field but the arena, the free lists and the glue countdown is
    /// that of `other`.
    pub(crate) open spec fn same_but_glue(&self, other: Self) -> bool {
        *self == (Ppmd8 { mem: self.mem, free_list: self.free_list, stamps: self.stamps, glue_count: self.glue_count, ..other })
    }

    /// Every field but the arena is that of `other`.
    pub(crate) open spec fn same_but_mem(&self, other: Self) -> bool {
        *self == (Ppmd8 { mem: self.mem, ..other })
    }

    /// The memory size of the model.
    pub(crate) fn memory_size(&self) -> (r: u32)
        ensures
            r == self.mem_size(),
            r == self.size,
    {
        self.size
    }

    // ----- table access -----

    pub(crate) fn ns2idx(&self, n: u32) -> (r: u32)
        requires
            self.wf(),
        ensures
            n < 260 ==> r == self.ns2index@[n as int],
            n >= 260 ==> r == 0,
    {
        if n < 260 {
            self.ns2index[n as usize] as u32
        } else {
            0
        }
    }

    pub(crate) fn ns2bs(&self, n: u32) -> (r: u32)
        requires
            self.wf(),
        ensures
            n < 256 ==> r == self.ns2bs_index@[n as int],
            n >= 256 ==> r == 0,
    {
        if n < 256 {
            self.ns2bs_index[n as usize] as u32
        } else {
            0
        }
    }

    fn fl_get(&self, i: u32) -> (r: u32)
        requires
            self.wf(),
        ensures
            i < NUM_INDEXES ==> r == self.free_list@[i as int],
            i >= NUM_INDEXES ==> r == 0,
    {
        if i < NUM_INDEXES {
            self.free_list[i as usize]
        } else {
            0
        }
    }

    fn see_get(&self, i: u32) -> (r: See)
        requires
            self.wf(),
        ensures
            i < 768 ==> r == self.see@[i as int],
            i >= 768 ==> r == self.dummy_see,
    {
        if i < 768 {
            self.see[i as usize]
        } else {
            self.dummy_see
        }
    }

    fn see_set(&mut self, i: u32, v: See)
        requires
            old(self).wf(),
        ensures
            final(self).wf(),
            final(self).same_params(*old(self)),
            final(self).same_but_tables(*old(self)),
            final(self).same_but_see(*old(self)),
            i < 768 ==> final(self).see@ == old(self).see@.update(i as int, v)
                && final(self).dummy_see == old(self).dummy_see,
            i >= 768 ==> final(self).see@ == old(self).see@ && final(self).dummy_see == v,
    {
        if i < 768 {
            self.see.set(i as usize, v);
        } else {
            self.dummy_see = v;
        }
    }

    pub(crate) fn bs_get(&self, i: u32) -> (r: u16)
        requires
            self.wf(),
        ensures
            r < PPMD_BIN_SCALE,
            i < 1600 ==> 0 < r,
            i < 1600 ==> r == self.bin_summ@[i as int],
            i >= 1600 ==> r == 0,
    {
        if i < 1600 {
            self.bin_summ[i as usize]
        } else {
            0
        }
    }

    pub(crate) fn bs_set(&mut self, i: u32, v: u16)
        requires
            old(self).wf(),
            i < 1600 ==> 0 < v < PPMD_BIN_SCALE,
        ensures
            final(self).wf(),
            final(self).same_params(*old(self)),
            final(self).same_but_bin(*old(self)),
            i < 1600 ==> final(self).bin_summ@ == old(self).bin_summ@.update(i as int, v),
            i >= 1600 ==> final(self).bin_summ@ == old(self).bin_summ@,
    {
        vset16(&mut self.bin_summ, i, v);
    }

    /// The arena and the scalar state are those of `other`.
    pub closed spec fn same_but_tables(&self, other: Ppmd8) -> bool {
        *self == (Ppmd8 {
            tables: self.tables,
            ns2index: self.ns2index,
            ns2bs_index: self.ns2bs_index,
            free_list: self.free_list,
            stamps: self.stamps,
            see: self.see,
            dummy_see: self.dummy_see,
            bin_summ: self.bin_summ,
            ..other
        })
    }

    /// Exchanges the 6-byte state records at `a` and `b`.
    fn swap_states(&mut self, a: u32, b: u32)
        requires
            old(self).wf(),
        ensures
            final(self).wf(),
            final(self).same_params(*old(self)),
            final(self).same_but_mem(*old(self)),
            final(self).mem@.len() == old(self).mem@.len(),
            disjoint_records(old(self).mem@.len() as int, a as int, b as int, 6) ==> final(self).mem@
                == swapped(old(self).mem@, a as int, b as int, 6),
    {
        let ghost s0 = self.mem@;
        let sym = self.mem.rd8(a);
        let fr = self.mem.rd8(at(a, 1));
        let succ = self.mem.rd32(at(a, 2));
        self.mem.copy_within(b, a, 6);
        let ghost s1 = self.mem@;
        self.mem.wr8(b, sym);
        self.mem.wr8(at(b, 1), fr);
        self.mem.wr32(at(b, 2), succ);
        proof {
            if disjoint_records(s0.len() as int, a as int, b as int, 6) {
                lemma_copied_within_disjoint(s0, b, a, 6, 6);
                assert(s1[b as int] == s0[b as int]);
                assert(wadd(a, 1) == a + 1);
                assert(wadd(a, 2) == a + 2);
                assert(wadd(b, 1) == b + 1);
                assert(wadd(b, 2) == b + 2);
                assert((a + 3) % 0x1_0000_0000 == a + 3);
                assert((a + 4) % 0x1_0000_0000 == a + 4);
                assert((a + 5) % 0x1_0000_0000 == a + 5);
                assert((b + 3) % 0x1_0000_0000 == b + 3);
                assert((b + 4) % 0x1_0000_0000 == b + 4);
                assert((b + 5) % 0x1_0000_0000 == b + 5);
                lemma_u32_bytes(
                    s0[a + 2] as int,
                    s0[a + 3] as int,
                    s0[a + 4] as int,
                    s0[a + 5] as int,
                );
                assert(succ == s0[a + 2] as int + 256 * (s0[a + 3] as int + 256 * (s0[a + 4] as int + 256
                    * s0[a + 5] as int))) by (nonlinear_arith)
                    requires
                        succ == (s0[a + 2] as int + 256 * s0[a + 3] as int) + 65536 * (s0[a + 4] as int + 256
                            * s0[a + 5] as int),
                ;
                assert(self.mem@ =~= swapped(s0, a as int, b as int, 6));
            }
        }
    }

    /// The stamp of the free block at `n`.
    fn node_stamp(&self, n: u32) -> (r: u32)
        ensures
            r == u32_at(self.mem@, n as int),
    {
        self.mem.rd32(n)
    }

    /// The next block in the free list of the block at `n`.
    fn node_next(&self, n: u32) -> (r: u32)
        ensures
            r == u32_at(self.mem@, wadd(n, 4) as int),
    {
        self.mem.rd32(at(n, 4))
    }

    /// The number of units of the free block at `n`.
    fn node_nu(&self, n: u32) -> (r: u32)
        ensures
            r == u32_at(self.mem@, wadd(n, 8) as int),
    {
        self.mem.rd32(at(n, 8))
    }

    /// A bound on the length of any chain in the arena, and on the number
    /// of contexts a coding step walks through.
    pub(crate) fn walk_bound(&self) -> (r: u32)
        ensures
            r >= 2,
            r == self.size / UNIT_SIZE + 2,
    {
        self.size / UNIT_SIZE + 2
    }

    /// The index of the state of `sym` among the `count` states at `stats`;
    /// the last state when none holds it.
    fn find_symbol(&self, stats: u32, count: u32, sym: u32) -> (r: u32)
        requires
            self.wf(),
        ensures
            count == 0 ==> r == 0,
            count > 0 ==> r < count,
            forall|j: u32| j < r ==> #[trigger] byte_at(self.mem@, wadd(stats, wmul(j, 6)) as int) != sym,
            (count > 0 && byte_at(self.mem@, wadd(stats, wmul(r, 6)) as int) == sym) || (forall|j: u32|
                j < count ==> #[trigger] byte_at(self.mem@, wadd(stats, wmul(j, 6)) as int) != sym),
    {
        let mut i: u32 = 0;
        while i < count
            invariant
                i <= count,
                forall|j: u32| j < i ==> #[trigger] byte_at(self.mem@, wadd(stats, wmul(j, 6)) as int) != sym,
            decreases count - i,
        {
            if symbol(&self.mem, state_at(stats, i)) == sym {
                return i;
            }
            i = i + 1;
        }
        if count == 0 {
            0
        } else {
            count - 1
        }
    }

    // ----- allocator -----

    /// The head of the free list `indx`, and zero past the last list.
    pub closed spec fn list_head(&self, indx: u32) -> u32 {
        if indx < NUM_INDEXES {
            self.free_list@[indx as int]
        } else {
            0
        }
    }

    /// `self` is `prev` after the block at `node` went to the front of the
    /// free list `indx`: the block is marked empty and records the old head
    /// and its size, and the list's stamp counts one more block.
    pub closed spec fn inserted(&self, prev: Self, node: u32, indx: u32) -> bool {
        &&& self.same_but_lists(prev)
        &&& self.mem@ == put_u32(
            put_u32(put_u32(prev.mem@, node as int, EMPTY_NODE), wadd(node, 4) as int, prev.list_head(indx)),
            wadd(node, 8) as int,
            class_units(indx),
        )
        &&& indx < NUM_INDEXES ==> self.free_list@ == prev.free_list@.update(indx as int, node)
            && self.stamps@ == prev.stamps@.update(indx as int, wadd(prev.stamps@[indx as int], 1))
        &&& indx >= NUM_INDEXES ==> self.free_list@ == prev.free_list@ && self.stamps@ == prev.stamps@
    }

    /// `self` is `prev` after the front block `node` of the free list `indx`
    /// was taken off: the list starts at the block it linked to, and its
    /// stamp counts one block less.
    pub closed spec fn removed(&self, prev: Self, indx: u32, node: u32) -> bool {
        &&& self.same_but_lists(prev)
        &&& self.mem == prev.mem
        &&& node == prev.list_head(indx)
        &&& indx < NUM_INDEXES ==> self.free_list@ == prev.free_list@.update(
            indx as int,
            u32_at(prev.mem@, wadd(node, 4) as int) as u32,
        ) && self.stamps@ == prev.stamps@.update(
            indx as int,
            crate::range8::wsub(prev.stamps@[indx as int], 1),
        )
        &&& indx >= NUM_INDEXES ==> self.free_list@ == prev.free_list@ && self.stamps@ == prev.stamps@
    }

    /// Taking a block off the free list that it was just put on gives that
    /// block back and leaves the free lists as they were: the block, inside
    /// the arena, keeps the link to the list's old head.
    #[verifier::rlimit(40)]
    pub(crate) proof fn law_free_list_round_trip(m0: Self, m1: Self, m2: Self, node: u32, indx: u32, r: u32)
        requires
            m0.wf(),
            m1.inserted(m0, node, indx),
            m2.removed(m1, indx, r),
            indx < NUM_INDEXES,
            node as int + 12 <= m0.mem@.len() <= 0x1_0000_0000,
        ensures
            r == node,
            m2.free_list@ == m0.free_list@,
    {
        let head = m0.list_head(indx);
        let s1 = put_u32(m0.mem@, node as int, EMPTY_NODE);
        lemma_u32_read_back(m0.mem@, node as int, EMPTY_NODE);
        assert(wadd(node, 4) == node + 4);
        assert(wadd(node, 8) == node + 8);
        lemma_u32_read_back(s1, node + 4, head);
        let s2 = put_u32(s1, node + 4, head);
        lemma_u32_read_back(s2, node + 8, class_units(indx));
        let s3 = put_u32(s2, node + 8, class_units(indx));
        assert(u32_at(s3, node + 4) == u32_at(s2, node + 4));
        assert(m2.free_list@ =~= m0.free_list@);
    }

    fn insert_node(&mut self, node: u32, indx: u32)
        requires
            old(self).wf(),
        ensures
            final(self).wf(),
            final(self).same_params(*old(self)),
            final(self).inserted(*old(self), node, indx),
    {
        self.mem.wr32(node, EMPTY_NODE);
        let head = self.fl_get(indx);
        self.mem.wr32(at(node, 4), head);
        let nu = self.tables.units(indx);
        self.mem.wr32(at(node, 8), nu);
        vset32(&mut self.free_list, indx, node);
        vadd32(&mut self.stamps, indx, 1, true);
    }

    fn remove_node(&mut self, indx: u32) -> (r: u32)
        requires
            old(self).wf(),
        ensures
            final(self).wf(),
            final(self).same_params(*old(self)),
            final(self).removed(*old(self), indx, r),
    {
        let node = self.fl_get(indx);
        let next = self.node_next(node);
        vset32(&mut self.free_list, indx, next);
        vadd32(&mut self.stamps, indx, 1, false);
        node
    }

    /// `self` is `prev` after the tail of a block of class `old_indx` at
    /// `ptr`, past its first `new_indx`-class units, went to the free lists:
    /// whole when a class holds it exactly, else as the largest class that
    /// fits and the units left over.
    pub(crate) open spec fn split_off(&self, prev: Self, ptr: u32, old_indx: u32, new_indx: u32) -> bool {
        let nu = crate::range8::wsub(class_units(old_indx), class_units(new_indx));
        let p = wadd(ptr, (class_units(new_indx) * UNIT_SIZE) as u32);
        let i = class_of(nu as int) as u32;
        if class_units(i) == nu {
            self.inserted(prev, p, i)
        } else {
            let j = crate::range8::wsub(i, 1);
            let k = class_units(j);
            exists|mid: Self|
                #[trigger] mid.inserted(prev, wadd(p, (k * UNIT_SIZE) as u32), crate::range8::wsub(crate::range8::wsub(nu, k), 1))
                    && self.inserted(mid, p, j)
        }
    }

    fn split_block(&mut self, ptr: u32, old_indx: u32, new_indx: u32)
        requires
            old(self).wf(),
        ensures
            final(self).wf(),
            final(self).same_params(*old(self)),
            final(self).split_off(*old(self), ptr, old_indx, new_indx),
    {
        let ghost p0 = ptr;
        let nu = self.tables.units(old_indx).wrapping_sub(self.tables.units(new_indx));
        let ptr = at(ptr, self.tables.units(new_indx) * UNIT_SIZE);
        let mut i = self.tables.index(nu);
        if self.tables.units(i) != nu {
            i = i.wrapping_sub(1);
            let k = self.tables.units(i);
            self.insert_node(at(ptr, k * UNIT_SIZE), nu.wrapping_sub(k).wrapping_sub(1));
            let ghost mid = *self;
            self.insert_node(ptr, i);
            assert(mid.inserted(*old(self), wadd(ptr, (k * UNIT_SIZE) as u32), crate::range8::wsub(crate::range8::wsub(nu, k), 1)) && self.inserted(mid, ptr, i));
            assert(i == crate::range8::wsub(class_of(nu as int) as u32, 1));
            assert(class_units(class_of(nu as int) as u32) != nu);
            assert(ptr == wadd(p0, (class_units(new_indx) * UNIT_SIZE) as u32));
            assert(nu == crate::range8::wsub(class_units(old_indx), class_units(new_indx)));
        } else {
            self.insert_node(ptr, i);
        }
    }

    fn glue_free_blocks(&mut self)
        requires
            old(self).wf(),
        ensures
            final(self).wf(),
            final(self).same_params(*old(self)),
            final(self).same_but_glue(*old(self)),
            final(self).glue_count == 1u32 << 13,
    {
        let bound = self.walk_bound();
        let mut head: u32 = 0;
        self.glue_count = 1 << 13;
        let mut j: u32 = 0;
        while j < NUM_INDEXES
            invariant
                self.wf(),
                self.same_params(*old(self)),
                self.same_but_glue(*old(self)),
                self.glue_count == 1u32 << 13,
            decreases NUM_INDEXES - j,
        {
            self.stamps.set(j as usize, 0);
            j = j + 1;
        }
        if self.lo_unit != self.hi_unit {
            self.mem.wr32(self.lo_unit, 0);
        }
        // `prev` is either the local head (when `prev_local`) or the `next`
        // field of the node at `prev_node`.
        let mut prev_local = true;
        let mut prev_node: u32 = 0;
        let mut i: u32 = 0;
        while i < NUM_INDEXES
            invariant
                self.wf(),
                self.same_params(*old(self)),
                self.same_but_glue(*old(self)),
                self.glue_count == 1u32 << 13,
            decreases NUM_INDEXES - i,
        {
            let mut next = self.fl_get(i);
            vset32(&mut self.free_list, i, 0);
            let mut steps: u32 = 0;
            while next != 0 && steps < bound
                invariant
                    self.wf(),
                    self.same_params(*old(self)),
                    self.same_but_glue(*old(self)),
                    self.glue_count == 1u32 << 13,
                decreases bound - steps,
            {
                steps = steps + 1;
                let node = next;
                let mut nu = self.node_nu(node);
                if prev_local {
                    head = next;
                } else {
                    self.mem.wr32(at(prev_node, 4), next);
                }
                next = self.node_next(node);
                if nu != 0 {
                    prev_local = false;
                    prev_node = node;
                    let mut merges: u32 = 0;
                    while merges < bound
                        invariant
                            self.wf(),
                            self.same_params(*old(self)),
                            self.same_but_glue(*old(self)),
                            self.glue_count == 1u32 << 13,
                        decreases bound - merges,
                    {
                        merges = merges + 1;
                        let node2 = at(node, nu.wrapping_mul(UNIT_SIZE));
                        if self.node_stamp(node2) != EMPTY_NODE {
                            break;
                        }
                        nu = nu.wrapping_add(self.node_nu(node2));
                        self.mem.wr32(at(node2, 8), 0);
                        self.mem.wr32(at(node, 8), nu);
                    }
                }
            }
            i = i + 1;
        }
        if prev_local {
            head = 0;
        } else {
            self.mem.wr32(at(prev_node, 4), 0);
        }
        let mut n = head;
        let mut steps: u32 = 0;
        while n != 0 && steps < bound
            invariant
                self.wf(),
                self.same_params(*old(self)),
                self.same_but_glue(*old(self)),
                self.glue_count == 1u32 << 13,
            decreases bound - steps,
        {
            steps = steps + 1;
            let mut node = n;
            let mut nu = self.node_nu(node);
            n = self.node_next(node);
            if nu != 0 {
                let mut cuts: u32 = 0;
                while nu > 128 && cuts < bound
                    invariant
                        self.wf(),
                        self.same_params(*old(self)),
                        self.same_but_glue(*old(self)),
                        self.glue_count == 1u32 << 13,
                    decreases bound - cuts,
                {
                    cuts = cuts + 1;
                    self.insert_node(node, NUM_INDEXES - 1);
                    nu = nu - 128;
                    node = at(node, 128 * UNIT_SIZE);
                }
                let mut idx = self.tables.index(nu);
                if self.tables.units(idx) != nu {
                    idx = idx.wrapping_sub(1);
                    let k = self.tables.units(idx);
                    self.insert_node(at(node, k * UNIT_SIZE), nu.wrapping_sub(k).wrapping_sub(1));
                }
                self.insert_node(node, idx);
            }
        }
    }

    /// The first size class from `j` on whose free list is not empty, or
    /// `NUM_INDEXES` when there is none.
    pub(crate) open spec fn first_filled(&self, j: u32) -> u32
        decreases NUM_INDEXES - j,
    {
        if j >= NUM_INDEXES {
            NUM_INDEXES
        } else if self.list_head(j) != 0 {
            j
        } else {
            self.first_filled((j + 1) as u32)
        }
    }

    /// The first size class above `indx` whose free list is not empty, or
    /// `NUM_INDEXES` when there is none.
    pub(crate) open spec fn larger_filled(&self, indx: u32) -> u32 {
        if indx < NUM_INDEXES - 1 {
            self.first_filled((indx + 1) as u32)
        } else {
            NUM_INDEXES
        }
    }

    /// Without a pending glue: takes a block of the first larger class with
    /// a free block and gives its tail back to the free lists, else cuts the
    /// block from the bottom of the units area when the text area leaves room.
    fn alloc_units_rare(&mut self, indx: u32) -> (r: Option<u32>)
        requires
            old(self).wf(),
        ensures
            final(self).wf(),
            final(self).same_params(*old(self)),
            final(self).min_context == old(self).min_context,
            final(self).max_context == old(self).max_context,
            old(self).glue_count != 0 && old(self).larger_filled(indx) < NUM_INDEXES ==> r == Some(
                old(self).list_head(old(self).larger_filled(indx)),
            ),
            old(self).glue_count != 0 && old(self).larger_filled(indx) < NUM_INDEXES ==> (exists|mid: Self|
                #[trigger] mid.removed(
                    *old(self),
                    old(self).larger_filled(indx),
                    old(self).list_head(old(self).larger_filled(indx)),
                ) && final(self).split_off(
                    mid,
                    old(self).list_head(old(self).larger_filled(indx)),
                    old(self).larger_filled(indx),
                    indx,
                )),
            old(self).glue_count != 0 && old(self).larger_filled(indx) >= NUM_INDEXES ==> ({
                let nb = (class_units(indx) * UNIT_SIZE) as u32;
                let us = old(self).units_start;
                let glue = crate::range8::wsub(old(self).glue_count, 1);
                if crate::range8::wsub(us, old(self).text) > nb {
                    r == Some(crate::range8::wsub(us, nb)) && *final(self) == (Ppmd8 {
                        units_start: crate::range8::wsub(us, nb),
                        glue_count: glue,
                        ..*old(self)
                    })
                } else {
                    r is None && *final(self) == (Ppmd8 { glue_count: glue, ..*old(self) })
                }
            }),
    {
        if self.glue_count == 0 {
            self.glue_free_blocks();
            if self.fl_get(indx) != 0 {
                return Some(self.remove_node(indx));
            }
        }
        let mut i = indx;
        loop
            invariant_except_break
                old(self).glue_count != 0 && indx < NUM_INDEXES - 1 && i < NUM_INDEXES ==> old(self).first_filled(
                    (indx + 1) as u32,
                ) == old(self).first_filled((i + 1) as u32),
            invariant
                self.wf(),
                self.same_params(*old(self)),
                self.min_context == old(self).min_context,
                self.max_context == old(self).max_context,
                old(self).glue_count != 0 ==> *self == *old(self),
                indx <= i,
                i < NUM_INDEXES || i == indx,
            ensures
                self.wf(),
                self.same_params(*old(self)),
                self.min_context == old(self).min_context,
                self.max_context == old(self).max_context,
                old(self).glue_count != 0 ==> *self == *old(self) && indx < i < NUM_INDEXES && old(self).first_filled(
                    (indx + 1) as u32,
                ) == i && old(self).list_head(i) != 0,
            decreases NUM_INDEXES - i,
        {
            if i >= NUM_INDEXES - 1 {
                let num_bytes = self.tables.units(indx) * UNIT_SIZE;
                let us = self.units_start;
                self.glue_count = self.glue_count.wrapping_sub(1);
                if us.wrapping_sub(self.text) > num_bytes {
                    self.units_start = us.wrapping_sub(num_bytes);
                    return Some(self.units_start);
                } else {
                    return None;
                }
            }
            i = i + 1;
            if self.fl_get(i) != 0 {
                break;
            }
        }
        let block = self.remove_node(i);
        let ghost mid = *self;
        self.split_block(block, i, indx);
        proof {
            if old(self).glue_count != 0 {
                assert(mid.removed(*old(self), i, block));
            }
        }
        Some(block)
    }

    fn alloc_units(&mut self, indx: u32) -> (r: Option<u32>)
        requires
            old(self).wf(),
        ensures
            final(self).wf(),
            final(self).same_params(*old(self)),
            final(self).min_context == old(self).min_context,
            final(self).max_context == old(self).max_context,
            old(self).list_head(indx) != 0 ==> r == Some(old(self).list_head(indx))
                && final(self).removed(*old(self), indx, old(self).list_head(indx)),
            old(self).list_head(indx) == 0 && crate::range8::wsub(old(self).hi_unit, old(self).lo_unit)
                >= class_units(indx) * UNIT_SIZE ==> r == Some(old(self).lo_unit) && *final(self) == (Ppmd8 {
                lo_unit: wadd(old(self).lo_unit, (class_units(indx) * UNIT_SIZE) as u32),
                ..*old(self)
            }),
    {
        if self.fl_get(indx) != 0 {
            return Some(self.remove_node(indx));
        }
        let num_bytes = self.tables.units(indx) * UNIT_SIZE;
        let lo = self.lo_unit;
        if self.hi_unit.wrapping_sub(lo) >= num_bytes {
            self.lo_unit = at(lo, num_bytes);
            return Some(lo);
        }
        self.alloc_units_rare(indx)
    }

    fn shrink_units(&mut self, old_ptr: u32, old_nu: u32, new_nu: u32) -> (r: u32)
        requires
            old(self).wf(),
        ensures
            final(self).wf(),
            final(self).same_params(*old(self)),
            ({
                let i0 = class_of(old_nu as int) as u32;
                let i1 = class_of(new_nu as int) as u32;
                let head = old(self).list_head(i1);
                &&& i0 == i1 ==> r == old_ptr && *final(self) == *old(self)
                &&& i0 != i1 && head != 0 ==> r == head && (exists|taken: Self, moved: Self|
                    #![auto]
                    taken.removed(*old(self), i1, head) && moved.same_but_mem(taken) && moved.mem@ == copied_within(
                        taken.mem@,
                        old_ptr,
                        head,
                        wmul(new_nu, UNIT_SIZE) as nat,
                    ) && final(self).inserted(moved, old_ptr, i0))
                &&& i0 != i1 && head == 0 ==> r == old_ptr && final(self).split_off(*old(self), old_ptr, i0, i1)
            }),
    {
        let i0 = self.tables.index(old_nu);
        let i1 = self.tables.index(new_nu);
        if i0 == i1 {
            return old_ptr;
        }
        if self.fl_get(i1) != 0 {
            let ptr = self.remove_node(i1);
            let ghost taken = *self;
            self.mem.copy_within(old_ptr, ptr, new_nu.wrapping_mul(UNIT_SIZE));
            let ghost moved = *self;
            self.insert_node(old_ptr, i0);
            assert(taken.removed(*old(self), i1, ptr) && moved.same_but_mem(taken) && moved.mem@ == copied_within(
                taken.mem@,
                old_ptr,
                ptr,
                wmul(new_nu, UNIT_SIZE) as nat,
            ) && self.inserted(moved, old_ptr, i0));
            return ptr;
        }
        self.split_block(old_ptr, i0, i1);
        old_ptr
    }

    fn free_units(&mut self, ptr: u32, nu: u32)
        requires
            old(self).wf(),
        ensures
            final(self).wf(),
            final(self).same_params(*old(self)),
            final(self).inserted(*old(self), ptr, class_of(nu as int) as u32),
    {
        let i = self.tables.index(nu);
        self.insert_node(ptr, i);
    }

    fn special_free_unit(&mut self, ptr: u32)
        requires
            old(self).wf(),
        ensures
            final(self).wf(),
            final(self).same_params(*old(self)),
            ptr != old(self).units_start ==> final(self).inserted(*old(self), ptr, 0),
            ptr == old(self).units_start ==> *final(self) == (Ppmd8 {
                units_start: wadd(ptr, UNIT_SIZE),
                ..*old(self)
            }),
    {
        if ptr != self.units_start {
            self.insert_node(ptr, 0);
        } else {
            self.units_start = at(self.units_start, UNIT_SIZE);
        }
    }

    fn expand_text_area(&mut self)
        requires
            old(self).wf(),
        ensures
            final(self).wf(),
            final(self).same_params(*old(self)),
            final(self).keeps_adaptive(*old(self)),
            final(self).units_start == empty_run_end(
                if old(self).lo_unit != old(self).hi_unit {
                    put_u32(old(self).mem@, old(self).lo_unit as int, 0)
                } else {
                    old(self).mem@
                },
                old(self).units_start,
                (old(self).size / UNIT_SIZE + 2) as nat,
            ),
    {
        let bound = self.walk_bound();
        let mut count: Vec<u32> = Vec::new();
        let mut j: u32 = 0;
        while j < NUM_INDEXES
            invariant
                j <= NUM_INDEXES,
                count@.len() == j,
            decreases NUM_INDEXES - j,
        {
            count.push(0);
            j = j + 1;
        }
        if self.lo_unit != self.hi_unit {
            self.mem.wr32(self.lo_unit, 0);
        }
        let ghost mem1 = self.mem@;
        let mut node = self.units_start;
        let mut steps: u32 = 0;
        while self.node_stamp(node) == EMPTY_NODE && steps < bound
            invariant
                self.wf(),
                self.same_params(*old(self)),
                self.keeps_adaptive(*old(self)),
                count@.len() == NUM_INDEXES,
                steps <= bound,
                bound == old(self).size / UNIT_SIZE + 2,
                self.units_start == old(self).units_start,
                empty_run_end(self.mem@, node, (bound - steps) as nat) == empty_run_end(
                    mem1,
                    old(self).units_start,
                    bound as nat,
                ),
            decreases bound - steps,
        {
            steps = steps + 1;
            let nu = self.node_nu(node);
            self.mem.wr32(node, 0);
            let k = self.tables.index(nu) as usize;
            let c = count[k];
            count.set(k, c.wrapping_add(1));
            node = at(node, nu.wrapping_mul(UNIT_SIZE));
        }
        self.units_start = node;
        let ghost moved_to = node;
        let mut i: u32 = 0;
        while i < NUM_INDEXES
            invariant
                self.wf(),
                self.same_params(*old(self)),
                self.keeps_adaptive(*old(self)),
                self.units_start == moved_to,
                count@.len() == NUM_INDEXES,
            decreases NUM_INDEXES - i,
        {
            let mut cnt = count[i as usize];
            if cnt != 0 {
                // `prev` is either the head of the free list (when
                // `prev_head`) or the `next` field of the node at `prev_node`.
                let mut prev_head = true;
                let mut prev_node: u32 = 0;
                let mut n = self.fl_get(i);
                vadd32(&mut self.stamps, i, cnt, false);
                let mut steps: u32 = 0;
                while steps < bound
                    invariant
                        self.wf(),
                        self.same_params(*old(self)),
                        self.keeps_adaptive(*old(self)),
                        self.units_start == moved_to,
                        count@.len() == NUM_INDEXES,
                    decreases bound - steps,
                {
                    steps = steps + 1;
                    let nd = n;
                    n = self.node_next(nd);
                    if self.node_stamp(nd) != 0 {
                        prev_head = false;
                        prev_node = nd;
                    } else {
                        if prev_head {
                            vset32(&mut self.free_list, i, n);
                        } else {
                            self.mem.wr32(at(prev_node, 4), n);
                        }
                        cnt = cnt.wrapping_sub(1);
                        if cnt == 0 {
                            break;
                        }
                    }
                }
            }
            i = i + 1;
        }
    }
}

impl Ppmd8 {
    /// A model of order `max_order` in `mem_size` bytes of memory, in its
    /// initial state. Fails with `MemoryAllocation` when the memory cannot
    /// be had.
    #[verifier::loop_isolation(false)]
    pub(crate) fn new(max_order: u32, mem_size: u32, restore_method: RestoreMethod) -> (r: Result<
        Ppmd8,
        Error,
    >)
        requires
            max_order <= 255,
            1 <= mem_size <= u32::MAX - 3,
        ensures
            r matches Ok(m) ==> m.wf() && m.order() == max_order && m.mem_size() == mem_size
                && m.restore() == restore_method,
            r matches Ok(m) ==> m.max_order == max_order && m.size == mem_size && m.restore_method
                == restore_method,
            r matches Ok(m) ==> m.is_initial() && m.align_offset == (crate::range8::wsub(4, mem_size) & 3),
            r matches Ok(m) ==> m.mem@.len() == m.align_offset + mem_size && m.align_offset <= 3,
            r matches Ok(m) ==> forall|i: int| 0 <= i < 256 ==> #[trigger] m.ns2bs_index@[i] == ns2bs7_of(i),
            r matches Ok(m) ==> forall|i: int| 0 <= i < 260 ==> #[trigger] m.ns2index@[i] == ns2index8_of(i),
            r matches Err(e) ==> e == Error::MemoryAllocation,
    {
        let tables = UnitTables::new();
        let mut ns2bs_index: Vec<u8> = Vec::new();
        let mut i: u32 = 0;
        while i < 256
            invariant
                i <= 256,
                ns2bs_index@.len() == i,
                forall|j: int| 0 <= j < i ==> #[trigger] ns2bs_index@[j] == ns2bs7_of(j),
            decreases 256 - i,
        {
            let v: u8 = if i == 0 {
                0
            } else if i == 1 {
                2
            } else if i < 11 {
                4
            } else {
                6
            };
            ns2bs_index.push(v);
            i = i + 1;
        }
        let mut ns2index: Vec<u8> = Vec::new();
        let mut i: u32 = 0;
        while i < 5
            invariant
                i <= 5,
                ns2index@.len() == i,
                i > 0 ==> ns2index@[0] == 0,
                forall|j: int| 0 <= j < i ==> #[trigger] ns2index@[j] == ns2index8_of(j),
            decreases 5 - i,
        {
            ns2index.push(i as u8);
            i = i + 1;
        }
        let mut m: u32 = 5;
        let mut k: u32 = 1;
        while i < 260
            invariant
                5 <= i <= 260,
                ns2index@.len() == i,
                ns2index@[0] == 0,
                5 <= m <= i + 1,
                1 <= k <= m - 4,
                2 * i == 10 + (m - 5) * (m - 4) + 2 * (m - 4 - k),
                forall|j: int| 0 <= j < i ==> #[trigger] ns2index@[j] == ns2index8_of(j),
                forall|d: int| d >= 0 ==> #[trigger] tri_row(i - 5 + d, 5, 4) == tri_row(m - 4 - k + d, m as int, 4),
            decreases 260 - i,
        {
            proof {
                assert(tri_row(i - 5 + 0, 5, 4) == tri_row(m - 4 - k + 0, m as int, 4));
                assert(ns2index8_of(i as int) == m);
                assert(m <= 27) by (nonlinear_arith)
                    requires
                        i < 260,
                        5 <= m,
                        1 <= k <= m - 4,
                        2 * i == 10 + (m - 5) * (m - 4) + 2 * (m - 4 - k),
                ;
            }
            ns2index.push(m as u8);
            let ghost (m0, k0, i0) = (m, k, i);
            k = k - 1;
            if k == 0 {
                m = m + 1;
                k = m - 4;
                proof {
                    assert((m0 - 5) * (m0 - 4) + 2 * (m0 - 4) == (m0 - 4) * (m0 - 3)) by (nonlinear_arith);
                }
            }
            i = i + 1;
            proof {
                assert forall|d: int| d >= 0 implies #[trigger] tri_row(i - 5 + d, 5, 4) == tri_row(m - 4 - k + d, m as int, 4) by {
                    assert(tri_row(i0 - 5 + (d + 1), 5, 4) == tri_row(m0 - 4 - k0 + (d + 1), m0 as int, 4));
                    if k0 == 1 {
                        assert(tri_row(m0 - 4 + d, m0 as int, 4) == tri_row(d, m0 + 1, 4));
                    }
                }
            }
        }
        let mut free_list: Vec<u32> = Vec::new();
        let mut stamps: Vec<u32> = Vec::new();
        let mut i: u32 = 0;
        while i < NUM_INDEXES
            invariant
                i <= NUM_INDEXES,
                free_list@.len() == i,
                stamps@.len() == i,
            decreases NUM_INDEXES - i,
        {
            free_list.push(0);
            stamps.push(0);
            i = i + 1;
        }
        let mut see: Vec<See> = Vec::new();
        let mut i: u32 = 0;
        while i < 768
            invariant
                i <= 768,
                see@.len() == i,
            decreases 768 - i,
        {
            see.push(See { summ: 0, shift: 0, count: 0 });
            i = i + 1;
        }
        let mut bin_summ: Vec<u16> = Vec::new();
        let mut i: u32 = 0;
        while i < 1600
            invariant
                i <= 1600,
                bin_summ@.len() == i,
                bin_probs_in_scale(bin_summ@),
            decreases 1600 - i,
        {
            bin_summ.push(1);
            i = i + 1;
        }
        let align_offset = 4u32.wrapping_sub(mem_size) & 3;
        proof {
            assert(align_offset <= 3) by (bit_vector)
                requires align_offset == 4u32.wrapping_sub(mem_size) & 3;
        }
        let mem = match Arena::try_new(align_offset + mem_size) {
            Some(a) => a,
            None => {
                return Err(Error::MemoryAllocation);
            },
        };
        let mut model = Ppmd8 {
            mem,
            tables,
            ns2index,
            ns2bs_index,
            free_list,
            stamps,
            see,
            dummy_see: See { summ: 0, shift: 0, count: 0 },
            bin_summ,
            min_context: 0,
            max_context: 0,
            found_state: 0,
            order_fall: 0,
            init_esc: 0,
            prev_success: 0,
            max_order,
            restore_method,
            run_length: 0,
            init_rl: 0,
            size: mem_size,
            glue_count: 0,
            align_offset,
            lo_unit: 0,
            hi_unit: 0,
            text: 0,
            units_start: 0,
        };
        model.restart_model();
        Ok(model)
    }

    /// Resets the model to its initial state: one context of order 0 that
    /// holds all 256 symbols with frequency 1, and the initial probability
    /// and SEE tables.
    pub(crate) fn restart_model(&mut self)
        requires
            old(self).wf(),
        ensures
            final(self).wf(),
            final(self).same_params(*old(self)),
            final(self).restarted(*old(self)),
            final(self).ns2index == old(self).ns2index && final(self).ns2bs_index == old(self).ns2bs_index,
            final(self).mem@.len() == old(self).mem@.len(),
            root_fits(old(self).mem@.len() as int, final(self).min_context as int, final(self).found_state as int)
                ==> root_context8(final(self).mem@, final(self).min_context as int, final(self).found_state as int),
            forall|x: int|
                0 <= x < 1600 ==> #[trigger] final(self).bin_summ@[x] == initial_bin_prob(final(self).ns2index@, x),
            forall|x: int| 0 <= x < 768 ==> #[trigger] final(self).see@[x] == initial_see(final(self).ns2index@, x),
            final(self).max_order == old(self).max_order,
            final(self).size == old(self).size,
            final(self).restore_method == old(self).restore_method,
    {
        let mut j: u32 = 0;
        while j < NUM_INDEXES
            invariant
                self.wf(),
                self.same_params(*old(self)),
                self.max_order == old(self).max_order,
                self.size == old(self).size,
                self.restore_method == old(self).restore_method,
                j <= NUM_INDEXES,
                self.same_but_lists(*old(self)),
                self.mem == old(self).mem,
                forall|x: int| 0 <= x < j ==> #[trigger] self.free_list@[x] == 0,
                forall|x: int| 0 <= x < j ==> #[trigger] self.stamps@[x] == 0,
            decreases NUM_INDEXES - j,
        {
            self.free_list.set(j as usize, 0);
            self.stamps.set(j as usize, 0);
            j = j + 1;
        }
        self.text = self.align_offset;
        self.hi_unit = at(self.text, self.size);
        self.units_start = self.hi_unit.wrapping_sub(self.size / 8 / UNIT_SIZE * 7 * UNIT_SIZE);
        self.lo_unit = self.units_start;
        self.glue_count = 0;
        self.order_fall = self.max_order;
        let rl: i32 = if self.max_order < 12 {
            self.max_order as i32
        } else {
            12
        };
        self.init_rl = -rl - 1;
        self.run_length = self.init_rl;
        self.prev_success = 0;
        self.hi_unit = self.hi_unit.wrapping_sub(UNIT_SIZE);
        let mc = self.hi_unit;
        let s = self.lo_unit;
        self.lo_unit = at(self.lo_unit, 128 * UNIT_SIZE);
        self.min_context = mc;
        self.max_context = mc;
        self.found_state = s;
        let ghost set = *self;
        init_root8(&mut self.mem, mc, s);
        let ghost mem_done = self.mem;
        let mut m: u32 = 0;
        let mut i: u32 = 0;
        while m < 25
            invariant
                self.wf(),
                self.same_params(*old(self)),
                self.same_scalars(set),
                self.mem == mem_done,
                self.max_order == old(self).max_order,
                self.size == old(self).size,
                self.restore_method == old(self).restore_method,
                i <= 260,
                m > 0 ==> i >= 1,
                m <= 25,
                m == 0 ==> i == 0,
                m > 0 ==> i == bin_row_bound(set.ns2index@, m - 1),
                forall|x: int| 0 <= x < m * 64 ==> #[trigger] self.bin_summ@[x] == initial_bin_prob(set.ns2index@, x),
            decreases 25 - m,
        {
            while i < 260 && self.ns2idx(i) == m
                invariant
                    self.wf(),
                    self.same_params(*old(self)),
                    self.same_scalars(set),
                    self.mem == mem_done,
                    i <= 260,
                    m > 0 ==> i >= 1,
                    run_end(set.ns2index@, m as int, i as int, 260, 0) == bin_row_bound(set.ns2index@, m as int),
                decreases 260 - i,
            {
                i = i + 1;
            }
            assert(i >= 1);
            let mut k: u32 = 0;
            while k < 8
                invariant
                    self.wf(),
                    self.same_params(*old(self)),
                    self.same_scalars(set),
                    self.mem == mem_done,
                    self.max_order == old(self).max_order,
                    self.size == old(self).size,
                    self.restore_method == old(self).restore_method,
                    1 <= i <= 260,
                    m < 25,
                    k <= 8,
                    i == bin_row_bound(set.ns2index@, m as int),
                    forall|x: int| 0 <= x < m * 64 ==> #[trigger] self.bin_summ@[x] == initial_bin_prob(set.ns2index@, x),
                    forall|x: int|
                        m * 64 <= x < m * 64 + 64 && x % 8 < k ==> #[trigger] self.bin_summ@[x] == initial_bin_prob(set.ns2index@, x),
                decreases 8 - k,
            {
                let esc = init_bin_esc(k);
                let q = esc / (i + 1);
                proof {
                    assert(q <= esc / 2) by {
                        vstd::arithmetic::div_mod::lemma_div_is_ordered_by_denominator(
                            esc as int,
                            2,
                            i as int + 1,
                        );
                    }
                    assert(q >= 1) by {
                        vstd::arithmetic::div_mod::lemma_div_is_ordered_by_denominator(
                            esc as int,
                            i as int + 1,
                            261,
                        );
                        vstd::arithmetic::div_mod::lemma_div_is_ordered(0x1F3F, esc as int, 261);
                    }
                }
                let val = PPMD_BIN_SCALE.wrapping_sub(q) as u16;
                assert(0 < val < PPMD_BIN_SCALE);
                assert forall|x: int| m * 64 <= x < m * 64 + 64 && x % 8 == k implies initial_bin_prob(set.ns2index@, x) == val by {
                    assert(x / 64 == m);
                }
                let mut r: u32 = 0;
                while r < 64
                    invariant
                        self.wf(),
                        self.same_params(*old(self)),
                        self.same_scalars(set),
                        self.mem == mem_done,
                        self.max_order == old(self).max_order,
                        self.size == old(self).size,
                        self.restore_method == old(self).restore_method,
                        m < 25,
                        k < 8,
                        r <= 64,
                        r % 8 == 0,
                        0 < val < PPMD_BIN_SCALE,
                        forall|x: int| m * 64 <= x < m * 64 + 64 && x % 8 == k ==> initial_bin_prob(set.ns2index@, x) == val,
                        forall|x: int| 0 <= x < m * 64 ==> #[trigger] self.bin_summ@[x] == initial_bin_prob(set.ns2index@, x),
                        forall|x: int|
                            m * 64 <= x < m * 64 + 64 && x % 8 < k ==> #[trigger] self.bin_summ@[x] == initial_bin_prob(set.ns2index@, x),
                        forall|x: int|
                            m * 64 <= x < m * 64 + 64 && x % 8 == k && x - m * 64 - k < r ==> #[trigger] self.bin_summ@[x]
                                == initial_bin_prob(set.ns2index@, x),
                    decreases 64 - r,
                {
                    vset16(&mut self.bin_summ, m * 64 + k + r, val);
                    proof {
                        let idx = m * 64 + k + r;
                        assert(idx % 8 == k);
                        assert forall|x: int|
                            m * 64 <= x < m * 64 + 64 && x % 8 == k && x - m * 64 - k < r + 8 implies #[trigger] self.bin_summ@[x]
                                == initial_bin_prob(set.ns2index@, x) by {
                            if x != idx {
                                assert(x - m * 64 - k < r);
                            }
                        }
                    }
                    r = r + 8;
                }
                k = k + 1;
            }
            m = m + 1;
        }
        let ghost bins = self.bin_summ@;
        let mut m: u32 = 0;
        let mut i: u32 = 0;
        while m < SEE_ROWS
            invariant
                self.wf(),
                self.same_params(*old(self)),
                self.same_scalars(set),
                self.mem == mem_done,
                self.max_order == old(self).max_order,
                self.size == old(self).size,
                self.restore_method == old(self).restore_method,
                i <= 257,
                m <= SEE_ROWS,
                m == 0 ==> i == 0,
                m > 0 ==> i == see_row_bound(set.ns2index@, m - 1),
                self.bin_summ@ == bins,
                forall|x: int| 0 <= x < m * 32 ==> #[trigger] self.see@[x] == initial_see(set.ns2index@, x),
            decreases SEE_ROWS - m,
        {
            while i < 257 && self.ns2idx(i + 3) == m + 3
                invariant
                    self.wf(),
                    self.same_params(*old(self)),
                    self.same_scalars(set),
                    self.mem == mem_done,
                    i <= 257,
                    m < SEE_ROWS,
                    self.bin_summ@ == bins,
                    forall|x: int| 0 <= x < m * 32 ==> #[trigger] self.see@[x] == initial_see(set.ns2index@, x),
                    run_end(set.ns2index@, m + 3, i as int, 257, 3) == see_row_bound(set.ns2index@, m as int),
                decreases 257 - i,
            {
                i = i + 1;
            }
            let sh = (2 * i + 5) << 3u32;
            proof {
                vstd::arithmetic::power2::lemma2_to64();
                vstd::bits::lemma_u32_shl_is_mul((2 * i + 5) as u32, 3);
            }
            let summ = sh as u16;
            let mut k: u32 = 0;
            while k < SEE_COLS
                invariant
                    self.wf(),
                    self.same_params(*old(self)),
                    self.same_scalars(set),
                    self.mem == mem_done,
                    self.max_order == old(self).max_order,
                    self.size == old(self).size,
                    self.restore_method == old(self).restore_method,
                    m < SEE_ROWS,
                    k <= SEE_COLS,
                    i == see_row_bound(set.ns2index@, m as int),
                    summ == 8 * (2 * i + 5),
                    self.bin_summ@ == bins,
                    forall|x: int| 0 <= x < m * 32 + k ==> #[trigger] self.see@[x] == initial_see(set.ns2index@, x),
                decreases SEE_COLS - k,
            {
                self.see_set(m * SEE_COLS + k, See { summ, shift: 3, count: 7 });
                proof {
                    assert((m * 32 + k) as int / 32 == m);
                }
                k = k + 1;
            }
            m = m + 1;
        }
        self.dummy_see = See { summ: 0, shift: 7, count: 64 };
    }
}

impl Ppmd8 {
    /// Moves the symbol list of `ctx` into a block of its size, scaling the
    /// frequencies down when `scale` is 1 or the frequency sum has grown
    /// past `1 << 15`.
    fn refresh(&mut self, ctx: u32, old_nu: u32, scale: u32)
        requires
            old(self).wf(),
            scale <= 1,
        ensures
            final(self).wf(),
            final(self).same_params(*old(self)),
            final(self).same_but_lists(*old(self)),
    {
        let mut i = num_stats(&self.mem, ctx);
        let mut s = self.shrink_units(stats(&self.mem, ctx), old_nu, (i + 2) >> 1u32);
        set_stats(&mut self.mem, ctx, s);
        let sf = summ_freq(&self.mem, ctx);
        let scale: u32 = if sf >= 0x8000 { 1 } else { scale };
        let mut fl: u32 = symbol(&self.mem, s) + 0xC0;
        let mut f = freq(&self.mem, s);
        let mut esc_freq = sf.wrapping_sub(f);
        f = (f + scale) >> scale;
        let mut sum_freq = f;
        set_freq(&mut self.mem, s, f);
        if i == 0 {
            i = 1;
        }
        while i > 0
            invariant
                self.wf(),
                self.same_params(*old(self)),
                self.same_but_lists(*old(self)),
                scale <= 1,
            decreases i,
        {
            s = at(s, 6);
            let mut f = freq(&self.mem, s);
            esc_freq = esc_freq.wrapping_sub(f);
            f = (f + scale) >> scale;
            sum_freq = sum_freq.wrapping_add(f);
            set_freq(&mut self.mem, s, f);
            fl = fl | (symbol(&self.mem, s) + 0xC0);
            i = i - 1;
        }
        let esc_part = if scale == 1 {
            esc_freq.wrapping_add(1) >> 1u32
        } else {
            esc_freq
        };
        set_summ_freq(&mut self.mem, ctx, sum_freq.wrapping_add(esc_part));
        let keep: u32 = 0x10 + 4 * scale;
        let fl_ctx = flags(&self.mem, ctx);
        set_flags(&mut self.mem, ctx, (fl_ctx & keep).wrapping_add((fl >> 5u32) & 8));
    }

    /// Prunes the subtree at `ctx` below the order `order`: successors that
    /// point into the text area are dropped, and the symbol lists move down
    /// in memory. Gives the offset of the context, or 0 when it was freed.
    fn cut_off(&mut self, ctx: u32, order: u32) -> (r: u32)
        requires
            old(self).wf(),
            order <= 255,
        ensures
            final(self).wf(),
            final(self).same_params(*old(self)),
            final(self).keeps_adaptive(*old(self)),
        decreases 256 - order,
    {
        let mut ns: i32 = num_stats(&self.mem, ctx) as i32;
        if ns == 0 {
            let s = one_state(ctx);
            let mut succ = successor(&self.mem, s);
            if succ >= self.units_start {
                if order < self.max_order && order < 255 {
                    succ = self.cut_off(succ, order + 1);
                } else {
                    succ = 0;
                }
                set_successor(&mut self.mem, s, succ);
                if succ != 0 || order <= 9 {
                    return ctx;
                }
            }
            self.special_free_unit(ctx);
            return 0;
        }
        let nu: u32 = ((ns as u32) + 2) >> 1u32;
        let indx = self.tables.index(nu);
        let mut sts = stats(&self.mem, ctx);
        if sts.wrapping_sub(self.units_start) <= (1 << 14) && sts <= self.fl_get(indx) {
            let ptr = self.remove_node(indx);
            set_stats(&mut self.mem, ctx, ptr);
            self.mem.copy_within(sts, ptr, nu.wrapping_mul(UNIT_SIZE));
            if sts != self.units_start {
                self.insert_node(sts, indx);
            } else {
                self.units_start = at(self.units_start, self.tables.units(indx) * UNIT_SIZE);
            }
            sts = ptr;
        }
        let mut j: i32 = ns;
        while j >= 0
            invariant
                self.wf(),
                self.same_params(*old(self)),
                self.keeps_adaptive(*old(self)),
                order <= 255,
                j <= ns <= 255,
                j >= -1,
            decreases j + 1,
        {
            let s = state_at(sts, j as u32);
            let succ = successor(&self.mem, s);
            if succ < self.units_start {
                let s2 = state_at(sts, ns as u32);
                ns = ns - 1;
                if order != 0 {
                    if s != s2 {
                        self.mem.copy_within(s2, s, 6);
                    }
                } else {
                    self.swap_states(s, s2);
                    set_successor(&mut self.mem, s2, 0);
                }
            } else if order < self.max_order && order < 255 {
                let c = self.cut_off(succ, order + 1);
                set_successor(&mut self.mem, s, c);
            } else {
                set_successor(&mut self.mem, s, 0);
            }
            j = j - 1;
        }
        if ns != num_stats(&self.mem, ctx) as i32 && order != 0 {
            if ns < 0 {
                self.free_units(sts, nu);
                self.special_free_unit(ctx);
                return 0;
            }
            set_num_stats(&mut self.mem, ctx, ns as u32);
            if ns == 0 {
                let sym = symbol(&self.mem, sts) as u8;
                let fl = (flags(&self.mem, ctx) & 0x10).wrapping_add(symbol_flag_exec(sym) as u32);
                set_flags(&mut self.mem, ctx, fl);
                let one = one_state(ctx);
                set_symbol(&mut self.mem, one, sym as u32);
                let f1 = (freq(&self.mem, sts) + 11) >> 3u32;
                let succ1 = successor(&self.mem, sts);
                set_freq(&mut self.mem, one, f1);
                set_successor(&mut self.mem, one, succ1);
                self.free_units(sts, nu);
            } else {
                let scale: u32 = if summ_freq(&self.mem, ctx) > 16 * (ns as u32) { 1 } else { 0 };
                self.refresh(ctx, nu, scale);
            }
        }
        ctx
    }

    /// The number of bytes of the arena that the model uses.
    pub(crate) fn get_used_memory(&self) -> (r: u32)
        requires
            self.wf(),
        ensures
            r == self.used_memory(),
            r == crate::range8::wsub(
                crate::range8::wsub(
                    crate::range8::wsub(self.size, crate::range8::wsub(self.hi_unit, self.lo_unit)),
                    crate::range8::wsub(self.units_start, self.text),
                ),
                wmul(stamped_units(self.stamps@, NUM_INDEXES as int), UNIT_SIZE),
            ),
    {
        let mut v: u32 = 0;
        let mut i: u32 = 0;
        while i < NUM_INDEXES
            invariant
                self.wf(),
                i <= NUM_INDEXES,
                v == stamped_units(self.stamps@, i as int),
            decreases NUM_INDEXES - i,
        {
            v = v.wrapping_add(self.stamps[i as usize].wrapping_mul(self.tables.units(i)));
            i = i + 1;
        }
        self.size.wrapping_sub(self.hi_unit.wrapping_sub(self.lo_unit)).wrapping_sub(
            self.units_start.wrapping_sub(self.text),
        ).wrapping_sub(v.wrapping_mul(UNIT_SIZE))
    }

    /// Recovers from exhausted memory: undoes the half-made update of the
    /// contexts from the longest down to `ctx_error`, then restarts the model
    /// or (with `CutOff`, when at least half the memory is in use) prunes it
    /// until a quarter of the memory is free, keeping the adaptive statistics.
    fn restore_model(&mut self, ctx_error: u32)
        requires
            old(self).wf(),
        ensures
            final(self).wf(),
            final(self).same_params(*old(self)),
            final(self).min_context == final(self).max_context,
            old(self).restore_method == RestoreMethod::Restart ==> final(self).restarted(*old(self)),
            old(self).restore_method == RestoreMethod::CutOff && old(self).max_context == ctx_error
                && old(self).min_context == old(self).max_context && (Ppmd8 {
                text: old(self).align_offset,
                ..*old(self)
            }).used_memory() >= old(self).size >> 1u32 ==> final(self).keeps_adaptive(*old(self))
                && final(self).order_fall == old(self).max_order && final(self).glue_count == 0,
    {
        let bound = self.walk_bound();
        self.text = self.align_offset;
        let ghost entry = *self;
        let mut c = self.max_context;
        let mut steps: u32 = 0;
        while c != ctx_error && steps < bound
            invariant
                steps == 0 ==> c == old(self).max_context && *self == entry,
                old(self).max_context == ctx_error ==> steps == 0,
                self.keeps_adaptive(*old(self)),
                self.wf(),
                self.same_params(*old(self)),
                self.align_offset == old(self).align_offset,
                self.restore_method == old(self).restore_method,
            decreases bound - steps,
        {
            steps = steps + 1;
            let ns = num_stats(&self.mem, c).wrapping_sub(1) & 0xFF;
            set_num_stats(&mut self.mem, c, ns);
            if ns == 0 {
                let s = stats(&self.mem, c);
                let sym = symbol(&self.mem, s) as u8;
                let fl = (flags(&self.mem, c) & 0x10).wrapping_add(symbol_flag_exec(sym) as u32);
                set_flags(&mut self.mem, c, fl);
                let one = one_state(c);
                set_symbol(&mut self.mem, one, sym as u32);
                let f1 = (freq(&self.mem, s) + 11) >> 3u32;
                let succ1 = successor(&self.mem, s);
                set_freq(&mut self.mem, one, f1);
                set_successor(&mut self.mem, one, succ1);
                self.special_free_unit(s);
            } else {
                self.refresh(c, ns.wrapping_add(3) >> 1u32, 0);
            }
            c = suffix(&self.mem, c);
        }
        let ghost entry2 = *self;
        let ghost c2 = c;
        let mut steps: u32 = 0;
        while c != self.min_context && steps < bound
            invariant
                steps == 0 ==> c == c2 && *self == entry2,
                c2 == entry2.min_context ==> steps == 0,
                self.keeps_adaptive(*old(self)),
                self.wf(),
                self.same_params(*old(self)),
                self.align_offset == old(self).align_offset,
                self.restore_method == old(self).restore_method,
            decreases bound - steps,
        {
            steps = steps + 1;
            let ns = num_stats(&self.mem, c);
            if ns == 0 {
                let one = one_state(c);
                let f1 = (freq(&self.mem, one) + 1) >> 1u32;
                set_freq(&mut self.mem, one, f1);
            } else {
                let sf = (summ_freq(&self.mem, c) + 4) & 0xFFFF;
                set_summ_freq(&mut self.mem, c, sf);
                if sf > 128 + 4 * ns {
                    self.refresh(c, (ns + 2) >> 1u32, 1);
                }
            }
            c = suffix(&self.mem, c);
        }
        if self.restore_method == RestoreMethod::Restart || self.get_used_memory() < (self.size
            >> 1u32) {
            self.restart_model();
        } else {
            let mut steps: u32 = 0;
            while suffix(&self.mem, self.max_context) != 0 && steps < bound
                invariant
                    self.wf(),
                    self.same_params(*old(self)),
                    self.keeps_adaptive(*old(self)),
                decreases bound - steps,
            {
                steps = steps + 1;
                self.max_context = suffix(&self.mem, self.max_context);
            }
            let mut rounds: u32 = 0;
            loop
                invariant_except_break
                    rounds < bound,
                invariant
                    self.wf(),
                    self.same_params(*old(self)),
                    self.keeps_adaptive(*old(self)),
                decreases bound - rounds,
            {
                let mc = self.max_context;
                self.cut_off(mc, 0);
                self.expand_text_area();
                rounds = rounds + 1;
                let limit: u32 = 3u32.wrapping_mul(self.size >> 2u32);
                if !(self.get_used_memory() > limit) || rounds >= bound {
                    break;
                }
            }
            self.glue_count = 0;
            self.order_fall = self.max_order;
        }
        self.min_context = self.max_context;
    }
}

impl Ppmd8 {
    /// Writes a context of one symbol at `c1`: the flags `fl`, the state of
    /// `sym` with frequency `f` and successor `succ`, and the suffix `sfx`.
    fn write_one_context(&mut self, c1: u32, fl: u32, sym: u32, f: u32, succ: u32, sfx: u32)
        requires
            old(self).wf(),
            sym < 256,
        ensures
            final(self).wf(),
            final(self).same_params(*old(self)),
            final(self).same_but_mem(*old(self)),
            final(self).mem@.len() == old(self).mem@.len(),
            c1 as int + 12 <= old(self).mem@.len() <= 0x1_0000_0000 ==> byte_at(final(self).mem@, c1 + 2) == sym
                && byte_at(final(self).mem@, c1 + 3) == f as u8 && u32_at(final(self).mem@, c1 + 4) == succ && u32_at(
                final(self).mem@,
                c1 + 8,
            ) == sfx,
    {
        set_flags(&mut self.mem, c1, fl);
        set_num_stats(&mut self.mem, c1, 0);
        let one = one_state(c1);
        set_symbol(&mut self.mem, one, sym);
        set_freq(&mut self.mem, one, f);
        let ghost m_f = self.mem@;
        set_successor(&mut self.mem, one, succ);
        let ghost m_s = self.mem@;
        set_suffix(&mut self.mem, c1, sfx);
        proof {
            if c1 as int + 12 <= old(self).mem@.len() <= 0x1_0000_0000 {
                assert(wadd(c1, 2) == c1 + 2);
                assert(wadd(one, 1) == c1 + 3);
                assert(wadd(one, 2) == c1 + 4);
                assert(wadd(c1, 8) == c1 + 8);
                lemma_u32_read_back(m_f, c1 + 4, succ);
                lemma_u32_read_back(m_s, c1 + 8, sfx);
                assert(u32_at(self.mem@, c1 + 4) == u32_at(m_s, c1 + 4));
            }
        }
    }

    /// Creates the chain of one-symbol contexts that continue the found
    /// state from `c_start` on, and links the states on the way to it. `skip`
    /// leaves the found state itself out, `s1_first` is the state of the first
    /// suffix when it is already known (0 when not). Gives the new
    /// context, or 0 when memory ran out.
    /// Where the first suffix's state is given and leads elsewhere than the
    /// found state, the one new context holds the text's next symbol with
    /// the frequency it inherits from that state's successor context.
    #[verifier::rlimit(50)]
    fn create_successors(&mut self, skip: bool, s1_first: u32, c_start: u32) -> (r: u32)
        requires
            old(self).wf(),
        ensures
            final(self).wf(),
            final(self).same_params(*old(self)),
            ({
                let m = old(self).mem@;
                let fs = old(self).found_state;
                let up0 = u32_at(m, wadd(fs, 2) as int) as u32;
                let cc = u32_at(m, wadd(s1_first, 2) as int) as u32;
                let sym = byte_at(m, up0 as int);
                let link = wadd(fs, 2) as int;
                let t = r as int + 2;
                !skip && s1_first != 0 && u32_at(m, wadd(c_start, 8) as int) != 0 && cc != up0 && inherits8(m, cc, sym)
                    && old(self).hi_unit != old(self).lo_unit && old(self).hi_unit >= 12 ==> r == old(self).hi_unit
                    - 12 && (old(self).hi_unit <= m.len() <= 0x1_0000_0000 && link + 4 <= m.len() && (r + 12 <= link
                    || link + 4 <= r) ==> byte_at(final(self).mem@, t) == sym && byte_at(final(self).mem@, t + 1) == (
                inherited_freq8(m, cc, sym) as u32) as u8 && u32_at(final(self).mem@, r + 4) == wadd(up0, 1) && u32_at(
                    final(self).mem@,
                    r + 8,
                ) == cc && u32_at(final(self).mem@, link) == r)
            }),
    {
        let bound = self.walk_bound();
        let fs = self.found_state;
        let mut up_branch = successor(&self.mem, fs);
        let mut ps: Vec<u32> = Vec::new();
        if !skip {
            ps.push(fs);
        }
        let ghost c_in = c_start;
        let ghost s1_in = s1_first;
        let ghost m0 = self.mem@;
        let ghost up0 = up_branch;
        let ghost path = !skip && s1_first != 0 && u32_at(m0, wadd(c_start, 8) as int) != 0 && u32_at(
            m0,
            wadd(s1_first, 2) as int,
        ) as u32 != up_branch;
        let ghost mut first_break = false;
        let mut c = c_start;
        let mut s1 = s1_first;
        let mut steps: u32 = 0;
        while suffix(&self.mem, c) != 0 && steps < bound
            invariant_except_break
                path ==> steps == 0 && c == c_in && s1 == s1_in && self.mem@ == m0 && *self == *old(self)
                    && ps@ == seq![fs] && !first_break,
            invariant
                self.wf(),
                self.same_params(*old(self)),
                bound >= 2,
                c_in == c_start,
                s1_in == s1_first,
                m0 == old(self).mem@,
                up0 == u32_at(m0, wadd(old(self).found_state, 2) as int),
                up_branch == up0,
                fs == old(self).found_state,
                path == (!skip && s1_in != 0 && u32_at(m0, wadd(c_in, 8) as int) != 0 && u32_at(
                    m0,
                    wadd(s1_in, 2) as int,
                ) as u32 != up0),
            ensures
                path ==> first_break && c == u32_at(m0, wadd(s1_in, 2) as int) && *self == *old(self) && ps@
                    == seq![fs],
            decreases bound - steps,
        {
            steps = steps + 1;
            c = suffix(&self.mem, c);
            let s;
            if s1 != 0 {
                s = s1;
                s1 = 0;
            } else if num_stats(&self.mem, c) != 0 {
                let sym = symbol(&self.mem, self.found_state);
                let sts = stats(&self.mem, c);
                let k = self.find_symbol(sts, num_stats(&self.mem, c) + 1, sym);
                s = state_at(sts, k);
                let f = freq(&self.mem, s);
                if f < MAX_FREQ - 9 {
                    set_freq(&mut self.mem, s, f + 1);
                    let sf = summ_freq(&self.mem, c);
                    set_summ_freq(&mut self.mem, c, sf + 1);
                }
            } else {
                s = one_state(c);
                let f = freq(&self.mem, s);
                let parent_binary = num_stats(&self.mem, suffix(&self.mem, c)) == 0;
                let inc: u32 = if parent_binary && f < 24 { 1 } else { 0 };
                set_freq(&mut self.mem, s, f + inc);
            }
            let succ = successor(&self.mem, s);
            if succ != up_branch {
                c = succ;
                if ps.len() == 0 {
                    return c;
                }
                proof {
                    if path {
                        first_break = true;
                    }
                }
                break;
            } else {
                ps.push(s);
            }
        }
        let new_sym = self.mem.rd8(up_branch) as u32;
        up_branch = up_branch.wrapping_add(1);
        let fl = symbol_flag_high(symbol(&self.mem, self.found_state) as u8) as u32 + symbol_flag_exec(
            new_sym as u8,
        ) as u32;
        let new_freq: u32;
        if num_stats(&self.mem, c) == 0 {
            new_freq = freq(&self.mem, one_state(c));
        } else {
            let sts = stats(&self.mem, c);
            let k = self.find_symbol(sts, num_stats(&self.mem, c) + 1, new_sym);
            let s = state_at(sts, k);
            let f0 = freq(&self.mem, s);
            let cf = if f0 == 0 { 0 } else { f0 - 1 };
            let s0 = summ_freq(&self.mem, c).wrapping_sub(num_stats(&self.mem, c)).wrapping_sub(cf);
            new_freq = new_context_freq_exec(cf, s0);
            proof {
                if path && inherits8(m0, c, new_sym as int) {
                    let nn = byte_at(m0, c as int) + 1;
                    lemma_first_with(m0, sts, new_sym as int, nn, 0);
                    let kw = first_with(m0, sts, new_sym as int, nn, 0);
                    assert(kw < nn);
                    let kj = kw as u32;
                    assert(state_symbol(m0, sts, kw) == new_sym);
                    assert(byte_at(m0, wadd(sts, wmul(kj, 6)) as int) == new_sym);
                    assert(byte_at(m0, wadd(sts, wmul(k, 6)) as int) == new_sym);
                    assert forall|i: int| 0 <= i < k implies #[trigger] state_symbol(m0, sts, i) != new_sym by {
                        let j = i as u32;
                        assert(byte_at(m0, wadd(sts, wmul(j, 6)) as int) != new_sym);
                    }
                    lemma_first_with_hit(m0, sts, new_sym as int, nn, k as int, 0);
                }
            }
        }
        proof {
            if path && inherits8(m0, c, new_sym as int) {
                assert(new_freq == inherited_freq8(m0, c, new_sym as int));
            }
        }
        if ps.len() == 0 {
            return c;
        }
        let ghost cc = c;
        let mut n = ps.len();
        while n > 0
            invariant
                self.wf(),
                self.same_params(*old(self)),
                n <= ps@.len(),
                ps@.len() >= 1,
                new_sym < 256,
                c_in == c_start,
                s1_in == s1_first,
                m0 == old(self).mem@,
                fs == old(self).found_state,
                up0 == u32_at(m0, wadd(old(self).found_state, 2) as int),
                path == (!skip && s1_in != 0 && u32_at(m0, wadd(c_in, 8) as int) != 0 && u32_at(
                    m0,
                    wadd(s1_in, 2) as int,
                ) as u32 != up0),
                path ==> cc == u32_at(m0, wadd(s1_in, 2) as int) && new_sym == byte_at(m0, up0 as int),
                path && inherits8(m0, cc, new_sym as int) ==> new_freq == inherited_freq8(m0, cc, new_sym as int),
                path && old(self).hi_unit != old(self).lo_unit && old(self).hi_unit >= 12 ==> {
                    &&& ps@ == seq![fs]
                    &&& n == 1 ==> *self == *old(self) && c == cc
                    &&& self.mem@.len() == old(self).mem@.len()
                    &&& n == 0 ==> c == old(self).hi_unit - 12 && ({
                        let link = wadd(fs, 2) as int;
                        let t = c as int + 2;
                        old(self).hi_unit <= old(self).mem@.len() <= 0x1_0000_0000 && link + 4 <= old(self).mem@.len()
                            && (c + 12 <= link || link + 4 <= c) ==> byte_at(self.mem@, t) == new_sym && byte_at(
                            self.mem@,
                            t + 1,
                        ) == new_freq as u8 && u32_at(self.mem@, c + 4) == up_branch && u32_at(self.mem@, c + 8) == cc
                            && u32_at(self.mem@, link) == c
                    })
                },
            decreases n,
        {
            let c1;
            if self.hi_unit != self.lo_unit {
                self.hi_unit = self.hi_unit.wrapping_sub(UNIT_SIZE);
                c1 = self.hi_unit;
            } else if self.fl_get(0) != 0 {
                c1 = self.remove_node(0);
            } else {
                match self.alloc_units_rare(0) {
                    Some(p) => {
                        c1 = p;
                    },
                    None => {
                        return 0;
                    },
                }
            }
            self.write_one_context(c1, fl, new_sym, new_freq, up_branch, c);
            n = n - 1;
            let p = ps[n];
            let ghost m_y = self.mem@;
            set_successor(&mut self.mem, p, c1);
            proof {
                assert(self.mem@.len() == m_y.len());
                if path && old(self).hi_unit != old(self).lo_unit && old(self).hi_unit >= 12 && n == 0 {
                    let link = wadd(fs, 2) as int;
                    let t = c1 as int + 2;
                    if old(self).hi_unit <= old(self).mem@.len() <= 0x1_0000_0000 && link + 4 <= old(self).mem@.len()
                        && (c1 + 12 <= link || link + 4 <= c1) {
                        assert(p == fs);
                        lemma_u32_read_back(m_y, link, c1);
                        lemma_put_u32_elsewhere(m_y, link, c1, t);
                        lemma_put_u32_elsewhere(m_y, link, c1, t + 1);
                        lemma_put_u32_keeps_u32(m_y, link, c1, c1 + 4);
                        lemma_put_u32_keeps_u32(m_y, link, c1, c1 + 8);
                    }
                }
            }
            c = c1;
        }
        c
    }

    /// Walks the suffixes of `c` to the first state with a successor,
    /// pointing the states on the way at the text; used when the found
    /// state had none. Gives the context to continue from, or 0 when memory
    /// ran out.
    fn reduce_order(&mut self, s1: u32, c: u32) -> (r: u32)
        requires
            old(self).wf(),
        ensures
            final(self).wf(),
            final(self).same_params(*old(self)),
    {
        let bound = self.walk_bound();
        let c1 = c;
        let mut c = c;
        let mut s1 = s1;
        let up_branch = self.text;
        let fs = self.found_state;
        set_successor(&mut self.mem, fs, up_branch);
        self.order_fall = self.order_fall.wrapping_add(1);
        let mut s: u32 = 0;
        let mut steps: u32 = 0;
        loop
            invariant
                self.wf(),
                self.same_params(*old(self)),
            decreases bound - steps,
        {
            if steps >= bound {
                break;
            }
            steps = steps + 1;
            if s1 != 0 {
                c = suffix(&self.mem, c);
                s = s1;
                s1 = 0;
            } else {
                if suffix(&self.mem, c) == 0 {
                    return c;
                }
                c = suffix(&self.mem, c);
                if num_stats(&self.mem, c) != 0 {
                    let sym = symbol(&self.mem, self.found_state);
                    let sts = stats(&self.mem, c);
                    let k = self.find_symbol(sts, num_stats(&self.mem, c) + 1, sym);
                    s = state_at(sts, k);
                    let f = freq(&self.mem, s);
                    if f < MAX_FREQ - 9 {
                        set_freq(&mut self.mem, s, f + 2);
                        let sf = summ_freq(&self.mem, c);
                        set_summ_freq(&mut self.mem, c, sf + 2);
                    }
                } else {
                    s = one_state(c);
                    let f = freq(&self.mem, s);
                    let inc: u32 = if f < 32 { 1 } else { 0 };
                    set_freq(&mut self.mem, s, f + inc);
                }
            }
            if successor(&self.mem, s) != 0 {
                break;
            }
            set_successor(&mut self.mem, s, up_branch);
            self.order_fall = self.order_fall.wrapping_add(1);
        }
        if successor(&self.mem, s) <= up_branch {
            let s2 = self.found_state;
            self.found_state = s;
            let succ = self.create_successors(false, 0, c);
            set_successor(&mut self.mem, s, succ);
            self.found_state = s2;
        }
        let succ = successor(&self.mem, s);
        if self.order_fall == 1 && c1 == self.max_context {
            let fs = self.found_state;
            set_successor(&mut self.mem, fs, succ);
            self.text = self.text.wrapping_sub(1);
        }
        succ
    }

    /// Adds the found symbol to the contexts from the longest down to the
    /// one it was found in, creates the successor contexts, and moves on to
    /// the context of the next symbol; restores the model when memory runs
    /// out.
    pub(crate) fn update_model(&mut self)
        requires
            old(self).wf(),
        ensures
            final(self).wf(),
            final(self).same_params(*old(self)),
            final(self).min_context == final(self).max_context,
            !(old(self).order_fall == 0 && u32_at(old(self).mem@, wadd(old(self).found_state, 2) as int) != 0) && wadd(old(self).text, 1) >= old(self).units_start
                && old(self).restore_method == RestoreMethod::Restart ==> final(self).restarted(*final(self)),
            old(self).order_fall == 0 && u32_at(old(self).mem@, wadd(old(self).found_state, 2) as int) != 0
                && old(self).restore_method == RestoreMethod::Restart ==> final(self).restarted(*final(self)) || ({
                let link = wadd(final(self).found_state, 2) as int;
                link + 4 <= final(self).mem@.len() <= 0x1_0000_0000 ==> u32_at(final(self).mem@, link)
                    == final(self).min_context
            }),
    {
        let bound = self.walk_bound();
        let fs = self.found_state;
        let mut min_successor = successor(&self.mem, fs);
        let f_freq = freq(&self.mem, fs);
        let f_symbol = symbol(&self.mem, fs);
        let mut s: u32 = 0;
        if f_freq < MAX_FREQ / 4 && suffix(&self.mem, self.min_context) != 0 {
            let c = suffix(&self.mem, self.min_context);
            if num_stats(&self.mem, c) == 0 {
                s = one_state(c);
                let f = freq(&self.mem, s);
                if f < 32 {
                    set_freq(&mut self.mem, s, f + 1);
                }
            } else {
                let sts = stats(&self.mem, c);
                s = sts;
                if symbol(&self.mem, s) != f_symbol {
                    let k = self.find_symbol(sts, num_stats(&self.mem, c) + 1, f_symbol);
                    s = state_at(sts, k);
                    if k > 0 {
                        let prev = state_at(sts, k - 1);
                        if freq(&self.mem, s) >= freq(&self.mem, prev) {
                            self.swap_states(s, prev);
                            s = prev;
                        }
                    }
                }
                let f = freq(&self.mem, s);
                if f < MAX_FREQ - 9 {
                    set_freq(&mut self.mem, s, f + 2);
                    let sf = summ_freq(&self.mem, c);
                    set_summ_freq(&mut self.mem, c, sf + 2);
                }
            }
        }
        let mut c = self.max_context;
        if self.order_fall == 0 && min_successor != 0 {
            let mc = self.min_context;
            let cs = self.create_successors(true, s, mc);
            let fs = self.found_state;
            if cs == 0 {
                set_successor(&mut self.mem, fs, 0);
                self.restore_model(c);
                return;
            }
            let ghost m_pre = self.mem@;
            set_successor(&mut self.mem, fs, cs);
            self.min_context = cs;
            self.max_context = cs;
            proof {
                let link = wadd(fs, 2) as int;
                if link + 4 <= m_pre.len() <= 0x1_0000_0000 {
                    lemma_u32_read_back(m_pre, link, cs);
                }
            }
            return;
        }
        let text = self.text;
        self.mem.wr8(text, f_symbol as u8);
        let text = text.wrapping_add(1);
        self.text = text;
        if text >= self.units_start {
            self.restore_model(c);
            return;
        }
        let mut max_successor = text;
        if min_successor == 0 {
            let mc = self.min_context;
            let cs = self.reduce_order(s, mc);
            if cs == 0 {
                self.restore_model(c);
                return;
            }
            min_successor = cs;
        } else if min_successor < self.units_start {
            let mc = self.min_context;
            let cs = self.create_successors(false, s, mc);
            if cs == 0 {
                self.restore_model(c);
                return;
            }
            min_successor = cs;
        }
        self.order_fall = self.order_fall.wrapping_sub(1);
        if self.order_fall == 0 {
            max_successor = min_successor;
            if self.max_context != self.min_context {
                self.text = self.text.wrapping_sub(1);
            }
        }
        let flag = symbol_flag_exec(f_symbol as u8) as u32;
        let ns = num_stats(&self.mem, self.min_context);
        let s0 = summ_freq(&self.mem, self.min_context).wrapping_sub(ns).wrapping_sub(f_freq);
        let mut steps: u32 = 0;
        while c != self.min_context && steps < bound
            invariant
                self.wf(),
                self.same_params(*old(self)),
            decreases bound - steps,
        {
            steps = steps + 1;
            let ns1 = num_stats(&self.mem, c);
            let mut sum: u32;
            if ns1 != 0 {
                if ns1 & 1 != 0 {
                    let old_nu = (ns1 + 1) >> 1u32;
                    let i = self.tables.index(old_nu);
                    if i != self.tables.index(old_nu.wrapping_add(1)) {
                        let ptr = match self.alloc_units(i + 1) {
                            Some(p) => p,
                            None => {
                                self.restore_model(c);
                                return;
                            },
                        };
                        let old_ptr = stats(&self.mem, c);
                        self.mem.copy_within(old_ptr, ptr, old_nu.wrapping_mul(UNIT_SIZE));
                        self.insert_node(old_ptr, i);
                        set_stats(&mut self.mem, c, ptr);
                    }
                }
                sum = summ_freq(&self.mem, c);
                if 3 * ns1 + 1 < ns {
                    sum = sum + 1;
                }
            } else {
                let st = match self.alloc_units(0) {
                    Some(p) => p,
                    None => {
                        self.restore_model(c);
                        return;
                    },
                };
                let one = one_state(c);
                let mut f = freq(&self.mem, one);
                let sym = symbol(&self.mem, one);
                let succ = successor(&self.mem, one);
                set_symbol(&mut self.mem, st, sym);
                set_successor(&mut self.mem, st, succ);
                set_stats(&mut self.mem, c, st);
                if f < MAX_FREQ / 4 - 1 {
                    f = f << 1u32;
                } else {
                    f = MAX_FREQ - 4;
                }
                set_freq(&mut self.mem, st, f);
                sum = f.wrapping_add(self.init_esc).wrapping_add(if ns > 2 { 1 } else { 0 });
            }
            let s1 = state_at(stats(&self.mem, c), ns1 + 1);
            set_symbol(&mut self.mem, s1, f_symbol);
            set_num_stats(&mut self.mem, c, ns1 + 1);
            set_successor(&mut self.mem, s1, max_successor);
            let fl = flags(&self.mem, c) | flag;
            set_flags(&mut self.mem, c, fl);
            let (cf, new_sum) = added_symbol_freq_exec(sum, s0, f_freq);
            set_summ_freq(&mut self.mem, c, new_sum);
            set_freq(&mut self.mem, s1, cf);
            c = suffix(&self.mem, c);
        }
        self.min_context = min_successor;
        self.max_context = min_successor;
    }

    /// Halves the frequencies of the current context (keeping the states
    /// sorted by frequency), drops the states whose frequency became zero,
    /// and turns the context into a one-symbol context when only one is left.
    /// Turns the context at `mc` into a context of one symbol: the first
    /// state of its list at `sts`, with frequency `f`, moves into the
    /// context, which keeps its flag 0x10 and takes the symbol's flag bit,
    /// becomes the found state, and the list's block of `n0` units goes back
    /// to the free lists.
    fn into_one_state(&mut self, mc: u32, sts: u32, f: u32, n0: u32)
        requires
            old(self).wf(),
        ensures
            final(self).wf(),
            final(self).same_params(*old(self)),
            final(self).same_but_alloc(*old(self)),
            final(self).found_state == wadd(mc, 2),
            final(self).mem@.len() == old(self).mem@.len(),
            header_apart(old(self).mem@.len() as int, mc as int, sts as int, 12) ==> final(self).mem@[mc as int]
                == old(self).mem@[mc as int],
    {
        let sym = symbol(&self.mem, sts) as u8;
        let fl = (flags(&self.mem, mc) & 0x10).wrapping_add(symbol_flag_exec(sym) as u32);
        set_flags(&mut self.mem, mc, fl);
        let one = one_state(mc);
        let succ = successor(&self.mem, sts);
        set_symbol(&mut self.mem, one, sym as u32);
        set_freq(&mut self.mem, one, f);
        let ghost m_pre = self.mem@;
        set_successor(&mut self.mem, one, succ);
        self.found_state = one;
        let idx = self.tables.index(n0);
        let ghost m_ins = self.mem@;
        let ghost pre_ins = *self;
        self.insert_node(sts, idx);
        proof {
            if header_apart(old(self).mem@.len() as int, mc as int, sts as int, 12) {
                let k = mc as int;
                assert(wadd(mc, 2) == mc + 2);
                assert(wadd(one, 2) == mc + 4);
                assert(wadd(sts, 4) == sts + 4);
                assert(wadd(sts, 8) == sts + 8);
                assert(m_pre[k] == old(self).mem@[k]);
                lemma_put_u32_elsewhere(m_pre, mc + 4, succ, k);
                let s1 = put_u32(m_ins, sts as int, EMPTY_NODE);
                lemma_put_u32_elsewhere(m_ins, sts as int, EMPTY_NODE, k);
                let s2 = put_u32(s1, sts + 4, pre_ins.list_head(idx));
                lemma_put_u32_elsewhere(s1, sts + 4, pre_ins.list_head(idx), k);
                lemma_put_u32_elsewhere(s2, sts + 8, class_units(idx), k);
            }
        }
    }

    #[verifier::rlimit(70)]
    fn rescale(&mut self)
        requires
            old(self).wf(),
        ensures
            final(self).wf(),
            final(self).same_params(*old(self)),
            final(self).same_but_alloc(*old(self)),
            final(self).found_state == u32_at(final(self).mem@, wadd(old(self).min_context, 4) as int) || (
            final(self).found_state == wadd(old(self).min_context, 2) && (header_apart(
                old(self).mem@.len() as int,
                old(self).min_context as int,
                u32_at(old(self).mem@, wadd(old(self).min_context, 4) as int),
                12,
            ) ==> byte_at(final(self).mem@, old(self).min_context as int) == 0)),
    {
        let mc = self.min_context;
        let sts = stats(&self.mem, mc);
        let n = num_stats(&self.mem, mc);
        let fs = self.found_state;
        // The index of the found state in the list; it moves to the front.
        let mut k: u32 = 0;
        if fs >= sts && (fs - sts) % 6 == 0 && (fs - sts) / 6 <= n {
            k = (fs - sts) / 6;
        }
        if k > 0 {
            let tmp_sym = symbol(&self.mem, fs);
            let tmp_freq = freq(&self.mem, fs);
            let tmp_succ = successor(&self.mem, fs);
            let mut j = k;
            while j > 0
                invariant
                    self.wf(),
                    self.same_params(*old(self)),
                    self.same_but_alloc(*old(self)),
                    self.mem@.len() == old(self).mem@.len(),
                decreases j,
            {
                self.mem.copy_within(state_at(sts, j - 1), state_at(sts, j), 6);
                j = j - 1;
            }
            set_symbol(&mut self.mem, sts, tmp_sym);
            set_freq(&mut self.mem, sts, tmp_freq);
            set_successor(&mut self.mem, sts, tmp_succ);
        }
        let mut sum_freq = freq(&self.mem, sts);
        let mut esc_freq = summ_freq(&self.mem, mc).wrapping_sub(sum_freq);
        let adder: u32 = if self.order_fall != 0 { 1 } else { 0 };
        sum_freq = (sum_freq + 4 + adder) >> 1u32;
        set_freq(&mut self.mem, sts, sum_freq);
        let mut i: u32 = 1;
        while i <= n
            invariant
                self.wf(),
                self.same_params(*old(self)),
                self.same_but_alloc(*old(self)),
                self.mem@.len() == old(self).mem@.len(),
                adder <= 1,
                n < 256,
                i >= 1,
            decreases n + 1 - i,
        {
            let s = state_at(sts, i);
            let mut f = freq(&self.mem, s);
            esc_freq = esc_freq.wrapping_sub(f);
            f = (f + adder) >> 1u32;
            sum_freq = sum_freq.wrapping_add(f);
            set_freq(&mut self.mem, s, f);
            if f > freq(&self.mem, state_at(sts, i - 1)) {
                let tmp_sym = symbol(&self.mem, s);
                let tmp_succ = successor(&self.mem, s);
                let mut j = i;
                loop
                    invariant_except_break
                        1 <= j,
                    invariant
                        self.wf(),
                        self.same_params(*old(self)),
                        self.same_but_alloc(*old(self)),
                        self.mem@.len() == old(self).mem@.len(),
                        j <= i,
                        i >= 1,
                    decreases j,
                {
                    self.mem.copy_within(state_at(sts, j - 1), state_at(sts, j), 6);
                    j = j - 1;
                    if !(j != 0 && f > freq(&self.mem, state_at(sts, j - 1))) {
                        break;
                    }
                }
                let s1 = state_at(sts, j);
                set_symbol(&mut self.mem, s1, tmp_sym);
                set_freq(&mut self.mem, s1, f);
                set_successor(&mut self.mem, s1, tmp_succ);
            }
            i = i + 1;
        }
        let last = state_at(sts, n);
        if n > 0 && freq(&self.mem, last) == 0 {
            let mut zeros: u32 = 0;
            while zeros < n && freq(&self.mem, state_at(sts, n - zeros)) == 0
                invariant
                    self.wf(),
                    self.same_params(*old(self)),
                    self.same_but_alloc(*old(self)),
                    self.mem@.len() == old(self).mem@.len(),
                    zeros <= n,
                decreases n - zeros,
            {
                zeros = zeros + 1;
            }
            esc_freq = esc_freq.wrapping_add(zeros);
            let num_stats_new = n - zeros;
            set_num_stats(&mut self.mem, mc, num_stats_new);
            let ghost apart = header_apart(old(self).mem@.len() as int, mc as int, sts as int, 12);
            let ghost m_ns = self.mem;
            let n0 = (n + 2) >> 1u32;
            if num_stats_new == 0 {
                let f0 = freq(&self.mem, sts);
                let num = (2 * f0).wrapping_add(esc_freq).wrapping_sub(1);
                let mut f: u32 = if esc_freq == 0 { num } else { num / esc_freq };
                if f > MAX_FREQ / 3 {
                    f = MAX_FREQ / 3;
                }
                self.into_one_state(mc, sts, f, n0);
                proof {
                    if apart {
                        assert(self.mem@[mc as int] == m_ns@[mc as int]);
                    }
                }
                return;
            }
            let n1 = (num_stats_new + 2) >> 1u32;
            if n0 != n1 {
                let p = self.shrink_units(sts, n0, n1);
                set_stats(&mut self.mem, mc, p);
            }
        }
        let mc = self.min_context;
        set_summ_freq(&mut self.mem, mc, sum_freq.wrapping_add(esc_freq).wrapping_sub(esc_freq >> 1u32));
        let fl = flags(&self.mem, mc) | 4;
        set_flags(&mut self.mem, mc, fl);
        self.found_state = stats(&self.mem, mc);
    }

    /// Picks the SEE context of the current context and estimates its escape
    /// frequency; `num_masked` is the number of symbols less one of the
    /// context coded before. Gives the SEE index (`DUMMY_SEE` for the dummy
    /// context of the order-0 context) and the estimate.
    /// The SEE context at `i` of the table, or the dummy one past its end.
    pub(crate) open spec fn see_at(&self, i: u32) -> See {
        if i < 768 {
            self.see@[i as int]
        } else {
            self.dummy_see
        }
    }

    /// The SEE context that the escape estimate of the current context
    /// uses, `num_masked` symbols of it having been coded before.
    pub(crate) open spec fn esc_slot(&self, num_masked: u32) -> u32 {
        let m = self.mem@;
        let mc = self.min_context;
        let ns = byte_at(m, mc as int) as u32;
        let row = crate::range8::wsub(self.ns2index@[ns + 2] as u32, 3);
        let a: u32 = if u16_at(m, wadd(mc, 2) as int) > 11 * (ns + 1) {
            1
        } else {
            0
        };
        let parent_ns = byte_at(m, u32_at(m, wadd(mc, 8) as int)) as u32;
        let b: u32 = if 2 * ns < wadd(parent_ns, num_masked) {
            2
        } else {
            0
        };
        let col = (a + b + byte_at(m, wadd(mc, 1) as int)) as u32;
        if row < SEE_ROWS && col < SEE_COLS {
            (row * SEE_COLS + col) as u32
        } else {
            DUMMY_SEE
        }
    }

    pub(crate) fn make_esc_freq(&mut self, num_masked: u32) -> (r: (u32, u32))
        requires
            old(self).wf(),
        ensures
            final(self).wf(),
            final(self).same_params(*old(self)),
            r.1 >= 1,
            byte_at(old(self).mem@, old(self).min_context as int) == 0xFF ==> r == (DUMMY_SEE, 1u32) && *final(self) == *old(self),
            byte_at(old(self).mem@, old(self).min_context as int) != 0xFF ==> ({
                let i = old(self).esc_slot(num_masked);
                let est = see_estimate(old(self).see_at(i));
                &&& r == (i, est.1)
                &&& final(self).same_but_see(*old(self))
                &&& i < 768 ==> final(self).see@ == old(self).see@.update(i as int, est.0) && final(self).dummy_see
                    == old(self).dummy_see
                &&& i >= 768 ==> final(self).see@ == old(self).see@ && final(self).dummy_see == est.0
            }),
    {
        let mc = self.min_context;
        let ns = num_stats(&self.mem, mc);
        if ns != 0xFF {
            let row = self.ns2idx(ns + 2).wrapping_sub(3);
            let a: u32 = if summ_freq(&self.mem, mc) > 11 * (ns + 1) { 1 } else { 0 };
            let parent_ns = num_stats(&self.mem, suffix(&self.mem, mc));
            let b: u32 = if 2 * ns < parent_ns.wrapping_add(num_masked) { 2 } else { 0 };
            let col = a + b + flags(&self.mem, mc);
            let idx = if row < SEE_ROWS && col < SEE_COLS {
                row * SEE_COLS + col
            } else {
                DUMMY_SEE
            };
            let see = self.see_get(idx);
            let (new_see, esc) = see_estimate_exec(see);
            self.see_set(idx, new_see);
            (idx, esc)
        } else {
            (DUMMY_SEE, 1)
        }
    }

    /// Records that the symbol found through the SEE context `idx` was coded.
    pub(crate) fn see_hit(&mut self, idx: u32)
        requires
            old(self).wf(),
        ensures
            final(self).wf(),
            final(self).same_params(*old(self)),
            final(self).same_but_see(*old(self)),
            idx < 768 ==> final(self).see@ == old(self).see@.update(idx as int, see_after_hit(old(self).see@[idx as int]))
                && final(self).dummy_see == old(self).dummy_see,
            idx >= 768 ==> final(self).see@ == old(self).see@ && final(self).dummy_see == see_after_hit(old(self).dummy_see),
    {
        let see = self.see_get(idx);
        let new_see = see_after_hit_exec(see);
        self.see_set(idx, new_see);
    }

    /// Adds `total` to the sum of the SEE context `idx` after an escape.
    pub(crate) fn see_escape(&mut self, idx: u32, total: u32)
        requires
            old(self).wf(),
        ensures
            final(self).wf(),
            final(self).same_params(*old(self)),
            final(self).same_but_see(*old(self)),
            idx < 768 ==> final(self).see@ == old(self).see@.update(idx as int, see_after_escape(old(self).see@[idx as int], total))
                && final(self).dummy_see == old(self).dummy_see,
            idx >= 768 ==> final(self).see@ == old(self).see@ && final(self).dummy_see == see_after_escape(old(self).dummy_see, total),
    {
        let mut see = self.see_get(idx);
        let sum = (see.summ as u32).wrapping_add(total);
        proof {
            let a = see.summ as int + total as int;
            assert(sum as int == a % 0x1_0000_0000);
            assert((a % 0x1_0000_0000) % 0x1_0000 == a % 0x1_0000) by (nonlinear_arith);
        }
        see.summ = (sum % 0x1_0000) as u16;
        self.see_set(idx, see);
    }

    /// Moves to the successor of the found state when it is a context of
    /// the full order, else updates the model.
    fn next_context(&mut self)
        requires
            old(self).wf(),
        ensures
            final(self).wf(),
            final(self).same_params(*old(self)),
            final(self).min_context == final(self).max_context,
            ({
                let c = u32_at(old(self).mem@, wadd(old(self).found_state, 2) as int) as u32;
                old(self).order_fall == 0 && c >= old(self).units_start ==> *final(self) == (Ppmd8 {
                    min_context: c,
                    max_context: c,
                    ..*old(self)
                })
            }),
    {
        let c = successor(&self.mem, self.found_state);
        if self.order_fall == 0 && c >= self.units_start {
            self.min_context = c;
            self.max_context = c;
        } else {
            self.update_model();
        }
    }

    /// Updates the model after the found state (not the first of its
    /// context) was coded: its frequency and the context's sum grow by 4,
    /// and when it then outgrows the state before it the two change places
    /// and the found state moves ahead; then the model moves on to the next
    /// context.
    pub(crate) fn update1(&mut self)
        requires
            old(self).wf(),
        ensures
            final(self).wf(),
            final(self).same_params(*old(self)),
            final(self).min_context == final(self).max_context,
            ({
                let s = old(self).found_state;
                let mc = old(self).min_context;
                let prev = crate::range8::wsub(s, 6);
                let sw = outgrows_prev(old(self).mem@, mc, s);
                let m2 = moved_ahead(old(self).mem@, mc, s);
                let fs2 = if sw {
                    prev
                } else {
                    s
                };
                let c = u32_at(m2, wadd(fs2, 2) as int) as u32;
                disjoint_records(old(self).mem@.len() as int, s as int, prev as int, 6) && !(sw && byte_at(
                    old(self).mem@,
                    wadd(s, 1) as int,
                ) + 4 > MAX_FREQ) && old(self).order_fall == 0 && c >= old(self).units_start ==> final(self).mem@
                    == m2 && final(self).found_state == fs2 && final(self).min_context == c
            }),
    {
        let s = self.found_state;
        let f = freq(&self.mem, s) + 4;
        let mc = self.min_context;
        let sf = summ_freq(&self.mem, mc);
        set_summ_freq(&mut self.mem, mc, sf + 4);
        set_freq(&mut self.mem, s, f);
        let prev = s.wrapping_sub(6);
        if f > freq(&self.mem, prev) {
            self.swap_states(s, prev);
            self.found_state = prev;
            if f > MAX_FREQ {
                self.rescale();
            }
        }
        self.next_context();
    }

    /// Updates the model after the first state of the context was coded.
    pub(crate) fn update1_0(&mut self)
        requires
            old(self).wf(),
        ensures
            final(self).wf(),
            final(self).same_params(*old(self)),
            final(self).min_context == final(self).max_context,
    {
        let s = self.found_state;
        let mc = self.min_context;
        let f = freq(&self.mem, s);
        let sf = summ_freq(&self.mem, mc);
        self.prev_success = if 2 * f >= sf { 1 } else { 0 };
        self.run_length = self.run_length.wrapping_add(self.prev_success as i32);
        set_summ_freq(&mut self.mem, mc, sf + 4);
        set_freq(&mut self.mem, s, f + 4);
        if f + 4 > MAX_FREQ {
            self.rescale();
        }
        self.next_context();
    }

    /// Updates the model after a symbol was coded past an escape.
    pub(crate) fn update2(&mut self)
        requires
            old(self).wf(),
        ensures
            final(self).wf(),
            final(self).same_params(*old(self)),
            final(self).min_context == final(self).max_context,
    {
        let s = self.found_state;
        let f = freq(&self.mem, s) + 4;
        self.run_length = self.init_rl;
        let mc = self.min_context;
        let sf = summ_freq(&self.mem, mc);
        set_summ_freq(&mut self.mem, mc, sf + 4);
        set_freq(&mut self.mem, s, f);
        if f > MAX_FREQ {
            self.rescale();
        }
        self.update_model();
    }
}

} // verus!
