//! The PPMd7 (PPMdH) context model and its memory allocator.
//!
//! The arena holds PPMd's records: a context of 12
//! bytes holds its number of symbols (16 bits), its frequency sum (or the
//! symbol and frequency of its one symbol), the offset of its symbol list
//! (or the successor of its one symbol) and the offset of its suffix. A
//! free block starts with a 16-bit stamp and a 16-bit size in units, and
//! the free lists are linked through its first four bytes.
//!
//! As in the PPMd8 model, walks over chains stored in the arena are bounded
//! by the number of units the arena holds.
use crate::arena::{lemma_put_u32_elsewhere, lemma_u16_read_back, lemma_u32_read_back, disjoint_records, lemma_copied_within_disjoint, lemma_u32_bytes, swapped, byte_at, put_byte, put_u16, put_u32, u16_at, u32_at, Arena};
use crate::range8::{wadd, wmul};
use crate::model8::{
    bin_probs_in_scale,
    at, init_bin_esc, init_bin_esc_of, one_state, see_after_escape, see_after_hit, see_after_hit_exec, see_estimate, see_estimate_exec, set_freq, set_stats,
    set_successor, set_suffix, set_summ_freq, set_symbol, state_at, stats, successor, suffix,
    summ_freq, symbol, freq, symbol_flag, symbol_flag_exec, vset16, vset32, See,
};
use crate::prob::PPMD_BIN_SCALE;
use crate::units::{class_of, class_units, UnitTables, NUM_INDEXES, UNIT_SIZE};
use crate::Error;
use vstd::prelude::*;

verus! {

/// The largest frequency a symbol reaches before its context is rescaled.
pub const MAX_FREQ7: u32 = 124;

/// The number of SEE rows and columns of PPMd7.
pub const SEE7_ROWS: u32 = 25;
pub const SEE7_COLS: u32 = 16;

/// The index that stands for the dummy SEE context.
pub const DUMMY_SEE7: u32 = 400;

/// The frequency of a symbol in a new one-symbol context, from its count
/// `cf` less one and the rest `s0` of the frequency sum of the context below.
pub open spec fn new_context_freq7(cf: int, s0: int) -> int {
    if 2 * cf <= s0 {
        if 5 * cf > s0 {
            2
        } else {
            1
        }
    } else if s0 == 0 {
        1 + cf
    } else {
        2 + (2 * cf + s0 - 1) / (2 * s0)
    }
}

/// Computes `new_context_freq7`.
pub fn new_context_freq7_exec(cf: u32, s0: u32) -> (r: u32)
    requires
        cf <= 255,
    ensures
        r == new_context_freq7(cf as int, s0 as int),
{
    if 2 * cf <= s0 {
        if 5 * cf > s0 {
            2
        } else {
            1
        }
    } else if s0 == 0 {
        1 + cf
    } else {
        2 + (2 * cf + s0 - 1) / (2 * s0)
    }
}

/// The frequency given to a symbol that a context gains, and the context's
/// new frequency sum (PPMd7 rule, in 32-bit wrapping arithmetic).
pub open spec fn added_symbol_freq7(sum: u32, s0: u32, f_freq: u32) -> (u32, u32) {
    let cf = crate::range8::wmul(crate::range8::wmul(2, crate::range8::wadd(sum, 6)), f_freq);
    let sf = crate::range8::wadd(s0, sum);
    if cf < crate::range8::wmul(6, sf) {
        let f = 1 + (if cf > sf { 1u32 } else { 0u32 }) + (if cf >= crate::range8::wmul(4, sf) { 1u32 } else { 0u32 });
        (f as u32, crate::range8::wadd(sum, 3))
    } else {
        let f = 4 + (if cf >= crate::range8::wmul(9, sf) { 1u32 } else { 0u32 }) + (if cf >= crate::range8::wmul(12, sf) { 1u32 } else { 0u32 })
            + (if cf >= crate::range8::wmul(15, sf) { 1u32 } else { 0u32 });
        (f as u32, crate::range8::wadd(sum, f as u32))
    }
}

/// Computes `added_symbol_freq7`.
pub fn added_symbol_freq7_exec(sum: u32, s0: u32, f_freq: u32) -> (r: (u32, u32))
    ensures
        r == added_symbol_freq7(sum, s0, f_freq),
        1 <= r.0 <= 7,
{
    let a = sum.wrapping_add(6);
    let b = 2u32.wrapping_mul(a);
    let cf = b.wrapping_mul(f_freq);
    let sf = s0.wrapping_add(sum);
    let sf4 = 4u32.wrapping_mul(sf);
    let sf6 = 6u32.wrapping_mul(sf);
    let sf9 = 9u32.wrapping_mul(sf);
    let sf12 = 12u32.wrapping_mul(sf);
    let sf15 = 15u32.wrapping_mul(sf);
    if cf < sf6 {
        let f: u32 = 1 + (if cf > sf { 1u32 } else { 0u32 }) + (if cf >= sf4 { 1u32 } else { 0u32 });
        (f, sum.wrapping_add(3))
    } else {
        let f: u32 = 4 + (if cf >= sf9 { 1u32 } else { 0u32 }) + (if cf >= sf12 { 1u32 } else { 0u32 })
            + (if cf >= sf15 { 1u32 } else { 0u32 });
        (f, sum.wrapping_add(f))
    }
}

/// The number of symbols of the context at `c` (PPMd7 layout).
pub(crate) fn num_stats7(m: &Arena, c: u32) -> (r: u32)
    ensures
        r == u16_at(m@, c as int),
        r < 0x1_0000,
{
    m.rd16(c) as u32
}

pub(crate) fn set_num_stats7(m: &mut Arena, c: u32, v: u32)
    ensures
        final(m)@ == put_u16(old(m)@, c as int, v as u16),
{
    m.wr16(c, v as u16);
}

/// The root context at `mc`, with its 256 states at `s`, and the arena
/// around them fit: the states lie below the context, both inside an arena
/// that 32-bit offsets address.
pub open spec fn root_fits(len: int, mc: int, s: int) -> bool {
    0 <= s && s + 1536 <= mc && mc + 12 <= len && len <= 0x1_0000_0000
}

/// The state `j` of the list at `s` holds the symbol `j` with frequency 1
/// and no successor.
pub open spec fn initial_state_at(mem: Seq<u8>, s: int, j: int) -> bool {
    &&& mem[s + 6 * j] == j
    &&& mem[s + 6 * j + 1] == 1
    &&& mem[s + 6 * j + 2] == 0
    &&& mem[s + 6 * j + 3] == 0
    &&& mem[s + 6 * j + 4] == 0
    &&& mem[s + 6 * j + 5] == 0
}

/// The context at `mc` is the root context of a restarted model: it holds
/// the 256 symbols, each once, with frequency sum 257, its symbol list at
/// `s`, and no suffix.
pub open spec fn root_context7(mem: Seq<u8>, mc: int, s: int) -> bool {
    &&& u16_at(mem, mc) == 256
    &&& u16_at(mem, mc + 2) == 257
    &&& u32_at(mem, mc + 4) == s
    &&& u32_at(mem, mc + 8) == 0
    &&& forall|j: int| 0 <= j < 256 ==> #[trigger] initial_state_at(mem, s, j)
}

/// The initial probability of the binary context at `x` of the table: the
/// row `x / 64` and the column's escape estimate `x % 8` set it.
pub open spec fn initial_bin_prob7(x: int) -> u16 {
    (PPMD_BIN_SCALE as int - init_bin_esc_of((x % 8) as u32) as int / (x / 64 + 2)) as u16
}

/// The initial SEE context at `x` of the table: its row `x / 16` sets the sum.
pub open spec fn initial_see7(x: int) -> See {
    See { summ: (8 * (5 * (x / 16) + 10)) as u16, shift: 3, count: 4 }
}

/// The header that a restart writes at `mc` reads back as written.
proof fn lemma_root_header(m0: Seq<u8>, mc: int, s: u32)
    requires
        0 <= mc,
        mc + 12 <= m0.len(),
        m0.len() <= 0x1_0000_0000,
    ensures
        ({
            let h = put_u32(put_u32(put_u16(put_u16(m0, mc, 256), mc + 2, 257), mc + 4, s), mc + 8, 0);
            &&& h.len() == m0.len()
            &&& u16_at(h, mc) == 256
            &&& u16_at(h, mc + 2) == 257
            &&& u32_at(h, mc + 4) == s
            &&& u32_at(h, mc + 8) == 0
            &&& forall|k: int| 0 <= k < m0.len() && !(mc <= k < mc + 12) ==> #[trigger] h[k] == m0[k]
        }),
{
    let m1 = put_u16(m0, mc, 256);
    let m2 = put_u16(m1, mc + 2, 257);
    let m3 = put_u32(m2, mc + 4, s);
    let h = put_u32(m3, mc + 8, 0);
    lemma_u16_read_back(m0, mc, 256);
    lemma_u16_read_back(m1, mc + 2, 257);
    lemma_u32_read_back(m2, mc + 4, s);
    lemma_u32_read_back(m3, mc + 8, 0);
    assert(h[mc] == m1[mc] && h[mc + 1] == m1[mc + 1]);
    assert(h[mc + 2] == m2[mc + 2] && h[mc + 3] == m2[mc + 3]);
    assert(h[mc + 4] == m3[mc + 4] && h[mc + 5] == m3[mc + 5] && h[mc + 6] == m3[mc + 6] && h[mc + 7] == m3[mc
        + 7]);
}

/// Writing the initial state `i` at `o` sets its six bytes and leaves the
/// others.
pub(crate) proof fn lemma_state_write(before: Seq<u8>, o: int, i: u32)
    requires
        0 <= o,
        o + 6 <= before.len(),
        before.len() <= 0x1_0000_0000,
        i < 256,
    ensures
        ({
            let t = put_u32(put_byte(put_byte(before, o, i as u8), o + 1, 1), o + 2, 0);
            &&& t.len() == before.len()
            &&& t[o] == i && t[o + 1] == 1
            &&& t[o + 2] == 0 && t[o + 3] == 0 && t[o + 4] == 0 && t[o + 5] == 0
            &&& forall|k: int| 0 <= k < before.len() && !(o <= k < o + 6) ==> #[trigger] t[k] == before[k]
        }),
{
    let mid = put_byte(put_byte(before, o, i as u8), o + 1, 1);
    lemma_u32_read_back(mid, o + 2, 0);
}

/// An arena that agrees with `h` on the header at `mc`, where `h` holds the
/// root context's header, and holds the 256 initial states at `s`, holds the
/// root context.
proof fn lemma_root_final(m: Seq<u8>, h: Seq<u8>, mc: int, s: int)
    requires
        root_fits(m.len() as int, mc, s),
        h.len() == m.len(),
        forall|k: int| mc <= k < mc + 12 ==> #[trigger] m[k] == h[k],
        forall|j: int| 0 <= j < 256 ==> #[trigger] initial_state_at(m, s, j),
        u16_at(h, mc) == 256 && u16_at(h, mc + 2) == 257 && u32_at(h, mc + 4) == s && u32_at(h, mc + 8) == 0,
    ensures
        root_context7(m, mc, s),
{
    assert(m[mc] == h[mc] && m[mc + 1] == h[mc + 1]);
    assert(m[mc + 2] == h[mc + 2] && m[mc + 3] == h[mc + 3]);
    assert(m[mc + 4] == h[mc + 4] && m[mc + 5] == h[mc + 5] && m[mc + 6] == h[mc + 6] && m[mc + 7] == h[mc + 7]);
    assert(m[mc + 8] == h[mc + 8] && m[mc + 9] == h[mc + 9] && m[mc + 10] == h[mc + 10] && m[mc + 11] == h[mc + 11]);
}

/// Writes the root context of a restarted model at `mc`: all 256 symbols,
/// each once with frequency 1, frequency sum 257, no suffix, and its symbol
/// list at `s`.
fn init_root7(mem: &mut Arena, mc: u32, s: u32)
    ensures
        final(mem)@.len() == old(mem)@.len(),
        root_fits(old(mem)@.len() as int, mc as int, s as int) ==> root_context7(final(mem)@, mc as int, s as int),
{
    let ghost fits = root_fits(old(mem)@.len() as int, mc as int, s as int);
    let ghost m0 = mem@;
    set_num_stats7(mem, mc, 256);
    set_summ_freq(mem, mc, 257);
    set_stats(mem, mc, s);
    set_suffix(mem, mc, 0);
    let ghost h = mem@;
    proof {
        if fits {
            assert(wadd(mc, 2) == mc + 2);
            assert(wadd(mc, 4) == mc + 4);
            assert(wadd(mc, 8) == mc + 8);
            lemma_root_header(m0, mc as int, s);
        }
    }
    let mut i: u32 = 0;
    while i < 256
        invariant
            i <= 256,
            mem@.len() == old(mem)@.len(),
            h.len() == old(mem)@.len(),
            fits == root_fits(old(mem)@.len() as int, mc as int, s as int),
            fits ==> forall|k: int| mc <= k < mc + 12 ==> #[trigger] mem@[k] == h[k],
            fits ==> forall|j: int| 0 <= j < i ==> #[trigger] initial_state_at(mem@, s as int, j),
            fits ==> u16_at(h, mc as int) == 256 && u16_at(h, mc + 2) == 257 && u32_at(h, mc + 4) == s
                && u32_at(h, mc + 8) == 0,
        decreases 256 - i,
    {
        let ghost before = mem@;
        let st = state_at(s, i);
        set_symbol(mem, st, i);
        set_freq(mem, st, 1);
        set_successor(mem, st, 0);
        proof {
            if fits {
                let o = s + 6 * i;
                assert(wmul(i, 6) == 6 * i);
                assert(st == o);
                assert(wadd(st, 1) == o + 1);
                assert(wadd(st, 2) == o + 2);
                lemma_state_write(before, o, i);
                assert forall|j: int| 0 <= j < i + 1 implies #[trigger] initial_state_at(mem@, s as int, j) by {
                    if j < i {
                        assert(initial_state_at(before, s as int, j));
                    }
                }
                assert forall|k: int| mc <= k < mc + 12 implies #[trigger] mem@[k] == h[k] by {
                    assert(before[k] == h[k]);
                }
            }
        }
        i = i + 1;
    }
    proof {
        if fits {
            lemma_root_final(mem@, h, mc as int, s as int);
        }
    }
}

/// The SEE column group of a context with `i + 1` symbols: 0 for one
/// symbol, 2 for two, 4 up to eleven and 6 beyond.
pub open spec fn ns2bs7_of(i: int) -> u8 {
    if i == 0 {
        0
    } else if i == 1 {
        2
    } else if i < 11 {
        4
    } else {
        6
    }
}

/// The row of the place `j` when places go into rows of growing length
/// from row `m` on, the row `m` holding `m - lead` places.
pub open spec fn tri_row(j: int, m: int, lead: int) -> int
    decreases j,
{
    if m - lead < 1 || j < m - lead || j < 0 {
        m
    } else {
        tri_row(j - (m - lead), m + 1, lead)
    }
}

/// The SEE row of a context with `i + 1` symbols: `i` itself below 3, then
/// row `m` for `m - 2` sizes in a row.
pub open spec fn ns2index7_of(i: int) -> int {
    if i < 3 {
        i
    } else {
        tri_row(i - 3, 3, 2)
    }
}

/// A context header of 12 bytes at `mc` and a block of `k` bytes at `sts`
/// lie inside an arena of `len` bytes that 32-bit offsets address, and the
/// block stays clear of the header's first two bytes.
pub open spec fn header_apart(len: int, mc: int, sts: int, k: int) -> bool {
    &&& 0 <= mc && mc + 12 <= len
    &&& 0 <= sts && sts + k <= len
    &&& len <= 0x1_0000_0000
    &&& (sts + k <= mc || mc + 2 <= sts)
}

/// The arena `m` after the state at `s` of the context at `mc` was
/// counted: its frequency and the context's frequency sum raised by 4.
pub open spec fn counted_state(m: Seq<u8>, mc: u32, s: u32) -> Seq<u8> {
    put_byte(
        put_u16(m, wadd(mc, 2) as int, (u16_at(m, wadd(mc, 2) as int) + 4) as u16),
        wadd(s, 1) as int,
        (byte_at(m, wadd(s, 1) as int) + 4) as u8,
    )
}

/// Counting the state at `s` of the context at `mc` changes only the
/// state's frequency, raised by 4, and the context's sum, raised by 4.
pub proof fn law_counted_state(m: Seq<u8>, mc: u32, s: u32)
    requires
        mc as int + 12 <= m.len() <= 0x1_0000_0000,
        s as int + 6 <= m.len(),
        mc as int + 12 <= s || s as int + 6 <= mc,
        m[s + 1] + 4 < 256,
        u16_at(m, mc as int + 2) + 4 < 0x1_0000,
    ensures
        ({
            let m1 = counted_state(m, mc, s);
            &&& m1.len() == m.len()
            &&& m1[s + 1] == m[s + 1] + 4
            &&& u16_at(m1, mc as int + 2) == u16_at(m, mc as int + 2) + 4
            &&& forall|k: int|
                0 <= k < m.len() && k != s + 1 && k != mc + 2 && k != mc + 3 ==> #[trigger] m1[k] == m[k]
        }),
{
    assert(wadd(mc, 2) == mc + 2);
    assert(wadd(s, 1) == s + 1);
    assert((mc as int + 2 + 1) % 0x1_0000_0000 == mc + 3);
    let v = (u16_at(m, mc as int + 2) + 4) as u16;
    let m0 = put_u16(m, mc as int + 2, v);
    assert(forall|k: int| 0 <= k < m.len() && k != mc + 2 && k != mc + 3 ==> #[trigger] m0[k] == m[k]);
    assert(m0[mc + 2] == (v % 256) as u8 && m0[mc + 3] == (v / 256) as u8);
    let m1 = counted_state(m, mc, s);
    assert(m1 == put_byte(m0, s + 1, (m[s + 1] + 4) as u8));
    assert(m1[mc + 2] == m0[mc + 2] && m1[mc + 3] == m0[mc + 3]);
    assert(v as int == u16_at(m, mc as int + 2) + 4);
}

/// Whether the counted state at `s` outgrows the state before it.
pub open spec fn outgrows_prev(m: Seq<u8>, mc: u32, s: u32) -> bool {
    byte_at(m, wadd(s, 1) as int) + 4 > byte_at(counted_state(m, mc, s), wadd(crate::range8::wsub(s, 6), 1) as int)
}

/// The arena after the state at `s` was counted and, when it outgrew the
/// state before it, moved ahead of it.
pub open spec fn moved_ahead(m: Seq<u8>, mc: u32, s: u32) -> Seq<u8> {
    if outgrows_prev(m, mc, s) {
        swapped(counted_state(m, mc, s), s as int, crate::range8::wsub(s, 6) as int, 6)
    } else {
        counted_state(m, mc, s)
    }
}

/// Counting a coded state that is not the first of its context keeps what
/// the state holds, raises its frequency and the context's sum by 4, and,
/// when the raised frequency passes that of the state before it, exchanges
/// the two so that the counted state comes first: afterwards the pair is in
/// order of frequency and the other state keeps its symbol, frequency and
/// successor.
pub proof fn law_move_ahead(m: Seq<u8>, mc: u32, s: u32)
    requires
        6 <= s,
        s as int + 6 <= m.len() <= 0x1_0000_0000,
        mc as int + 4 <= m.len(),
        mc as int + 4 <= s - 6 || s + 6 <= mc + 2,
        m[s + 1] + 4 < 256,
        u16_at(m, mc as int + 2) + 4 < 0x1_0000,
    ensures
        ({
            let prev = (s - 6) as int;
            let sw = outgrows_prev(m, mc, s);
            let m2 = moved_ahead(m, mc, s);
            let fs2 = if sw {
                prev
            } else {
                s as int
            };
            &&& m2.len() == m.len()
            &&& sw == (m[s + 1] + 4 > m[prev + 1])
            &&& m2[fs2] == m[s as int]
            &&& m2[fs2 + 1] == m[s + 1] + 4
            &&& forall|k: int| 2 <= k < 6 ==> #[trigger] m2[fs2 + k] == m[s + k]
            &&& sw ==> forall|k: int| 0 <= k < 6 ==> #[trigger] m2[s + k] == m[prev + k]
            &&& sw ==> m2[fs2 + 1] > m2[s + 1]
            &&& !sw ==> m2[prev + 1] >= m2[s + 1] && forall|k: int| 0 <= k < 6 ==> #[trigger] m2[prev + k] == m[prev
                + k]
            &&& u16_at(m2, mc as int + 2) == u16_at(m, mc as int + 2) + 4
        }),
{
    let prev = (s - 6) as int;
    assert(wadd(mc, 2) == mc + 2);
    assert(wadd(s, 1) == s + 1);
    assert(crate::range8::wsub(s, 6) == s - 6);
    assert(wadd(crate::range8::wsub(s, 6), 1) == s - 5);
    assert((mc as int + 2 + 1) % 0x1_0000_0000 == mc + 3);
    let v = (u16_at(m, mc as int + 2) + 4) as u16;
    let m0 = put_u16(m, mc as int + 2, v);
    let m1 = counted_state(m, mc, s);
    assert(m1 == put_byte(m0, s + 1, (m[s + 1] + 4) as u8));
    assert(forall|k: int| 0 <= k < m.len() && k != mc + 2 && k != mc + 3 ==> #[trigger] m0[k] == m[k]);
    assert(m0[mc + 2] == (v % 256) as u8 && m0[mc + 3] == (v / 256) as u8);
    assert(forall|k: int| 0 <= k < m.len() && k != mc + 2 && k != mc + 3 && k != s + 1 ==> #[trigger] m1[k] == m[k]);
    assert(m1[s + 1] == m[s + 1] + 4);
    assert(m1[mc + 2] == m0[mc + 2] && m1[mc + 3] == m0[mc + 3]);
    assert(u16_at(m1, mc as int + 2) == (v % 256) as int + 256 * ((v / 256) as int));
    assert(v as int == u16_at(m, mc as int + 2) + 4);
}

/// A context header of 12 bytes at `mc`, a state of 6 bytes at `s` and the
/// text byte at `t` lie inside an arena of `len` bytes that 32-bit offsets
/// address, each apart from the others.
pub open spec fn laid_apart(len: int, mc: int, s: int, t: int) -> bool {
    &&& 0 <= mc && mc + 12 <= len
    &&& 0 <= s && s + 6 <= len
    &&& len <= 0x1_0000_0000
    &&& (mc + 12 <= s || s + 6 <= mc)
    &&& !(mc <= t < mc + 12)
    &&& !(s <= t < s + 6)
}

/// The PPMd7 model.
pub struct Ppmd7 {
    pub(crate) mem: Arena,
    pub(crate) tables: UnitTables,
    pub(crate) ns2index: Vec<u8>,
    pub(crate) ns2bs_index: Vec<u8>,
    pub(crate) free_list: Vec<u32>,
    pub(crate) see: Vec<See>,
    pub(crate) dummy_see: See,
    pub(crate) bin_summ: Vec<u16>,
    pub(crate) min_context: u32,
    pub(crate) max_context: u32,
    pub(crate) found_state: u32,
    pub(crate) order_fall: u32,
    pub(crate) init_esc: u32,
    pub(crate) prev_success: u32,
    pub(crate) max_order: u32,
    pub(crate) hi_bits_flag: u32,
    pub(crate) run_length: i32,
    pub(crate) init_rl: i32,
    pub(crate) size: u32,
    pub(crate) glue_count: u32,
    pub(crate) align_offset: u32,
    pub(crate) lo_unit: u32,
    pub(crate) hi_unit: u32,
    pub(crate) text: u32,
    pub(crate) units_start: u32,
}

impl Ppmd7 {
    /// The tables have their sizes and contents.
    pub(crate) open spec fn wf(&self) -> bool {
        &&& self.tables.wf()
        &&& self.ns2index@.len() == 256
        &&& forall|i: int| 0 <= i < 256 ==> #[trigger] self.ns2index@[i] <= 24
        &&& self.hi_bits_flag == 0 || self.hi_bits_flag == 8
        &&& self.ns2bs_index@.len() == 256
        &&& self.free_list@.len() == NUM_INDEXES
        &&& self.see@.len() == 400
        &&& self.bin_summ@.len() == 8192
        &&& bin_probs_in_scale(self.bin_summ@)
    }

    /// The highest order of the model.
    pub closed spec fn order(&self) -> u32 {
        self.max_order
    }

    /// The memory size of the model.
    pub closed spec fn mem_size(&self) -> u32 {
        self.size
    }

    /// The parameters that the model was made with are those of `other`.
    pub(crate) open spec fn same_params(&self, other: Self) -> bool {
        &&& self.max_order == other.max_order
        &&& self.size == other.size
    }

    /// Every field but the SEE contexts is that of `other`.
    pub(crate) open spec fn same_but_see(&self, other: Self) -> bool {
        *self == (Ppmd7 { see: self.see, dummy_see: self.dummy_see, ..other })
    }

    /// Every field but the binary-context probabilities is that of `other`.
    pub(crate) open spec fn same_but_bin(&self, other: Self) -> bool {
        *self == (Ppmd7 { bin_summ: self.bin_summ, ..other })
    }

    /// Every field but the arena and the free lists is that of `other`.
    pub(crate) open spec fn same_but_lists(&self, other: Self) -> bool {
        *self == (Ppmd7 { mem: self.mem, free_list: self.free_list, ..other })
    }

    /// The model is in its initial state, that of a restart: one context of
    /// order 0 that holds every symbol once (where the arena has room for
    /// it), the scalar state and free lists that `restarted` gives for the
    /// model's own parameters, and the initial probability and SEE tables.
    pub(crate) open spec fn is_initial(&self) -> bool {
        &&& self.restarted(*self)
        &&& root_fits(self.mem@.len() as int, self.min_context as int, self.found_state as int) ==> root_context7(
            self.mem@,
            self.min_context as int,
            self.found_state as int,
        )
        &&& forall|x: int| 0 <= x < 8192 ==> #[trigger] self.bin_summ@[x] == initial_bin_prob7(x)
        &&& forall|x: int| 0 <= x < 400 ==> #[trigger] self.see@[x] == initial_see7(x)
    }

    /// The model update takes its shortest path: the current context is the
    /// longest one and the root, the text area has room for one more byte,
    /// and the found state's successor is none or lies past the text; the
    /// context, the found state and the text byte are laid apart. The update
    /// then only appends the symbol to the text and, when the found state
    /// had no successor, points it at the text.
    pub(crate) open spec fn appends_only(&self) -> bool {
        let fs = self.found_state;
        let succ = u32_at(self.mem@, wadd(fs, 2) as int);
        &&& self.min_context == self.max_context
        &&& u32_at(self.mem@, wadd(self.min_context, 8) as int) == 0
        &&& self.order_fall != 0
        &&& wadd(self.text, 1) < self.units_start
        &&& laid_apart(self.mem@.len() as int, self.min_context as int, fs as int, self.text as int)
        &&& (succ == 0 || succ > wadd(self.text, 1))
    }

    /// Counting the found state keeps the model on the model update's
    /// shortest path.
    proof fn lemma_counted_appends(o: Self, mid: Self)
        requires
            o.appends_only(),
            byte_at(o.mem@, o.found_state as int + 1) + 4 <= MAX_FREQ7,
            u16_at(o.mem@, o.min_context as int + 2) + 4 < 0x1_0000,
            mid.mem@ == counted_state(o.mem@, o.min_context, o.found_state),
            mid.min_context == o.min_context,
            mid.max_context == o.max_context,
            mid.found_state == o.found_state,
            mid.order_fall == o.order_fall,
            mid.text == o.text,
            mid.units_start == o.units_start,
        ensures
            mid.appends_only(),
            mid.mem@[o.found_state + 1] == o.mem@[o.found_state + 1] + 4,
            u16_at(mid.mem@, o.min_context as int + 2) == u16_at(o.mem@, o.min_context as int + 2) + 4,
    {
        let m = o.mem@;
        let mc = o.min_context;
        let s = o.found_state;
        law_counted_state(m, mc, s);
        let m1 = counted_state(m, mc, s);
        assert(wadd(mc, 8) == mc + 8);
        assert(wadd(s, 2) == s + 2);
        assert(u32_at(m1, mc + 8) == u32_at(m, mc + 8));
        assert(u32_at(m1, s + 2) == u32_at(m, s + 2));
    }

    /// A model update on its shortest path leaves the found state's
    /// frequency and its context's sum as they were.
    proof fn lemma_appended_keeps(mid: Self, fin: Self)
        requires
            mid.appends_only(),
            fin.mem@.len() == mid.mem@.len(),
            forall|k: int|
                0 <= k < mid.mem@.len() && k != mid.text && !(mid.found_state + 2 <= k < mid.found_state + 6)
                    ==> #[trigger] fin.mem@[k] == mid.mem@[k],
        ensures
            fin.mem@[mid.found_state + 1] == mid.mem@[mid.found_state + 1],
            u16_at(fin.mem@, mid.min_context as int + 2) == u16_at(mid.mem@, mid.min_context as int + 2),
    {
        let mc = mid.min_context;
        assert(fin.mem@[mc + 2] == mid.mem@[mc + 2]);
        assert(fin.mem@[mc + 3] == mid.mem@[mc + 3]);
        assert((mc as int + 2 + 1) % 0x1_0000_0000 == mc + 3);
    }

    /// The allocator's state and the scalar fields are those of `other`.
    pub(crate) open spec fn same_scalars(&self, other: Self) -> bool {
        *self == (Ppmd7 { mem: self.mem, see: self.see, dummy_see: self.dummy_see, bin_summ: self.bin_summ, ..other })
    }

    /// The scalar state and the free lists of `self` are those that a restart
    /// of `prev` sets up: the text area starts at the aligned start of the
    /// arena, the units area takes the top seven eighths, the root context
    /// lies in the top unit with its 256 states in the first 128 units, and
    /// every free list is empty.
    pub(crate) open spec fn restarted(&self, prev: Self) -> bool {
        let hi0 = wadd(prev.align_offset, prev.size);
        let us = crate::range8::wsub(hi0, (prev.size / 8 / UNIT_SIZE * 7 * UNIT_SIZE) as u32);
        let rl: int = if prev.max_order < 12 {
            prev.max_order as int
        } else {
            12
        };
        &&& self.align_offset == prev.align_offset
        &&& self.text == prev.align_offset
        &&& self.units_start == us
        &&& self.hi_unit == crate::range8::wsub(hi0, UNIT_SIZE)
        &&& self.lo_unit == wadd(us, 1536)
        &&& self.glue_count == 0
        &&& self.order_fall == prev.max_order
        &&& self.init_rl == -rl - 1
        &&& self.run_length == self.init_rl
        &&& self.prev_success == 0
        &&& self.min_context == self.hi_unit
        &&& self.max_context == self.hi_unit
        &&& self.found_state == us
        &&& forall|i: int| 0 <= i < NUM_INDEXES ==> #[trigger] self.free_list@[i] == 0
        &&& self.dummy_see == (See { summ: 0, shift: 7, count: 64 })
    }

    /// Every field but the arena, the free lists and the found state is that
    /// of `other`.
    pub(crate) open spec fn same_but_alloc(&self, other: Self) -> bool {
        *self == (Ppmd7 { mem: self.mem, free_list: self.free_list, found_state: self.found_state, ..other })
    }

    /// Every field but the arena, the free lists and the glue countdown is
    /// that of `other`.
    pub(crate) open spec fn same_but_glue(&self, other: Self) -> bool {
        *self == (Ppmd7 { mem: self.mem, free_list: self.free_list, glue_count: self.glue_count, ..other })
    }

    /// Every field but the arena is that of `other`.
    pub(crate) open spec fn same_but_mem(&self, other: Self) -> bool {
        *self == (Ppmd7 { mem: self.mem, ..other })
    }

    /// The memory size of the model.
    pub(crate) fn memory_size(&self) -> (r: u32)
        ensures
            r == self.mem_size(),
            r == self.size,
    {
        self.size
    }

    pub(crate) fn ns2idx(&self, n: u32) -> (r: u32)
        requires
            self.wf(),
        ensures
            n < 256 ==> r == self.ns2index@[n as int],
            n >= 256 ==> r == 0,
    {
        if n < 256 {
            self.ns2index[n as usize] as u32
        } else {
            0
        }
    }

    pub(crate) fn ns2bs(&self, n: u32) -> (r: u32)
        requires
            self.wf(),
        ensures
            n < 256 ==> r == self.ns2bs_index@[n as int],
            n >= 256 ==> r == 0,
    {
        if n < 256 {
            self.ns2bs_index[n as usize] as u32
        } else {
            0
        }
    }

    fn fl_get(&self, i: u32) -> (r: u32)
        requires
            self.wf(),
        ensures
            i < NUM_INDEXES ==> r == self.free_list@[i as int],
            i >= NUM_INDEXES ==> r == 0,
    {
        if i < NUM_INDEXES {
            self.free_list[i as usize]
        } else {
            0
        }
    }

    fn see_get(&self, i: u32) -> (r: See)
        requires
            self.wf(),
        ensures
            i < 400 ==> r == self.see@[i as int],
            i >= 400 ==> r == self.dummy_see,
    {
        if i < 400 {
            self.see[i as usize]
        } else {
            self.dummy_see
        }
    }

    fn see_set(&mut self, i: u32, v: See)
        requires
            old(self).wf(),
        ensures
            final(self).wf(),
            final(self).same_params(*old(self)),
            final(self).max_order == old(self).max_order,
            final(self).size == old(self).size,
            final(self).same_but_see(*old(self)),
            i < 400 ==> final(self).see@ == old(self).see@.update(i as int, v)
                && final(self).dummy_see == old(self).dummy_see,
            i >= 400 ==> final(self).see@ == old(self).see@ && final(self).dummy_see == v,
    {
        if i < 400 {
            self.see.set(i as usize, v);
        } else {
            self.dummy_see = v;
        }
    }

    pub(crate) fn bs_get(&self, i: u32) -> (r: u16)
        requires
            self.wf(),
        ensures
            r < PPMD_BIN_SCALE,
            i < 8192 ==> 0 < r,
            i < 8192 ==> r == self.bin_summ@[i as int],
            i >= 8192 ==> r == 0,
    {
        if i < 8192 {
            self.bin_summ[i as usize]
        } else {
            0
        }
    }

    pub(crate) fn bs_set(&mut self, i: u32, v: u16)
        requires
            old(self).wf(),
            i < 8192 ==> 0 < v < PPMD_BIN_SCALE,
        ensures
            final(self).wf(),
            final(self).same_params(*old(self)),
            final(self).same_but_bin(*old(self)),
            i < 8192 ==> final(self).bin_summ@ == old(self).bin_summ@.update(i as int, v),
            i >= 8192 ==> final(self).bin_summ@ == old(self).bin_summ@,
    {
        vset16(&mut self.bin_summ, i, v);
    }

    /// A bound on the length of any chain in the arena.
    pub(crate) fn walk_bound(&self) -> (r: u32)
        ensures
            r >= 2,
    {
        self.size / UNIT_SIZE + 2
    }

    fn find_symbol(&self, sts: u32, count: u32, sym: u32) -> (r: u32)
        requires
            self.wf(),
        ensures
            count == 0 ==> r == 0,
            count > 0 ==> r < count,
            forall|j: u32| j < r ==> #[trigger] byte_at(self.mem@, wadd(sts, wmul(j, 6)) as int) != sym,
            (count > 0 && byte_at(self.mem@, wadd(sts, wmul(r, 6)) as int) == sym) || (forall|j: u32|
                j < count ==> #[trigger] byte_at(self.mem@, wadd(sts, wmul(j, 6)) as int) != sym),
    {
        let mut i: u32 = 0;
        while i < count
            invariant
                i <= count,
                forall|j: u32| j < i ==> #[trigger] byte_at(self.mem@, wadd(sts, wmul(j, 6)) as int) != sym,
            decreases count - i,
        {
            if symbol(&self.mem, state_at(sts, i)) == sym {
                return i;
            }
            i = i + 1;
        }
        if count == 0 {
            0
        } else {
            count - 1
        }
    }

    /// Exchanges the 6-byte state records at `a` and `b`.
    fn swap_states(&mut self, a: u32, b: u32)
        requires
            old(self).wf(),
        ensures
            final(self).wf(),
            final(self).same_params(*old(self)),
            final(self).same_but_mem(*old(self)),
            final(self).mem@.len() == old(self).mem@.len(),
            disjoint_records(old(self).mem@.len() as int, a as int, b as int, 6) ==> final(self).mem@
                == swapped(old(self).mem@, a as int, b as int, 6),
    {
        let ghost s0 = self.mem@;
        let sym = self.mem.rd8(a);
        let fr = self.mem.rd8(at(a, 1));
        let succ = self.mem.rd32(at(a, 2));
        self.mem.copy_within(b, a, 6);
        let ghost s1 = self.mem@;
        self.mem.wr8(b, sym);
        self.mem.wr8(at(b, 1), fr);
        self.mem.wr32(at(b, 2), succ);
        proof {
            if disjoint_records(s0.len() as int, a as int, b as int, 6) {
                lemma_copied_within_disjoint(s0, b, a, 6, 6);
                assert(s1[b as int] == s0[b as int]);
                assert(wadd(a, 1) == a + 1);
                assert(wadd(a, 2) == a + 2);
                assert(wadd(b, 1) == b + 1);
                assert(wadd(b, 2) == b + 2);
                assert((a + 3) % 0x1_0000_0000 == a + 3);
                assert((a + 4) % 0x1_0000_0000 == a + 4);
                assert((a + 5) % 0x1_0000_0000 == a + 5);
                assert((b + 3) % 0x1_0000_0000 == b + 3);
                assert((b + 4) % 0x1_0000_0000 == b + 4);
                assert((b + 5) % 0x1_0000_0000 == b + 5);
                lemma_u32_bytes(
                    s0[a + 2] as int,
                    s0[a + 3] as int,
                    s0[a + 4] as int,
                    s0[a + 5] as int,
                );
                assert(succ == s0[a + 2] as int + 256 * (s0[a + 3] as int + 256 * (s0[a + 4] as int + 256
                    * s0[a + 5] as int))) by (nonlinear_arith)
                    requires
                        succ == (s0[a + 2] as int + 256 * s0[a + 3] as int) + 65536 * (s0[a + 4] as int + 256
                            * s0[a + 5] as int),
                ;
                assert(self.mem@ =~= swapped(s0, a as int, b as int, 6));
            }
        }
    }

    // ----- allocator -----

    /// The head of the free list `indx`, and zero past the last list.
    pub closed spec fn list_head(&self, indx: u32) -> u32 {
        if indx < NUM_INDEXES {
            self.free_list@[indx as int]
        } else {
            0
        }
    }

    /// `self` is `prev` after the block at `node` went to the front of the
    /// free list `indx`, linking to the old head.
    pub closed spec fn inserted(&self, prev: Self, node: u32, indx: u32) -> bool {
        &&& self.same_but_lists(prev)
        &&& self.mem@ == put_u32(prev.mem@, node as int, prev.list_head(indx))
        &&& indx < NUM_INDEXES ==> self.free_list@ == prev.free_list@.update(indx as int, node)
        &&& indx >= NUM_INDEXES ==> self.free_list@ == prev.free_list@
    }

    /// `self` is `prev` after the front block `node` of the free list `indx`
    /// was taken off: the list starts at the block it linked to.
    pub closed spec fn removed(&self, prev: Self, indx: u32, node: u32) -> bool {
        &&& self.same_but_lists(prev)
        &&& self.mem == prev.mem
        &&& node == prev.list_head(indx)
        &&& indx < NUM_INDEXES ==> self.free_list@ == prev.free_list@.update(
            indx as int,
            u32_at(prev.mem@, node as int) as u32,
        )
        &&& indx >= NUM_INDEXES ==> self.free_list@ == prev.free_list@
    }

    /// `self` is `prev` after the tail of a block of class `old_indx` at
    /// `ptr`, past its first `new_indx`-class units, went to the free lists:
    /// whole when a class holds it exactly, else as the largest class that
    /// fits and the units left over.
    pub(crate) open spec fn split_off(&self, prev: Self, ptr: u32, old_indx: u32, new_indx: u32) -> bool {
        let nu = crate::range8::wsub(class_units(old_indx), class_units(new_indx));
        let p = wadd(ptr, (class_units(new_indx) * UNIT_SIZE) as u32);
        let i = class_of(nu as int) as u32;
        if class_units(i) == nu {
            self.inserted(prev, p, i)
        } else {
            let j = crate::range8::wsub(i, 1);
            let k = class_units(j);
            exists|mid: Self|
                #[trigger] mid.inserted(prev, wadd(p, (k * UNIT_SIZE) as u32), crate::range8::wsub(crate::range8::wsub(nu, k), 1))
                    && self.inserted(mid, p, j)
        }
    }

    /// Taking a block off the free list that it was just put on gives that
    /// block back and leaves the free lists as they were: the block, inside
    /// the arena, keeps the link to the list's old head.
    #[verifier::rlimit(40)]
    pub(crate) proof fn law_free_list_round_trip(m0: Self, m1: Self, m2: Self, node: u32, indx: u32, r: u32)
        requires
            m0.wf(),
            m1.inserted(m0, node, indx),
            m2.removed(m1, indx, r),
            indx < NUM_INDEXES,
            node as int + 4 <= m0.mem@.len() <= 0x1_0000_0000,
        ensures
            r == node,
            m2.free_list@ == m0.free_list@,
    {
        let head = m0.list_head(indx);
        lemma_u32_read_back(m0.mem@, node as int, head);
        assert(m2.free_list@ =~= m0.free_list@);
    }

    fn insert_node(&mut self, node: u32, indx: u32)
        requires
            old(self).wf(),
        ensures
            final(self).wf(),
            final(self).same_params(*old(self)),
            final(self).inserted(*old(self), node, indx),
    {
        let head = self.fl_get(indx);
        self.mem.wr32(node, head);
        vset32(&mut self.free_list, indx, node);
    }

    fn remove_node(&mut self, indx: u32) -> (r: u32)
        requires
            old(self).wf(),
        ensures
            final(self).wf(),
            final(self).same_params(*old(self)),
            final(self).removed(*old(self), indx, r),
    {
        let node = self.fl_get(indx);
        let next = self.mem.rd32(node);
        vset32(&mut self.free_list, indx, next);
        node
    }

    fn split_block(&mut self, ptr: u32, old_indx: u32, new_indx: u32)
        requires
            old(self).wf(),
        ensures
            final(self).wf(),
            final(self).same_params(*old(self)),
            final(self).split_off(*old(self), ptr, old_indx, new_indx),
    {
        let ghost p0 = ptr;
        let nu = self.tables.units(old_indx).wrapping_sub(self.tables.units(new_indx));
        let ptr = at(ptr, self.tables.units(new_indx) * UNIT_SIZE);
        let mut i = self.tables.index(nu);
        if self.tables.units(i) != nu {
            i = i.wrapping_sub(1);
            let k = self.tables.units(i);
            self.insert_node(at(ptr, k * UNIT_SIZE), nu.wrapping_sub(k).wrapping_sub(1));
            let ghost mid = *self;
            self.insert_node(ptr, i);
            assert(mid.inserted(*old(self), wadd(ptr, (k * UNIT_SIZE) as u32), crate::range8::wsub(crate::range8::wsub(nu, k), 1)) && self.inserted(mid, ptr, i));
            assert(i == crate::range8::wsub(class_of(nu as int) as u32, 1));
            assert(class_units(class_of(nu as int) as u32) != nu);
            assert(ptr == wadd(p0, (class_units(new_indx) * UNIT_SIZE) as u32));
            assert(nu == crate::range8::wsub(class_units(old_indx), class_units(new_indx)));
        } else {
            self.insert_node(ptr, i);
        }
    }

    fn glue_free_blocks(&mut self)
        requires
            old(self).wf(),
        ensures
            final(self).wf(),
            final(self).same_params(*old(self)),
            final(self).same_but_glue(*old(self)),
            final(self).glue_count == 255,
    {
        let bound = self.walk_bound();
        let mut n: u32 = 0;
        self.glue_count = 255;
        if self.lo_unit != self.hi_unit {
            self.mem.wr16(self.lo_unit, 1);
        }
        let mut i: u32 = 0;
        while i < NUM_INDEXES
            invariant
                self.wf(),
                self.same_params(*old(self)),
                self.same_but_glue(*old(self)),
                self.glue_count == 255,
            decreases NUM_INDEXES - i,
        {
            let nu = self.tables.units(i) as u16;
            let mut next = self.fl_get(i);
            vset32(&mut self.free_list, i, 0);
            let mut steps: u32 = 0;
            while next != 0 && steps < bound
                invariant
                    self.wf(),
                    self.same_params(*old(self)),
                    self.same_but_glue(*old(self)),
                    self.glue_count == 255,
                decreases bound - steps,
            {
                steps = steps + 1;
                let un = next;
                next = self.mem.rd32(un);
                self.mem.wr16(un, 0);
                self.mem.wr16(at(un, 2), nu);
                self.mem.wr32(at(un, 4), n);
                n = un;
            }
            i = i + 1;
        }
        let head0 = n;
        // The first node kept; the head is updated when leading nodes are
        // dropped (`prev_head`), else the `next` field of `prev_node`.
        let mut head = head0;
        let mut prev_head = true;
        let mut prev_node: u32 = 0;
        let mut steps: u32 = 0;
        while n != 0 && steps < bound
            invariant
                self.wf(),
                self.same_params(*old(self)),
                self.same_but_glue(*old(self)),
                self.glue_count == 255,
            decreases bound - steps,
        {
            steps = steps + 1;
            let node = n;
            let mut nu = self.mem.rd16(at(node, 2)) as u32;
            n = self.mem.rd32(at(node, 4));
            if nu == 0 {
                if prev_head {
                    head = n;
                } else {
                    self.mem.wr32(at(prev_node, 4), n);
                }
            } else {
                prev_head = false;
                prev_node = node;
                let mut merges: u32 = 0;
                while merges < bound
                    invariant
                        self.wf(),
                        self.same_params(*old(self)),
                        self.same_but_glue(*old(self)),
                        self.glue_count == 255,
                    decreases bound - merges,
                {
                    merges = merges + 1;
                    let node2 = at(node, nu.wrapping_mul(UNIT_SIZE));
                    nu = nu.wrapping_add(self.mem.rd16(at(node2, 2)) as u32);
                    if self.mem.rd16(node2) != 0 || nu >= 0x10000 {
                        break;
                    }
                    self.mem.wr16(at(node, 2), nu as u16);
                    self.mem.wr16(at(node2, 2), 0);
                }
            }
        }
        let mut n = head;
        let mut steps: u32 = 0;
        while n != 0 && steps < bound
            invariant
                self.wf(),
                self.same_params(*old(self)),
                self.same_but_glue(*old(self)),
                self.glue_count == 255,
            decreases bound - steps,
        {
            steps = steps + 1;
            let mut node = n;
            let mut nu = self.mem.rd16(at(node, 2)) as u32;
            n = self.mem.rd32(at(node, 4));
            if nu != 0 {
                let mut cuts: u32 = 0;
                while nu > 128 && cuts < bound
                    invariant
                        self.wf(),
                        self.same_params(*old(self)),
                        self.same_but_glue(*old(self)),
                        self.glue_count == 255,
                    decreases bound - cuts,
                {
                    cuts = cuts + 1;
                    self.insert_node(node, NUM_INDEXES - 1);
                    nu = nu - 128;
                    node = at(node, 128 * UNIT_SIZE);
                }
                let mut idx = self.tables.index(nu);
                if self.tables.units(idx) != nu {
                    idx = idx.wrapping_sub(1);
                    let k = self.tables.units(idx);
                    self.insert_node(at(node, k * UNIT_SIZE), nu.wrapping_sub(k).wrapping_sub(1));
                }
                self.insert_node(node, idx);
            }
        }
    }

    /// The first size class from `j` on whose free list is not empty, or
    /// `NUM_INDEXES` when there is none.
    pub(crate) open spec fn first_filled(&self, j: u32) -> u32
        decreases NUM_INDEXES - j,
    {
        if j >= NUM_INDEXES {
            NUM_INDEXES
        } else if self.list_head(j) != 0 {
            j
        } else {
            self.first_filled((j + 1) as u32)
        }
    }

    /// The first size class above `indx` whose free list is not empty, or
    /// `NUM_INDEXES` when there is none.
    pub(crate) open spec fn larger_filled(&self, indx: u32) -> u32 {
        if indx < NUM_INDEXES - 1 {
            self.first_filled((indx + 1) as u32)
        } else {
            NUM_INDEXES
        }
    }

    /// Without a pending glue: takes a block of the first larger class with
    /// a free block and gives its tail back to the free lists, else cuts the
    /// block from the bottom of the units area when the text area leaves room.
    fn alloc_units_rare(&mut self, indx: u32) -> (r: Option<u32>)
        requires
            old(self).wf(),
        ensures
            final(self).wf(),
            final(self).same_params(*old(self)),
            final(self).min_context == old(self).min_context,
            final(self).max_context == old(self).max_context,
            old(self).glue_count != 0 && old(self).larger_filled(indx) < NUM_INDEXES ==> r == Some(
                old(self).list_head(old(self).larger_filled(indx)),
            ),
            old(self).glue_count != 0 && old(self).larger_filled(indx) < NUM_INDEXES ==> (exists|mid: Self|
                #[trigger] mid.removed(
                    *old(self),
                    old(self).larger_filled(indx),
                    old(self).list_head(old(self).larger_filled(indx)),
                ) && final(self).split_off(
                    mid,
                    old(self).list_head(old(self).larger_filled(indx)),
                    old(self).larger_filled(indx),
                    indx,
                )),
            old(self).glue_count != 0 && old(self).larger_filled(indx) >= NUM_INDEXES ==> ({
                let nb = (class_units(indx) * UNIT_SIZE) as u32;
                let us = old(self).units_start;
                let glue = crate::range8::wsub(old(self).glue_count, 1);
                if crate::range8::wsub(us, old(self).text) > nb {
                    r == Some(crate::range8::wsub(us, nb)) && *final(self) == (Ppmd7 {
                        units_start: crate::range8::wsub(us, nb),
                        glue_count: glue,
                        ..*old(self)
                    })
                } else {
                    r is None && *final(self) == (Ppmd7 { glue_count: glue, ..*old(self) })
                }
            }),
    {
        if self.glue_count == 0 {
            self.glue_free_blocks();
            if self.fl_get(indx) != 0 {
                return Some(self.remove_node(indx));
            }
        }
        let mut i = indx;
        loop
            invariant_except_break
                old(self).glue_count != 0 && indx < NUM_INDEXES - 1 && i < NUM_INDEXES ==> old(self).first_filled(
                    (indx + 1) as u32,
                ) == old(self).first_filled((i + 1) as u32),
            invariant
                self.wf(),
                self.same_params(*old(self)),
                self.min_context == old(self).min_context,
                self.max_context == old(self).max_context,
                old(self).glue_count != 0 ==> *self == *old(self),
                indx <= i,
                i < NUM_INDEXES || i == indx,
            ensures
                self.wf(),
                self.same_params(*old(self)),
                self.min_context == old(self).min_context,
                self.max_context == old(self).max_context,
                old(self).glue_count != 0 ==> *self == *old(self) && indx < i < NUM_INDEXES && old(self).first_filled(
                    (indx + 1) as u32,
                ) == i && old(self).list_head(i) != 0,
            decreases NUM_INDEXES - i,
        {
            if i >= NUM_INDEXES - 1 {
                let num_bytes = self.tables.units(indx) * UNIT_SIZE;
                let us = self.units_start;
                self.glue_count = self.glue_count.wrapping_sub(1);
                if us.wrapping_sub(self.text) > num_bytes {
                    self.units_start = us.wrapping_sub(num_bytes);
                    return Some(self.units_start);
                } else {
                    return None;
                }
            }
            i = i + 1;
            if self.fl_get(i) != 0 {
                break;
            }
        }
        let block = self.remove_node(i);
        let ghost mid = *self;
        self.split_block(block, i, indx);
        proof {
            if old(self).glue_count != 0 {
                assert(mid.removed(*old(self), i, block));
            }
        }
        Some(block)
    }

    fn alloc_units(&mut self, indx: u32) -> (r: Option<u32>)
        requires
            old(self).wf(),
        ensures
            final(self).wf(),
            final(self).same_params(*old(self)),
            final(self).min_context == old(self).min_context,
            final(self).max_context == old(self).max_context,
            old(self).list_head(indx) != 0 ==> r == Some(old(self).list_head(indx))
                && final(self).removed(*old(self), indx, old(self).list_head(indx)),
            old(self).list_head(indx) == 0 && crate::range8::wsub(old(self).hi_unit, old(self).lo_unit)
                >= class_units(indx) * UNIT_SIZE ==> r == Some(old(self).lo_unit) && *final(self) == (Ppmd7 {
                lo_unit: wadd(old(self).lo_unit, (class_units(indx) * UNIT_SIZE) as u32),
                ..*old(self)
            }),
    {
        if self.fl_get(indx) != 0 {
            return Some(self.remove_node(indx));
        }
        let num_bytes = self.tables.units(indx) * UNIT_SIZE;
        let lo = self.lo_unit;
        if self.hi_unit.wrapping_sub(lo) >= num_bytes {
            self.lo_unit = at(lo, num_bytes);
            return Some(lo);
        }
        self.alloc_units_rare(indx)
    }
}

impl Ppmd7 {
    /// A model of order `max_order` in `mem_size` bytes of memory, in its
    /// initial state. Fails with `MemoryAllocation` when the memory cannot
    /// be had.
    #[verifier::loop_isolation(false)]
    pub(crate) fn new(max_order: u32, mem_size: u32) -> (r: Result<Ppmd7, Error>)
        requires
            1 <= mem_size <= u32::MAX - 3,
        ensures
            r matches Ok(m) ==> m.wf() && m.order() == max_order && m.mem_size() == mem_size,
            r matches Ok(m) ==> m.max_order == max_order && m.size == mem_size,
            r matches Ok(m) ==> m.is_initial() && m.align_offset == (crate::range8::wsub(4, mem_size) & 3),
            r matches Ok(m) ==> m.mem@.len() == m.align_offset + mem_size && m.align_offset <= 3,
            r matches Ok(m) ==> forall|i: int| 0 <= i < 256 ==> #[trigger] m.ns2bs_index@[i] == ns2bs7_of(i),
            r matches Ok(m) ==> forall|i: int| 0 <= i < 256 ==> #[trigger] m.ns2index@[i] == ns2index7_of(i),
            r matches Err(e) ==> e == Error::MemoryAllocation,
    {
        let tables = UnitTables::new();
        let mut ns2bs_index: Vec<u8> = Vec::new();
        let mut i: u32 = 0;
        while i < 256
            invariant
                i <= 256,
                ns2bs_index@.len() == i,
                forall|j: int| 0 <= j < i ==> #[trigger] ns2bs_index@[j] == ns2bs7_of(j),
            decreases 256 - i,
        {
            let v: u8 = if i == 0 {
                0
            } else if i == 1 {
                2
            } else if i < 11 {
                4
            } else {
                6
            };
            ns2bs_index.push(v);
            i = i + 1;
        }
        let mut ns2index: Vec<u8> = Vec::new();
        let mut i: u32 = 0;
        while i < 3
            invariant
                i <= 3,
                ns2index@.len() == i,
                forall|j: int| 0 <= j < i ==> #[trigger] ns2index@[j] <= 24,
                forall|j: int| 0 <= j < i ==> #[trigger] ns2index@[j] == ns2index7_of(j),
            decreases 3 - i,
        {
            ns2index.push(i as u8);
            i = i + 1;
        }
        let mut m: u32 = 3;
        let mut k: u32 = 1;
        while i < 256
            invariant
                3 <= i <= 256,
                ns2index@.len() == i,
                3 <= m <= i + 1,
                1 <= k <= m - 2,
                2 * i == 6 + (m - 3) * (m - 2) + 2 * (m - 2 - k),
                forall|j: int| 0 <= j < i ==> #[trigger] ns2index@[j] <= 24,
                forall|j: int| 0 <= j < i ==> #[trigger] ns2index@[j] == ns2index7_of(j),
                forall|d: int| d >= 0 ==> #[trigger] tri_row(i - 3 + d, 3, 2) == tri_row(m - 2 - k + d, m as int, 2),
            decreases 256 - i,
        {
            proof {
                assert(m <= 24) by (nonlinear_arith)
                    requires
                        i < 256,
                        3 <= m,
                        1 <= k <= m - 2,
                        2 * i == 6 + (m - 3) * (m - 2) + 2 * (m - 2 - k),
                ;
            }
            proof {
                assert(tri_row(i - 3 + 0, 3, 2) == tri_row(m - 2 - k + 0, m as int, 2));
                assert(ns2index7_of(i as int) == m);
            }
            ns2index.push(m as u8);
            let ghost (m0, k0, i0) = (m, k, i);
            k = k - 1;
            if k == 0 {
                m = m + 1;
                k = m - 2;
                proof {
                    assert((m0 - 3) * (m0 - 2) + 2 * (m0 - 2) == (m0 - 2) * (m0 - 1)) by (nonlinear_arith);
                }
            }
            i = i + 1;
            proof {
                assert forall|d: int| d >= 0 implies #[trigger] tri_row(i - 3 + d, 3, 2) == tri_row(m - 2 - k + d, m as int, 2) by {
                    assert(tri_row(i0 - 3 + (d + 1), 3, 2) == tri_row(m0 - 2 - k0 + (d + 1), m0 as int, 2));
                    if k0 == 1 {
                        assert(tri_row(m0 - 2 + d, m0 as int, 2) == tri_row(d, m0 + 1, 2));
                    }
                }
            }
        }
        let mut free_list: Vec<u32> = Vec::new();
        let mut i: u32 = 0;
        while i < NUM_INDEXES
            invariant
                i <= NUM_INDEXES,
                free_list@.len() == i,
            decreases NUM_INDEXES - i,
        {
            free_list.push(0);
            i = i + 1;
        }
        let mut see: Vec<See> = Vec::new();
        let mut i: u32 = 0;
        while i < 400
            invariant
                i <= 400,
                see@.len() == i,
            decreases 400 - i,
        {
            see.push(See { summ: 0, shift: 0, count: 0 });
            i = i + 1;
        }
        let mut bin_summ: Vec<u16> = Vec::new();
        let mut i: u32 = 0;
        while i < 8192
            invariant
                i <= 8192,
                bin_summ@.len() == i,
                bin_probs_in_scale(bin_summ@),
            decreases 8192 - i,
        {
            bin_summ.push(1);
            i = i + 1;
        }
        let align_offset = 4u32.wrapping_sub(mem_size) & 3;
        proof {
            assert(align_offset <= 3) by (bit_vector)
                requires align_offset == 4u32.wrapping_sub(mem_size) & 3;
        }
        let mem = match Arena::try_new(align_offset + mem_size) {
            Some(a) => a,
            None => {
                return Err(Error::MemoryAllocation);
            },
        };
        let mut model = Ppmd7 {
            mem,
            tables,
            ns2index,
            ns2bs_index,
            free_list,
            see,
            dummy_see: See { summ: 0, shift: 0, count: 0 },
            bin_summ,
            min_context: 0,
            max_context: 0,
            found_state: 0,
            order_fall: 0,
            init_esc: 0,
            prev_success: 0,
            max_order,
            hi_bits_flag: 0,
            run_length: 0,
            init_rl: 0,
            size: mem_size,
            glue_count: 0,
            align_offset,
            lo_unit: 0,
            hi_unit: 0,
            text: 0,
            units_start: 0,
        };
        model.restart_model();
        Ok(model)
    }

    /// Resets the model to its initial state: one context of order 0 that
    /// holds all 256 symbols with frequency 1, and the initial probability
    /// and SEE tables.
    pub(crate) fn restart_model(&mut self)
        requires
            old(self).wf(),
        ensures
            final(self).wf(),
            final(self).same_params(*old(self)),
            final(self).restarted(*old(self)),
            final(self).ns2index == old(self).ns2index && final(self).ns2bs_index == old(self).ns2bs_index,
            final(self).mem@.len() == old(self).mem@.len(),
            root_fits(old(self).mem@.len() as int, final(self).min_context as int, final(self).found_state as int)
                ==> root_context7(final(self).mem@, final(self).min_context as int, final(self).found_state as int),
            forall|x: int| 0 <= x < 8192 ==> #[trigger] final(self).bin_summ@[x] == initial_bin_prob7(x),
            forall|x: int| 0 <= x < 400 ==> #[trigger] final(self).see@[x] == initial_see7(x),
            final(self).max_order == old(self).max_order,
            final(self).size == old(self).size,
    {
        let mut j: u32 = 0;
        while j < NUM_INDEXES
            invariant
                self.wf(),
                self.same_params(*old(self)),
                self.max_order == old(self).max_order,
                self.size == old(self).size,
                j <= NUM_INDEXES,
                self.same_but_lists(*old(self)),
                self.mem == old(self).mem,
                forall|x: int| 0 <= x < j ==> #[trigger] self.free_list@[x] == 0,
            decreases NUM_INDEXES - j,
        {
            self.free_list.set(j as usize, 0);
            j = j + 1;
        }
        self.text = self.align_offset;
        self.hi_unit = at(self.text, self.size);
        self.units_start = self.hi_unit.wrapping_sub(self.size / 8 / UNIT_SIZE * 7 * UNIT_SIZE);
        self.lo_unit = self.units_start;
        self.glue_count = 0;
        self.order_fall = self.max_order;
        let rl: i32 = if self.max_order < 12 {
            self.max_order as i32
        } else {
            12
        };
        self.init_rl = -rl - 1;
        self.run_length = self.init_rl;
        self.prev_success = 0;
        self.hi_unit = self.hi_unit.wrapping_sub(UNIT_SIZE);
        let mc = self.hi_unit;
        let s = self.lo_unit;
        self.lo_unit = at(self.lo_unit, 128 * UNIT_SIZE);
        self.min_context = mc;
        self.max_context = mc;
        self.found_state = s;
        let ghost set = *self;
        init_root7(&mut self.mem, mc, s);
        let ghost mem_done = self.mem;
        let mut i: u32 = 0;
        while i < 128
            invariant
                self.wf(),
                self.same_params(*old(self)),
                self.same_scalars(set),
                self.mem == mem_done,
                self.max_order == old(self).max_order,
                self.size == old(self).size,
                i <= 128,
                forall|x: int| 0 <= x < i * 64 ==> #[trigger] self.bin_summ@[x] == initial_bin_prob7(x),
            decreases 128 - i,
        {
            let mut k: u32 = 0;
            while k < 8
                invariant
                    self.wf(),
                    self.same_params(*old(self)),
                    self.same_scalars(set),
                    self.mem == mem_done,
                    self.max_order == old(self).max_order,
                    self.size == old(self).size,
                    i < 128,
                    k <= 8,
                    forall|x: int| 0 <= x < i * 64 ==> #[trigger] self.bin_summ@[x] == initial_bin_prob7(x),
                    forall|x: int|
                        i * 64 <= x < i * 64 + 64 && x % 8 < k ==> #[trigger] self.bin_summ@[x] == initial_bin_prob7(x),
                decreases 8 - k,
            {
                let esc = init_bin_esc(k);
                let q = esc / (i + 2);
                proof {
                    assert(q <= esc / 2) by {
                        vstd::arithmetic::div_mod::lemma_div_is_ordered_by_denominator(
                            esc as int,
                            2,
                            i as int + 2,
                        );
                    }
                    assert(q >= 1) by {
                        vstd::arithmetic::div_mod::lemma_div_is_ordered_by_denominator(
                            esc as int,
                            i as int + 2,
                            130,
                        );
                        vstd::arithmetic::div_mod::lemma_div_is_ordered(0x1F3F, esc as int, 130);
                    }
                }
                let val = PPMD_BIN_SCALE.wrapping_sub(q) as u16;
                assert(0 < val < PPMD_BIN_SCALE);
                assert forall|x: int| i * 64 <= x < i * 64 + 64 && x % 8 == k implies initial_bin_prob7(x) == val by {
                    assert(x / 64 == i);
                }
                let mut m: u32 = 0;
                while m < 64
                    invariant
                        self.wf(),
                        self.same_params(*old(self)),
                        self.same_scalars(set),
                        self.mem == mem_done,
                        self.max_order == old(self).max_order,
                        self.size == old(self).size,
                        i < 128,
                        k < 8,
                        m <= 64,
                        m % 8 == 0,
                        0 < val < PPMD_BIN_SCALE,
                        forall|x: int| i * 64 <= x < i * 64 + 64 && x % 8 == k ==> initial_bin_prob7(x) == val,
                        forall|x: int| 0 <= x < i * 64 ==> #[trigger] self.bin_summ@[x] == initial_bin_prob7(x),
                        forall|x: int|
                            i * 64 <= x < i * 64 + 64 && x % 8 < k ==> #[trigger] self.bin_summ@[x] == initial_bin_prob7(x),
                        forall|x: int|
                            i * 64 <= x < i * 64 + 64 && x % 8 == k && x - i * 64 - k < m ==> #[trigger] self.bin_summ@[x]
                                == initial_bin_prob7(x),
                    decreases 64 - m,
                {
                    vset16(&mut self.bin_summ, i * 64 + k + m, val);
                    proof {
                        let idx = i * 64 + k + m;
                        assert(idx % 8 == k);
                        assert forall|x: int|
                            i * 64 <= x < i * 64 + 64 && x % 8 == k && x - i * 64 - k < m + 8 implies #[trigger] self.bin_summ@[x]
                                == initial_bin_prob7(x) by {
                            if x != idx {
                                assert(x - i * 64 - k < m);
                            }
                        }
                    }
                    m = m + 8;
                }
                k = k + 1;
            }
            i = i + 1;
        }
        let ghost bins = self.bin_summ@;
        let mut i: u32 = 0;
        while i < SEE7_ROWS
            invariant
                self.wf(),
                self.same_params(*old(self)),
                self.same_scalars(set),
                self.mem == mem_done,
                self.max_order == old(self).max_order,
                self.size == old(self).size,
                self.bin_summ@ == bins,
                i <= SEE7_ROWS,
                forall|x: int| 0 <= x < i * 16 ==> #[trigger] self.see@[x] == initial_see7(x),
            decreases SEE7_ROWS - i,
        {
            let sh = (5 * i + 10) << 3u32;
            proof {
                vstd::arithmetic::power2::lemma2_to64();
                vstd::bits::lemma_u32_shl_is_mul((5 * i + 10) as u32, 3);
            }
            let summ = sh as u16;
            let mut k: u32 = 0;
            while k < SEE7_COLS
                invariant
                    self.wf(),
                    self.same_params(*old(self)),
                    self.same_scalars(set),
                    self.mem == mem_done,
                    self.max_order == old(self).max_order,
                    self.size == old(self).size,
                    i < SEE7_ROWS,
                    k <= SEE7_COLS,
                    self.bin_summ@ == bins,
                    summ == 8 * (5 * i + 10),
                    forall|x: int| 0 <= x < i * 16 + k ==> #[trigger] self.see@[x] == initial_see7(x),
                decreases SEE7_COLS - k,
            {
                self.see_set(i * SEE7_COLS + k, See { summ, shift: 3, count: 4 });
                proof {
                    assert((i * 16 + k) as int / 16 == i);
                }
                k = k + 1;
            }
            i = i + 1;
        }
        self.dummy_see = See { summ: 0, shift: 7, count: 64 };
    }

    /// Creates the chain of one-symbol contexts that continue the found
    /// state, from the current context on, and links the states on the way
    /// to it. Gives the new context, or `None` when memory ran out.
    fn create_successors(&mut self) -> (r: Option<u32>)
        requires
            old(self).wf(),
        ensures
            final(self).wf(),
            final(self).same_params(*old(self)),
    {
        let bound = self.walk_bound();
        let mut c = self.min_context;
        let fs = self.found_state;
        let mut up_branch = successor(&self.mem, fs);
        let mut ps: Vec<u32> = Vec::new();
        if self.order_fall != 0 {
            ps.push(fs);
        }
        let mut steps: u32 = 0;
        while suffix(&self.mem, c) != 0 && steps < bound
            invariant
                self.wf(),
                self.same_params(*old(self)),
            decreases bound - steps,
        {
            steps = steps + 1;
            c = suffix(&self.mem, c);
            let s;
            if num_stats7(&self.mem, c) != 1 {
                let sym = symbol(&self.mem, self.found_state);
                let sts = stats(&self.mem, c);
                let k = self.find_symbol(sts, num_stats7(&self.mem, c), sym);
                s = state_at(sts, k);
            } else {
                s = one_state(c);
            }
            let succ = successor(&self.mem, s);
            if succ != up_branch {
                c = succ;
                if ps.len() == 0 {
                    return Some(c);
                }
                break;
            }
            ps.push(s);
        }
        let new_sym = self.mem.rd8(up_branch) as u32;
        up_branch = up_branch.wrapping_add(1);
        let new_freq: u32;
        if num_stats7(&self.mem, c) == 1 {
            new_freq = freq(&self.mem, one_state(c));
        } else {
            let sts = stats(&self.mem, c);
            let k = self.find_symbol(sts, num_stats7(&self.mem, c), new_sym);
            let s = state_at(sts, k);
            let f0 = freq(&self.mem, s);
            let cf = if f0 == 0 { 0 } else { f0 - 1 };
            let s0 = summ_freq(&self.mem, c).wrapping_sub(num_stats7(&self.mem, c)).wrapping_sub(cf);
            new_freq = new_context_freq7_exec(cf, s0);
        }
        if ps.len() == 0 {
            return Some(c);
        }
        let mut n = ps.len();
        while n > 0
            invariant
                self.wf(),
                self.same_params(*old(self)),
                n <= ps@.len(),
            decreases n,
        {
            let c1;
            if self.hi_unit != self.lo_unit {
                self.hi_unit = self.hi_unit.wrapping_sub(UNIT_SIZE);
                c1 = self.hi_unit;
            } else if self.fl_get(0) != 0 {
                c1 = self.remove_node(0);
            } else {
                match self.alloc_units_rare(0) {
                    Some(p) => {
                        c1 = p;
                    },
                    None => {
                        return None;
                    },
                }
            }
            set_num_stats7(&mut self.mem, c1, 1);
            let one = one_state(c1);
            set_symbol(&mut self.mem, one, new_sym);
            set_freq(&mut self.mem, one, new_freq);
            set_successor(&mut self.mem, one, up_branch);
            set_suffix(&mut self.mem, c1, c);
            n = n - 1;
            let p = ps[n];
            set_successor(&mut self.mem, p, c1);
            c = c1;
        }
        Some(c)
    }

    /// Adds the found symbol to the contexts from the longest down to the
    /// one it was found in, creates the successor contexts, and moves on to
    /// the context of the next symbol; restarts the model when memory runs
    /// out.
    #[verifier::rlimit(60)]
    pub(crate) fn update_model(&mut self)
        requires
            old(self).wf(),
        ensures
            final(self).wf(),
            final(self).same_params(*old(self)),
            final(self).min_context == final(self).max_context,
            old(self).appends_only() ==> final(self).mem@.len() == old(self).mem@.len() && forall|k: int|
                0 <= k < old(self).mem@.len() && k != old(self).text && !(old(self).found_state + 2 <= k
                    < old(self).found_state + 6) ==> #[trigger] final(self).mem@[k] == old(self).mem@[k],
            old(self).order_fall != 0 && wadd(old(self).text, 1) >= old(self).units_start ==> final(self).restarted(*final(self)),
            old(self).order_fall == 0 ==> final(self).restarted(*final(self)) || ({
                let link = wadd(final(self).found_state, 2) as int;
                link + 4 <= final(self).mem@.len() <= 0x1_0000_0000 ==> u32_at(final(self).mem@, link)
                    == final(self).min_context
            }),
    {
        let ghost p_path = old(self).appends_only();
        let bound = self.walk_bound();
        let fs = self.found_state;
        let f_freq0 = freq(&self.mem, fs);
        if f_freq0 < MAX_FREQ7 / 4 && suffix(&self.mem, self.min_context) != 0 {
            let c = suffix(&self.mem, self.min_context);
            if num_stats7(&self.mem, c) == 1 {
                let s = one_state(c);
                let f = freq(&self.mem, s);
                if f < 32 {
                    set_freq(&mut self.mem, s, f + 1);
                }
            } else {
                let sts = stats(&self.mem, c);
                let sym = symbol(&self.mem, fs);
                let mut s = sts;
                if symbol(&self.mem, s) != sym {
                    let k = self.find_symbol(sts, num_stats7(&self.mem, c), sym);
                    s = state_at(sts, k);
                    if k > 0 {
                        let prev = state_at(sts, k - 1);
                        if freq(&self.mem, s) >= freq(&self.mem, prev) {
                            self.swap_states(s, prev);
                            s = prev;
                        }
                    }
                }
                let f = freq(&self.mem, s);
                if f < MAX_FREQ7 - 9 {
                    set_freq(&mut self.mem, s, f + 2);
                    let sf = summ_freq(&self.mem, c);
                    set_summ_freq(&mut self.mem, c, sf + 2);
                }
            }
        }
        if self.order_fall == 0 {
            match self.create_successors() {
                Some(cs) => {
                    self.min_context = cs;
                    self.max_context = cs;
                    let fs = self.found_state;
                    let ghost m_pre = self.mem@;
                    set_successor(&mut self.mem, fs, cs);
                    proof {
                        let link = wadd(fs, 2) as int;
                        if link + 4 <= m_pre.len() <= 0x1_0000_0000 {
                            lemma_u32_read_back(m_pre, link, cs);
                        }
                    }
                },
                None => {
                    self.restart_model();
                },
            }
            return;
        }
        let ghost at_text = *self;
        let text = self.text;
        let fsym = symbol(&self.mem, self.found_state);
        self.mem.wr8(text, fsym as u8);
        let text = text.wrapping_add(1);
        self.text = text;
        if text >= self.units_start {
            self.restart_model();
            return;
        }
        let mut max_successor = text;
        let mut min_successor = successor(&self.mem, self.found_state);
        if min_successor != 0 {
            if min_successor <= max_successor {
                match self.create_successors() {
                    Some(cs) => {
                        min_successor = cs;
                    },
                    None => {
                        self.restart_model();
                        return;
                    },
                }
            }
            self.order_fall = self.order_fall.wrapping_sub(1);
            if self.order_fall == 0 {
                max_successor = min_successor;
                if self.max_context != self.min_context {
                    self.text = self.text.wrapping_sub(1);
                }
            }
        } else {
            let fs = self.found_state;
            let ghost m_pre = self.mem@;
            set_successor(&mut self.mem, fs, max_successor);
            proof {
                if laid_apart(old(self).mem@.len() as int, old(self).min_context as int, fs as int, old(self).text as int) {
                    assert(wadd(fs, 2) == fs + 2);
                    lemma_u32_read_back(m_pre, fs + 2, max_successor);
                }
            }
            min_successor = self.min_context;
        }
        let mc = self.min_context;
        let mut c = self.max_context;
        self.min_context = min_successor;
        self.max_context = min_successor;
        if c == mc {
            return;
        }
        assert(!p_path);
        let fs = self.found_state;
        let ns = num_stats7(&self.mem, mc);
        let s0 = summ_freq(&self.mem, mc).wrapping_sub(ns).wrapping_sub(freq(&self.mem, fs).wrapping_sub(1));
        let mut steps: u32 = 0;
        loop
            invariant_except_break
                steps < bound,
            invariant
                !p_path,
                p_path == old(self).appends_only(),
                self.wf(),
                self.same_params(*old(self)),
                self.min_context == self.max_context,
            decreases bound - steps,
        {
            steps = steps + 1;
            let ns1 = num_stats7(&self.mem, c);
            let mut sum: u32;
            if ns1 != 1 {
                if ns1 & 1 == 0 {
                    let old_nu = ns1 >> 1u32;
                    let i = self.tables.index(old_nu);
                    if i != self.tables.index(old_nu.wrapping_add(1)) {
                        let ptr = match self.alloc_units(i + 1) {
                            Some(p) => p,
                            None => {
                                self.restart_model();
                                return;
                            },
                        };
                        let old_ptr = stats(&self.mem, c);
                        self.mem.copy_within(old_ptr, ptr, old_nu.wrapping_mul(UNIT_SIZE));
                        self.insert_node(old_ptr, i);
                        set_stats(&mut self.mem, c, ptr);
                    }
                }
                sum = summ_freq(&self.mem, c);
                let a: u32 = if ns1.wrapping_mul(2) < ns { 1 } else { 0 };
                let b: u32 = if ns1.wrapping_mul(4) <= ns && sum <= ns1.wrapping_mul(8) { 2 } else { 0 };
                sum = sum + a + b;
            } else {
                let st = match self.alloc_units(0) {
                    Some(p) => p,
                    None => {
                        self.restart_model();
                        return;
                    },
                };
                let one = one_state(c);
                let mut f = freq(&self.mem, one);
                let sym = symbol(&self.mem, one);
                let succ = successor(&self.mem, one);
                set_symbol(&mut self.mem, st, sym);
                set_successor(&mut self.mem, st, succ);
                set_stats(&mut self.mem, c, st);
                if f < MAX_FREQ7 / 4 - 1 {
                    f = f << 1u32;
                } else {
                    f = MAX_FREQ7 - 4;
                }
                set_freq(&mut self.mem, st, f);
                sum = f.wrapping_add(self.init_esc).wrapping_add(if ns > 3 { 1 } else { 0 });
            }
            let s = state_at(stats(&self.mem, c), ns1);
            let f_sym = symbol(&self.mem, fs);
            let f_freq = freq(&self.mem, fs);
            set_symbol(&mut self.mem, s, f_sym);
            set_num_stats7(&mut self.mem, c, ns1 + 1);
            set_successor(&mut self.mem, s, max_successor);
            let (cf, new_sum) = added_symbol_freq7_exec(sum, s0, f_freq);
            set_summ_freq(&mut self.mem, c, new_sum);
            set_freq(&mut self.mem, s, cf);
            c = suffix(&self.mem, c);
            if c == mc || steps >= bound {
                break;
            }
        }
    }

    /// Halves the frequencies of the current context (keeping the states
    /// sorted by frequency), drops the states whose frequency became zero,
    /// and turns the context into a one-symbol context when only one is left.
    /// Turns the context at `mc` into a context of one symbol: the first
    /// state of its list at `sts`, with frequency `f`, moves into the
    /// context, becomes the found state, and the list's block of `n0` units
    /// goes back to the free lists.
    fn into_one_state(&mut self, mc: u32, sts: u32, f: u32, n0: u32)
        requires
            old(self).wf(),
            f < 256,
        ensures
            final(self).wf(),
            final(self).same_params(*old(self)),
            final(self).same_but_alloc(*old(self)),
            final(self).found_state == wadd(mc, 2),
            final(self).mem@.len() == old(self).mem@.len(),
            header_apart(old(self).mem@.len() as int, mc as int, sts as int, 4) ==> final(self).mem@[mc as int]
                == old(self).mem@[mc as int] && final(self).mem@[mc + 1] == old(self).mem@[mc + 1],
    {
        let one = one_state(mc);
        let sym = symbol(&self.mem, sts);
        let succ = successor(&self.mem, sts);
        set_symbol(&mut self.mem, one, sym);
        set_freq(&mut self.mem, one, f);
        let ghost m_pre = self.mem@;
        set_successor(&mut self.mem, one, succ);
        self.found_state = one;
        let idx = self.tables.index(n0);
        let ghost m_ins = self.mem@;
        let ghost pre_ins = *self;
        self.insert_node(sts, idx);
        proof {
            if header_apart(old(self).mem@.len() as int, mc as int, sts as int, 4) {
                assert(wadd(mc, 2) == mc + 2);
                assert(wadd(one, 1) == mc + 3);
                assert(wadd(one, 2) == mc + 4);
                lemma_put_u32_elsewhere(m_pre, mc + 4, succ, mc as int);
                lemma_put_u32_elsewhere(m_pre, mc + 4, succ, mc + 1);
                lemma_put_u32_elsewhere(m_ins, sts as int, pre_ins.list_head(idx), mc as int);
                lemma_put_u32_elsewhere(m_ins, sts as int, pre_ins.list_head(idx), mc + 1);
            }
        }
    }

    #[verifier::rlimit(70)]
    fn rescale(&mut self)
        requires
            old(self).wf(),
        ensures
            final(self).wf(),
            final(self).same_params(*old(self)),
            final(self).same_but_alloc(*old(self)),
            final(self).found_state == u32_at(final(self).mem@, wadd(old(self).min_context, 4) as int) || (
            final(self).found_state == wadd(old(self).min_context, 2) && (header_apart(
                old(self).mem@.len() as int,
                old(self).min_context as int,
                u32_at(old(self).mem@, wadd(old(self).min_context, 4) as int),
                4,
            ) ==> u16_at(final(self).mem@, old(self).min_context as int) == 1)),
    {
        let mc = self.min_context;
        let sts = stats(&self.mem, mc);
        let ns = num_stats7(&self.mem, mc);
        let n: u32 = if ns == 0 { 0 } else { if ns - 1 > 255 { 255 } else { ns - 1 } };
        let fs = self.found_state;
        let mut k: u32 = 0;
        if fs >= sts && (fs - sts) % 6 == 0 && (fs - sts) / 6 <= n {
            k = (fs - sts) / 6;
        }
        if k > 0 {
            let tmp_sym = symbol(&self.mem, fs);
            let tmp_freq = freq(&self.mem, fs);
            let tmp_succ = successor(&self.mem, fs);
            let mut j = k;
            while j > 0
                invariant
                    self.wf(),
                    self.same_params(*old(self)),
                    self.same_but_alloc(*old(self)),
                    self.mem@.len() == old(self).mem@.len(),
                decreases j,
            {
                self.mem.copy_within(state_at(sts, j - 1), state_at(sts, j), 6);
                j = j - 1;
            }
            set_symbol(&mut self.mem, sts, tmp_sym);
            set_freq(&mut self.mem, sts, tmp_freq);
            set_successor(&mut self.mem, sts, tmp_succ);
        }
        let mut sum_freq = freq(&self.mem, sts);
        let mut esc_freq = summ_freq(&self.mem, mc).wrapping_sub(sum_freq);
        let adder: u32 = if self.order_fall != 0 { 1 } else { 0 };
        sum_freq = (sum_freq + 4 + adder) >> 1u32;
        set_freq(&mut self.mem, sts, sum_freq);
        let mut i: u32 = 1;
        while i <= n
            invariant
                self.wf(),
                self.same_params(*old(self)),
                self.same_but_alloc(*old(self)),
                self.mem@.len() == old(self).mem@.len(),
                adder <= 1,
                n < 256,
                i >= 1,
            decreases n + 1 - i,
        {
            let s = state_at(sts, i);
            let mut f = freq(&self.mem, s);
            esc_freq = esc_freq.wrapping_sub(f);
            f = (f + adder) >> 1u32;
            sum_freq = sum_freq.wrapping_add(f);
            set_freq(&mut self.mem, s, f);
            if f > freq(&self.mem, state_at(sts, i - 1)) {
                let tmp_sym = symbol(&self.mem, s);
                let tmp_succ = successor(&self.mem, s);
                let mut j = i;
                loop
                    invariant_except_break
                        1 <= j,
                    invariant
                        self.wf(),
                        self.same_params(*old(self)),
                        self.same_but_alloc(*old(self)),
                        self.mem@.len() == old(self).mem@.len(),
                        j <= i,
                        i >= 1,
                    decreases j,
                {
                    self.mem.copy_within(state_at(sts, j - 1), state_at(sts, j), 6);
                    j = j - 1;
                    if !(j != 0 && f > freq(&self.mem, state_at(sts, j - 1))) {
                        break;
                    }
                }
                let s1 = state_at(sts, j);
                set_symbol(&mut self.mem, s1, tmp_sym);
                set_freq(&mut self.mem, s1, f);
                set_successor(&mut self.mem, s1, tmp_succ);
            }
            i = i + 1;
        }
        let last = state_at(sts, n);
        if n > 0 && freq(&self.mem, last) == 0 {
            let mut zeros: u32 = 0;
            while zeros < n && freq(&self.mem, state_at(sts, n - zeros)) == 0
                invariant
                    self.wf(),
                    self.same_params(*old(self)),
                    self.same_but_alloc(*old(self)),
                    self.mem@.len() == old(self).mem@.len(),
                    zeros <= n,
                decreases n - zeros,
            {
                zeros = zeros + 1;
            }
            esc_freq = esc_freq.wrapping_add(zeros);
            let num_stats_new = ns - zeros;
            let ghost m_before = self.mem@;
            set_num_stats7(&mut self.mem, mc, num_stats_new);
            let ghost apart = header_apart(old(self).mem@.len() as int, mc as int, sts as int, 4);
            proof {
                if apart && num_stats_new == 1 {
                    lemma_u16_read_back(m_before, mc as int, 1);
                }
            }
            let ghost m_ns = self.mem;
            let n0 = (ns + 1) >> 1u32;
            if num_stats_new == 1 {
                let mut f = freq(&self.mem, sts);
                let mut halvings: u32 = 0;
                loop
                    invariant_except_break
                        halvings < 32,
                    invariant
                        self.wf(),
                        self.same_params(*old(self)),
                        self.same_but_alloc(*old(self)),
                        self.mem@.len() == old(self).mem@.len(),
                        self.mem == m_ns,
                        f < 256,
                    decreases 32 - halvings,
                {
                    esc_freq = esc_freq / 2;
                    f = (f + 1) / 2;
                    halvings = halvings + 1;
                    if !(esc_freq > 1) || halvings >= 32 {
                        break;
                    }
                }
                self.into_one_state(mc, sts, f, n0);
                proof {
                    if apart {
                        assert(self.mem@[mc as int] == m_ns@[mc as int]);
                        assert(self.mem@[mc + 1] == m_ns@[mc + 1]);
                    }
                }
                return;
            }
            let n1 = (num_stats_new + 1) >> 1u32;
            if n0 != n1 {
                let i0 = self.tables.index(n0);
                let i1 = self.tables.index(n1);
                if i0 != i1 {
                    if self.fl_get(i1) != 0 {
                        let ptr = self.remove_node(i1);
                        let mc2 = self.min_context;
                        set_stats(&mut self.mem, mc2, ptr);
                        self.mem.copy_within(sts, ptr, n1.wrapping_mul(UNIT_SIZE));
                        self.insert_node(sts, i0);
                    } else {
                        self.split_block(sts, i0, i1);
                    }
                }
            }
        }
        let mc = self.min_context;
        set_summ_freq(&mut self.mem, mc, sum_freq.wrapping_add(esc_freq).wrapping_sub(esc_freq >> 1u32));
        self.found_state = stats(&self.mem, mc);
    }

    /// Picks the SEE context of the current context and estimates its escape
    /// frequency; `num_masked` is the number of symbols of the context coded
    /// before. Gives the SEE index (`DUMMY_SEE7` for the order-0 context) and
    /// the estimate.
    /// The SEE context at `i` of the table, or the dummy one past its end.
    pub(crate) open spec fn see_at(&self, i: u32) -> See {
        if i < 400 {
            self.see@[i as int]
        } else {
            self.dummy_see
        }
    }

    /// The SEE context that the escape estimate of the current context
    /// uses, `num_masked` symbols of it having been coded before.
    pub(crate) open spec fn esc_slot(&self, num_masked: u32) -> u32 {
        let m = self.mem@;
        let mc = self.min_context;
        let ns = u16_at(m, mc as int) as u32;
        let non_masked = crate::range8::wsub(ns, num_masked);
        let nm1 = crate::range8::wsub(non_masked, 1);
        let row: u32 = if nm1 < 256 {
            self.ns2index@[nm1 as int] as u32
        } else {
            0
        };
        let parent_ns = u16_at(m, u32_at(m, wadd(mc, 8) as int)) as u32;
        let a: u32 = if non_masked < crate::range8::wsub(parent_ns, ns) {
            1
        } else {
            0
        };
        let b: u32 = if u16_at(m, wadd(mc, 2) as int) < 11 * ns {
            2
        } else {
            0
        };
        let c: u32 = if num_masked > non_masked {
            4
        } else {
            0
        };
        let col = wadd(self.hi_bits_flag, (a + b + c) as u32);
        if row < SEE7_ROWS && col < SEE7_COLS {
            (row * SEE7_COLS + col) as u32
        } else {
            DUMMY_SEE7
        }
    }

    pub(crate) fn make_esc_freq(&mut self, num_masked: u32) -> (r: (u32, u32))
        requires
            old(self).wf(),
        ensures
            final(self).wf(),
            final(self).same_params(*old(self)),
            r.1 >= 1,
            u16_at(old(self).mem@, old(self).min_context as int) != 256 ==> r.0 < 400,
            u16_at(old(self).mem@, old(self).min_context as int) == 256 ==> r == (DUMMY_SEE7, 1u32) && *final(self) == *old(self),
            u16_at(old(self).mem@, old(self).min_context as int) != 256 ==> ({
                let i = old(self).esc_slot(num_masked);
                let est = see_estimate(old(self).see_at(i));
                &&& r == (i, est.1)
                &&& final(self).same_but_see(*old(self))
                &&& i < 400 ==> final(self).see@ == old(self).see@.update(i as int, est.0) && final(self).dummy_see
                    == old(self).dummy_see
                &&& i >= 400 ==> final(self).see@ == old(self).see@ && final(self).dummy_see == est.0
            }),
    {
        let mc = self.min_context;
        let ns = num_stats7(&self.mem, mc);
        if ns != 256 {
            let non_masked = ns.wrapping_sub(num_masked);
            let row = self.ns2idx(non_masked.wrapping_sub(1));
            let parent_ns = num_stats7(&self.mem, suffix(&self.mem, mc));
            let a: u32 = if non_masked < parent_ns.wrapping_sub(ns) { 1 } else { 0 };
            let b: u32 = if summ_freq(&self.mem, mc) < 11 * ns { 2 } else { 0 };
            let c: u32 = if num_masked > non_masked { 4 } else { 0 };
            let col = self.hi_bits_flag.wrapping_add(a + b + c);
            let idx = if row < SEE7_ROWS && col < SEE7_COLS {
                row * SEE7_COLS + col
            } else {
                DUMMY_SEE7
            };
            let see = self.see_get(idx);
            let (new_see, esc) = see_estimate_exec(see);
            self.see_set(idx, new_see);
            (idx, esc)
        } else {
            (DUMMY_SEE7, 1)
        }
    }

    /// Records that the symbol found through the SEE context `idx` was coded.
    pub(crate) fn see_hit(&mut self, idx: u32)
        requires
            old(self).wf(),
        ensures
            final(self).wf(),
            final(self).same_params(*old(self)),
            final(self).same_but_see(*old(self)),
            idx < 400 ==> final(self).see@ == old(self).see@.update(idx as int, see_after_hit(old(self).see@[idx as int]))
                && final(self).dummy_see == old(self).dummy_see,
            idx >= 400 ==> final(self).see@ == old(self).see@ && final(self).dummy_see == see_after_hit(old(self).dummy_see),
    {
        let see = self.see_get(idx);
        let new_see = see_after_hit_exec(see);
        self.see_set(idx, new_see);
    }

    /// Adds `total` to the sum of the SEE context `idx` after an escape.
    pub(crate) fn see_escape(&mut self, idx: u32, total: u32)
        requires
            old(self).wf(),
        ensures
            final(self).wf(),
            final(self).same_params(*old(self)),
            final(self).same_but_see(*old(self)),
            idx < 400 ==> final(self).see@ == old(self).see@.update(idx as int, see_after_escape(old(self).see@[idx as int], total))
                && final(self).dummy_see == old(self).dummy_see,
            idx >= 400 ==> final(self).see@ == old(self).see@ && final(self).dummy_see == see_after_escape(old(self).dummy_see, total),
    {
        let mut see = self.see_get(idx);
        let sum = (see.summ as u32).wrapping_add(total);
        proof {
            let a = see.summ as int + total as int;
            assert(sum as int == a % 0x1_0000_0000);
            assert((a % 0x1_0000_0000) % 0x1_0000 == a % 0x1_0000) by (nonlinear_arith);
        }
        see.summ = (sum % 0x1_0000) as u16;
        self.see_set(idx, see);
    }

    /// Moves to the successor of the found state when it is a context of
    /// the full order, else updates the model.
    fn next_context(&mut self)
        requires
            old(self).wf(),
        ensures
            final(self).wf(),
            final(self).same_params(*old(self)),
            final(self).min_context == final(self).max_context,
            ({
                let c = u32_at(old(self).mem@, wadd(old(self).found_state, 2) as int) as u32;
                old(self).order_fall == 0 && c > old(self).text ==> *final(self) == (Ppmd7 {
                    min_context: c,
                    max_context: c,
                    ..*old(self)
                })
            }),
    {
        let c = successor(&self.mem, self.found_state);
        if self.order_fall == 0 && c > self.text {
            self.min_context = c;
            self.max_context = c;
        } else {
            self.update_model();
        }
    }

    /// Updates the model after the found state (not the first of its
    /// context) was coded: its frequency and the context's sum grow by 4,
    /// and when it then outgrows the state before it the two change places
    /// and the found state moves ahead; then the model moves on to the next
    /// context.
    pub(crate) fn update1(&mut self)
        requires
            old(self).wf(),
        ensures
            final(self).wf(),
            final(self).same_params(*old(self)),
            final(self).min_context == final(self).max_context,
            ({
                let s = old(self).found_state;
                let mc = old(self).min_context;
                let prev = crate::range8::wsub(s, 6);
                let sw = outgrows_prev(old(self).mem@, mc, s);
                let m2 = moved_ahead(old(self).mem@, mc, s);
                let fs2 = if sw {
                    prev
                } else {
                    s
                };
                let c = u32_at(m2, wadd(fs2, 2) as int) as u32;
                disjoint_records(old(self).mem@.len() as int, s as int, prev as int, 6) && !(sw && byte_at(
                    old(self).mem@,
                    wadd(s, 1) as int,
                ) + 4 > MAX_FREQ7) && old(self).order_fall == 0 && c > old(self).text ==> final(self).mem@ == m2
                    && final(self).found_state == fs2 && final(self).min_context == c
            }),
    {
        let s = self.found_state;
        let f = freq(&self.mem, s) + 4;
        let mc = self.min_context;
        let sf = summ_freq(&self.mem, mc);
        set_summ_freq(&mut self.mem, mc, sf + 4);
        set_freq(&mut self.mem, s, f);
        let prev = s.wrapping_sub(6);
        if f > freq(&self.mem, prev) {
            self.swap_states(s, prev);
            self.found_state = prev;
            if f > MAX_FREQ7 {
                self.rescale();
            }
        }
        self.next_context();
    }

    /// Updates the model after the first state of the context was coded.
    pub(crate) fn update1_0(&mut self)
        requires
            old(self).wf(),
        ensures
            final(self).wf(),
            final(self).same_params(*old(self)),
            final(self).min_context == final(self).max_context,
    {
        let s = self.found_state;
        let mc = self.min_context;
        let f = freq(&self.mem, s);
        let sf = summ_freq(&self.mem, mc);
        self.prev_success = if 2 * f > sf { 1 } else { 0 };
        self.run_length = self.run_length.wrapping_add(self.prev_success as i32);
        set_summ_freq(&mut self.mem, mc, sf + 4);
        set_freq(&mut self.mem, s, f + 4);
        if f + 4 > MAX_FREQ7 {
            self.rescale();
        }
        self.next_context();
    }

    /// Updates the model after a symbol was coded past an escape: its
    /// frequency and its context's sum grow by 4, then the model update adds
    /// it to the longer contexts.
    pub(crate) fn update2(&mut self)
        requires
            old(self).wf(),
        ensures
            final(self).wf(),
            final(self).same_params(*old(self)),
            final(self).min_context == final(self).max_context,
            ({
                let s = old(self).found_state;
                let mc = old(self).min_context;
                old(self).appends_only() && byte_at(old(self).mem@, s as int + 1) + 4 <= MAX_FREQ7 && u16_at(
                    old(self).mem@,
                    mc as int + 2,
                ) + 4 < 0x1_0000 ==> byte_at(final(self).mem@, s as int + 1) == byte_at(old(self).mem@, s as int + 1)
                    + 4 && u16_at(final(self).mem@, mc as int + 2) == u16_at(old(self).mem@, mc as int + 2) + 4
            }),
    {
        let s = self.found_state;
        let f = freq(&self.mem, s) + 4;
        self.run_length = self.init_rl;
        let mc = self.min_context;
        let sf = summ_freq(&self.mem, mc);
        set_summ_freq(&mut self.mem, mc, sf + 4);
        set_freq(&mut self.mem, s, f);
        if f > MAX_FREQ7 {
            self.rescale();
        }
        let ghost mid = *self;
        proof {
            let m = old(self).mem@;
            if old(self).appends_only() && byte_at(m, s as int + 1) + 4 <= MAX_FREQ7 && u16_at(m, mc as int + 2) + 4
                < 0x1_0000 {
                Self::lemma_counted_appends(*old(self), mid);
            }
        }
        self.update_model();
        proof {
            let m = old(self).mem@;
            if old(self).appends_only() && byte_at(m, s as int + 1) + 4 <= MAX_FREQ7 && u16_at(m, mc as int + 2) + 4
                < 0x1_0000 {
                Self::lemma_appended_keeps(mid, *self);
            }
        }
    }

    /// The flag bit of the symbol of the state found last.
    pub(crate) open spec fn found_flag(&self) -> u32 {
        symbol_flag(byte_at(self.mem@, self.found_state as int) as u8) as u32
    }

    /// The slot of the probability of the binary context `mc`: the row goes
    /// by the frequency of its one symbol, the column by the last outcome, the
    /// run length, the size of the suffix context and the flag bits of the
    /// context's symbol and of the symbol found last; an out-of-range pair
    /// goes to the spare slot 8192.
    pub(crate) open spec fn bin_slot(&self, mc: u32) -> u32 {
        let m = self.mem@;
        let row = crate::range8::wsub(byte_at(m, wadd(wadd(mc, 2), 1) as int) as u32, 1);
        let ns = crate::range8::wsub(u16_at(m, u32_at(m, wadd(mc, 8) as int)) as u32, 1);
        let bs: u32 = if ns < 256 {
            self.ns2bs_index@[ns as int] as u32
        } else {
            0
        };
        let rl: u32 = if self.run_length < 0 {
            0x20
        } else {
            0
        };
        let col = wadd(
            wadd(wadd(wadd(self.prev_success, rl), bs), (2 * symbol_flag(byte_at(m, wadd(mc, 2) as int) as u8)) as u32),
            self.found_flag(),
        );
        if row < 128 && col < 64 {
            (row * 64 + col) as u32
        } else {
            8192
        }
    }

    /// The index of the probability of the binary context `mc`; records the
    /// high-bit flag of the symbol coded last, which the escape estimate of
    /// the next context uses.
    pub(crate) fn bin_summ_index(&mut self, mc: u32) -> (r: u32)
        requires
            old(self).wf(),
        ensures
            final(self).wf(),
            final(self).same_params(*old(self)),
            *final(self) == (Ppmd7 { hi_bits_flag: old(self).found_flag(), ..*old(self) }),
            r == old(self).bin_slot(mc),
    {
        let one = one_state(mc);
        let row = freq(&self.mem, one).wrapping_sub(1);
        let rl: u32 = if self.run_length < 0 { 0x20 } else { 0 };
        self.hi_bits_flag = symbol_flag_exec(symbol(&self.mem, self.found_state) as u8) as u32;
        let col = self.prev_success.wrapping_add(rl).wrapping_add(
            self.ns2bs(num_stats7(&self.mem, suffix(&self.mem, mc)).wrapping_sub(1)),
        ).wrapping_add(crate::model8::symbol_flag_high(symbol(&self.mem, one) as u8) as u32).wrapping_add(
            self.hi_bits_flag,
        );
        if row < 128 && col < 64 {
            row * 64 + col
        } else {
            8192
        }
    }
}

} // verus!
