//! The carryless range coder of PPMd8 (Dmitry Subbotin's coder).
//!
//! The coder keeps a 32-bit window `[low, low + range)`; a symbol with the
//! cumulative frequency `start`, the frequency `size` and the total `total`
//! narrows the window to its share, and whenever the top byte of the window
//! is settled (or the window became too narrow) one byte is shifted out by
//! the encoder and shifted in by the decoder. Both sides move `low` and
//! `range` through the very same arithmetic, which is what lets the decoder
//! find each symbol again.
use crate::byte_io::{
    drops_front, extends, lemma_drops_front_refl, lemma_drops_front_skip, lemma_extends_append,
    ByteSink, ByteSource,
};
use crate::Error;
use vstd::prelude::*;

verus! {

/// The top-byte boundary of the window.
pub const K_TOP_VALUE: u32 = 0x100_0000;

/// The smallest range the coder keeps after normalization.
pub const K_BOT_VALUE: u32 = 0x8000;

/// A bound on the normalization shifts of one step; a window that comes out
/// of coding needs at most five of them.
pub const MAX_NORMALIZE_SHIFTS: u32 = 64;

/// `a + b` in 32-bit wrapping arithmetic.
pub open spec fn wadd(a: u32, b: u32) -> u32 {
    vstd::wrapping::u32_specs::wrapping_add(a, b)
}

/// `a - b` in 32-bit wrapping arithmetic.
pub open spec fn wsub(a: u32, b: u32) -> u32 {
    vstd::wrapping::u32_specs::wrapping_sub(a, b)
}

/// `a * b` in 32-bit wrapping arithmetic.
pub open spec fn wmul(a: u32, b: u32) -> u32 {
    vstd::wrapping::u32_specs::wrapping_mul(a, b)
}

/// The sum that the coder uses in place of `sum`: no more than the range.
pub open spec fn corrected_sum(range: u32, sum: u32) -> u32 {
    if sum > range {
        range
    } else {
        sum
    }
}

/// The width of one frequency unit: `range / total` (zero for a zero total).
pub open spec fn unit_width(range: u32, total: u32) -> u32 {
    if total == 0 {
        0
    } else {
        (range / total) as u32
    }
}

/// `(low, range)` after coding the share `[start, start + size)` of `total`.
pub open spec fn coded_window(low: u32, range: u32, start: u32, size: u32, total: u32) -> (u32, u32) {
    let r = unit_width(range, total);
    (wadd(low, wmul(start, r)), wmul(size, r))
}

/// Whether the window `[low, low + range)` must be shifted by a byte.
pub open spec fn needs_shift(low: u32, range: u32) -> bool {
    (low ^ wadd(low, range)) < K_TOP_VALUE || range < K_BOT_VALUE
}

/// The window after one byte shift.
pub open spec fn shifted_window(low: u32, range: u32) -> (u32, u32) {
    let r = if (low ^ wadd(low, range)) < K_TOP_VALUE {
        range
    } else {
        wsub(0, low) & (K_BOT_VALUE - 1) as u32
    };
    (((low as int * 256) % 0x1_0000_0000) as u32, ((r as int * 256) % 0x1_0000_0000) as u32)
}

/// The window after normalization with at most `fuel` shifts, and the
/// number of shifts made.
pub open spec fn normalized_window(low: u32, range: u32, fuel: nat) -> (u32, u32, nat)
    decreases fuel,
{
    if fuel == 0 || !needs_shift(low, range) {
        (low, range, 0)
    } else {
        let (l2, r2) = shifted_window(low, range);
        let (l3, r3, n) = normalized_window(l2, r2, (fuel - 1) as nat);
        (l3, r3, n + 1)
    }
}

/// The top byte of `low`, which a shift moves out of the window.
pub open spec fn top_byte(low: u32) -> u8 {
    (low / 0x100_0000) as u8
}

/// The bytes that the encoder writes while normalizing from `(low, range)`.
pub open spec fn shifted_out_bytes(low: u32, range: u32, fuel: nat) -> Seq<u8>
    decreases fuel,
{
    if fuel == 0 || !needs_shift(low, range) {
        Seq::empty()
    } else {
        let (l2, r2) = shifted_window(low, range);
        seq![top_byte(low)] + shifted_out_bytes(l2, r2, (fuel - 1) as nat)
    }
}

/// The window narrowed to a share of itself: `share.0` into the old window
/// and `share.1` wide.
pub open spec fn narrowed(low: u32, share: (u32, u32)) -> (u32, u32) {
    (wadd(low, share.0), share.1)
}

/// A share fits a window of width `range`: it is nonempty and lies inside.
pub open spec fn share_fits(range: u32, share: (u32, u32)) -> bool {
    share.1 > 0 && share.0 as int + share.1 as int <= range as int
}

/// Each of `shares` fits the window that the encoder codes it in, starting
/// from the window `(low, range)`.
pub open spec fn shares_fit(low: u32, range: u32, shares: Seq<(u32, u32)>) -> bool
    decreases shares.len(),
{
    if shares.len() == 0 {
        true
    } else {
        let (l1, r1) = narrowed(low, shares[0]);
        let w = normalized_window(l1, r1, MAX_NORMALIZE_SHIFTS as nat);
        share_fits(range, shares[0]) && shares_fit(w.0, w.1, shares.skip(1))
    }
}

/// The encoder's window, and the bytes it writes, when it codes `shares`
/// in turn from the window `(low, range)`, normalizing after each.
pub open spec fn encoder_run(low: u32, range: u32, shares: Seq<(u32, u32)>) -> (u32, u32, Seq<u8>)
    decreases shares.len(),
{
    if shares.len() == 0 {
        (low, range, Seq::empty())
    } else {
        let (l1, r1) = narrowed(low, shares[0]);
        let w = normalized_window(l1, r1, MAX_NORMALIZE_SHIFTS as nat);
        let rest = encoder_run(w.0, w.1, shares.skip(1));
        (rest.0, rest.1, shifted_out_bytes(l1, r1, MAX_NORMALIZE_SHIFTS as nat) + rest.2)
    }
}

/// The four bytes of `low`, top byte first, that the encoder writes when
/// it is flushed.
pub open spec fn flushed_bytes(low: u32) -> Seq<u8> {
    seq![top_byte(low), top_byte(low << 8u32), top_byte(low << 16u32), top_byte(low << 24u32)]
}

/// Everything the encoder writes for `shares`, from a fresh start to the
/// final flush.
pub open spec fn encoder_output(shares: Seq<(u32, u32)>) -> Seq<u8> {
    let run = encoder_run(0, 0xFFFF_FFFF, shares);
    run.2 + flushed_bytes(run.0)
}

/// The first four bytes of `s` read as a number, top byte first.
pub open spec fn be32(s: Seq<u8>) -> u32 {
    ((s[0] as u32) << 24u32) | ((s[1] as u32) << 16u32) | ((s[2] as u32) << 8u32) | (s[3] as u32)
}

/// The decoder's code after the first `n` bytes of `s` were shifted in.
pub open spec fn shifted_in_code(code: u32, s: Seq<u8>, n: nat) -> u32
    decreases n,
{
    if n == 0 {
        code
    } else {
        shifted_in_code((code << 8u32) | (s[0] as u32), s.skip(1), (n - 1) as nat)
    }
}

/// The decoder, in the window `(low, range)` with the code `code` and `s`
/// left to read, finds each of `shares` in turn: before each is coded the
/// code lies in it, and there are enough bytes for the shifts that follow.
pub open spec fn decoder_finds_shares(
    low: u32,
    range: u32,
    code: u32,
    s: Seq<u8>,
    shares: Seq<(u32, u32)>,
) -> bool
    decreases shares.len(),
{
    if shares.len() == 0 {
        true
    } else {
        let share = shares[0];
        let (l1, r1) = narrowed(low, share);
        let w = normalized_window(l1, r1, MAX_NORMALIZE_SHIFTS as nat);
        &&& share.0 <= code
        &&& (code as int) < share.0 as int + share.1 as int
        &&& w.2 <= s.len()
        &&& decoder_finds_shares(
            w.0,
            w.1,
            shifted_in_code(wsub(code, share.0), s, w.2),
            s.skip(w.2 as int),
            shares.skip(1),
        )
    }
}

/// `sum`, but no more than `range`: the correction that keeps PPMd8 free of
/// a division by zero when a frequency sum exceeds the range.
pub fn correct_sum_range(range: u32, sum: u32) -> (r: u32)
    ensures
        r == corrected_sum(range, sum),
{
    if sum > range {
        range
    } else {
        sum
    }
}

fn unit_width_exec(range: u32, total: u32) -> (r: u32)
    ensures
        r == unit_width(range, total),
{
    if total == 0 {
        0
    } else {
        range / total
    }
}

fn shift_step(low: u32, range: u32) -> (r: (u32, u32))
    ensures
        r == shifted_window(low, range),
{
    let r = if (low ^ low.wrapping_add(range)) < K_TOP_VALUE {
        range
    } else {
        0u32.wrapping_sub(low) & (K_BOT_VALUE - 1)
    };
    proof {
        assert((low << 8u32) == ((low as int * 256) % 0x1_0000_0000) as u32) by (bit_vector);
        assert((r << 8u32) == ((r as int * 256) % 0x1_0000_0000) as u32) by (bit_vector);
    }
    (low << 8u32, r << 8u32)
}

fn top_byte_exec(low: u32) -> (r: u8)
    ensures
        r == top_byte(low),
{
    proof {
        assert((low >> 24u32) == low / 0x100_0000 && (low >> 24u32) < 256) by (bit_vector);
    }
    (low >> 24u32) as u8
}

/// Shifting in one more byte: the code after `k + 1` bytes is the code
/// after `k` bytes, shifted, with byte `k` shifted in.
pub(crate) proof fn lemma_shifted_in_code_snoc(code: u32, s: Seq<u8>, k: nat)
    requires
        k < s.len(),
    ensures
        shifted_in_code(code, s, k + 1) == (shifted_in_code(code, s, k) << 8u32) | (s[k as int] as u32),
    decreases k,
{
    let c2 = (code << 8u32) | (s[0] as u32);
    assert(shifted_in_code(code, s, k + 1) == shifted_in_code(c2, s.skip(1), k));
    if k > 0 {
        lemma_shifted_in_code_snoc(c2, s.skip(1), (k - 1) as nat);
        assert(s.skip(1)[k - 1] == s[k as int]);
        assert(shifted_in_code(code, s, k) == shifted_in_code(c2, s.skip(1), (k - 1) as nat));
    } else {
        assert(shifted_in_code(c2, s.skip(1), 0) == c2);
    }
}

/// Four bytes shifted into any code give the four bytes read top first.
pub(crate) proof fn lemma_shifted_in_code_be32(code: u32, s: Seq<u8>)
    requires
        s.len() >= 4,
    ensures
        shifted_in_code(code, s, 4) == be32(s),
{
    lemma_shifted_in_code_snoc(code, s, 0);
    lemma_shifted_in_code_snoc(code, s, 1);
    lemma_shifted_in_code_snoc(code, s, 2);
    lemma_shifted_in_code_snoc(code, s, 3);
    let (b0, b1, b2, b3) = (s[0] as u32, s[1] as u32, s[2] as u32, s[3] as u32);
    assert(((((((((code << 8u32) | b0) << 8u32) | b1) << 8u32) | b2) << 8u32) | b3) == (b0 << 24u32)
        | (b1 << 16u32) | (b2 << 8u32) | b3) by (bit_vector)
        requires
            b0 < 256,
            b1 < 256,
            b2 < 256,
            b3 < 256,
    ;
}

/// The decoding side of the carryless range coder.
pub struct RangeDecoder<R: ByteSource> {
    /// The width of the current window.
    pub range: u32,
    /// The offset of the coded value from the bottom of the window.
    pub code: u32,
    /// The bottom of the current window.
    pub low: u32,
    /// Where the compressed bytes come from.
    pub reader: R,
}

impl<R: ByteSource> RangeDecoder<R> {
    /// Starts decoding: the full window, and the first four bytes of the
    /// source as the code. Fails with `IoError` when four bytes cannot be
    /// read, and with `RangeDecoderInitialization` when they are all `0xFF`,
    /// which no encoder writes.
    pub fn new(reader: R) -> (r: Result<Self, Error>)
        ensures
            r matches Ok(d) ==> d.range == 0xFFFF_FFFF && d.low == 0 && d.code != 0xFFFF_FFFF,
            R::models_pending() ==> (r matches Ok(d) ==> {
                &&& reader.pending().len() >= 4
                &&& d.code == be32(reader.pending())
                &&& d.reader.pending() == reader.pending().skip(4)
            }),
            R::models_pending() ==> (r == Err::<Self, Error>(Error::RangeDecoderInitialization)
                ==> reader.pending().len() >= 4 && be32(reader.pending()) == 0xFFFF_FFFF),
            r matches Err(e) ==> e == Error::IoError || e == Error::RangeDecoderInitialization,
            R::models_pending() && R::reads_all() ==> (r == Err::<Self, Error>(Error::IoError) <==> reader.pending().len()
                < 4),
            R::models_pending() && R::reads_all() ==> (r is Ok <==> reader.pending().len() >= 4 && be32(
                reader.pending(),
            ) != 0xFFFF_FFFF),
    {
        let ghost p = reader.pending();
        let mut decoder = RangeDecoder { range: 0xFFFF_FFFF, code: 0, low: 0, reader };
        let mut i: u32 = 0;
        while i < 4
            invariant
                i <= 4,
                decoder.range == 0xFFFF_FFFF,
                decoder.low == 0,
                p == reader.pending(),
                R::models_pending() ==> {
                    &&& i <= p.len()
                    &&& decoder.reader.pending() == p.skip(i as int)
                    &&& decoder.code == shifted_in_code(0, p, i as nat)
                },
            decreases 4 - i,
        {
            let ghost before = decoder.reader.pending();
            let b = match decoder.read_byte() {
                Ok(b) => b,
                Err(e) => {
                    proof {
                        if R::models_pending() && R::reads_all() {
                            assert(before.len() == 0);
                            assert(p.skip(i as int).len() == p.len() - i);
                            assert(p.len() < 4);
                        }
                    }
                    return Err(e);
                },
            };
            proof {
                if R::models_pending() {
                    assert(before[0] == p[i as int]);
                    assert(p.skip(i as int).skip(1) =~= p.skip(i + 1 as int));
                    lemma_shifted_in_code_snoc(0, p, i as nat);
                }
            }
            decoder.code = (decoder.code << 8u32) | b;
            i = i + 1;
        }
        proof {
            if R::models_pending() {
                lemma_shifted_in_code_be32(0, p);
            }
        }
        if decoder.code == 0xFFFF_FFFF {
            return Err(Error::RangeDecoderInitialization);
        }
        Ok(decoder)
    }

    /// `sum`, but no more than the range.
    pub fn correct_sum_range(&self, sum: u32) -> (r: u32)
        ensures
            r == corrected_sum(self.range, sum),
    {
        correct_sum_range(self.range, sum)
    }

    /// Reads the next compressed byte: the first pending byte of the
    /// source, or `IoError` when the source gives none.
    pub fn read_byte(&mut self) -> (r: Result<u32, Error>)
        ensures
            final(self).range == old(self).range,
            final(self).code == old(self).code,
            final(self).low == old(self).low,
            r matches Ok(b) ==> b < 256,
            R::models_pending() ==> (r matches Ok(b) ==> {
                &&& old(self).reader.pending().len() > 0
                &&& b == old(self).reader.pending()[0]
                &&& final(self).reader.pending() == old(self).reader.pending().skip(1)
            }),
            r matches Err(e) ==> e == Error::IoError,
            R::models_pending() ==> (r is Err ==> final(self).reader.pending() == old(
                self,
            ).reader.pending()),
            R::models_pending() ==> drops_front(old(self).reader.pending(), final(self).reader.pending()),
            R::models_pending() && R::reads_all() ==> (r is Ok <==> old(self).reader.pending().len() > 0),
    {
        broadcast use lemma_drops_front_refl, lemma_drops_front_skip;

        match self.reader.read_byte() {
            Some(b) => Ok(b as u32),
            None => Err(Error::IoError),
        }
    }

    /// The frequency count that the code falls on: `code / (range / total)`,
    /// or `u32::MAX` when a unit of the total has no width.
    pub fn get_threshold(&self, total: u32) -> (r: u32)
        ensures
            unit_width(self.range, total) > 0 ==> r == self.code / unit_width(self.range, total),
            unit_width(self.range, total) == 0 ==> r == u32::MAX,
    {
        let w = unit_width_exec(self.range, total);
        if w == 0 {
            u32::MAX
        } else {
            self.code / w
        }
    }

    /// Narrows the window to the share `[start, start + size)` of `total`.
    pub fn decode(&mut self, start: u32, size: u32, total: u32)
        ensures
            (final(self).low, final(self).range) == coded_window(
                old(self).low,
                old(self).range,
                start,
                size,
                total,
            ),
            final(self).code == wsub(
                old(self).code,
                wmul(start, unit_width(old(self).range, total)),
            ),
            final(self).reader == old(self).reader,
    {
        let w = unit_width_exec(self.range, total);
        let offset = start.wrapping_mul(w);
        self.low = self.low.wrapping_add(offset);
        self.code = self.code.wrapping_sub(offset);
        self.range = size.wrapping_mul(w);
    }

    /// Narrows the window to its first `size0` values (a binary context
    /// coded its symbol).
    pub fn decode_bit_0(&mut self, size0: u32)
        ensures
            final(self).range == size0,
            final(self).low == old(self).low,
            final(self).code == old(self).code,
            final(self).reader == old(self).reader,
    {
        self.range = size0;
    }

    /// Narrows the window to what follows its first `size0` values (a binary
    /// context escaped); the range is first rounded down to a multiple of
    /// the binary scale.
    pub fn decode_bit_1(&mut self, size0: u32)
        ensures
            final(self).low == wadd(old(self).low, size0),
            final(self).code == wsub(old(self).code, size0),
            final(self).range == wsub(old(self).range & 0xFFFF_C000, size0),
            final(self).reader == old(self).reader,
    {
        self.low = self.low.wrapping_add(size0);
        self.code = self.code.wrapping_sub(size0);
        self.range = (self.range & 0xFFFF_C000u32).wrapping_sub(size0);
    }

    /// Shifts bytes into the window until it is wide enough again: as many
    /// as `normalized_window` counts, each read from the source and shifted
    /// into the code.
    pub fn normalize(&mut self) -> (r: Result<(), Error>)
        ensures
            r is Ok ==> ({
                let w = normalized_window(old(self).low, old(self).range, MAX_NORMALIZE_SHIFTS as nat);
                &&& (final(self).low, final(self).range) == (w.0, w.1)
                &&& R::models_pending() ==> {
                    &&& w.2 <= old(self).reader.pending().len()
                    &&& final(self).code == shifted_in_code(
                        old(self).code,
                        old(self).reader.pending(),
                        w.2,
                    )
                    &&& final(self).reader.pending() == old(self).reader.pending().skip(w.2 as int)
                }
            }),
            R::models_pending() ==> (r is Ok ==> drops_front(
                old(self).reader.pending(),
                final(self).reader.pending(),
            )),
            r matches Err(e) ==> e == Error::IoError,
            R::models_pending() && R::reads_all() && r is Err ==> final(self).reader.pending().len() == 0,
            R::models_pending() && R::reads_all() && normalized_window(
                old(self).low,
                old(self).range,
                MAX_NORMALIZE_SHIFTS as nat,
            ).2 <= old(self).reader.pending().len() ==> r is Ok,
    {
        broadcast use lemma_drops_front_skip;
        let ghost p = self.reader.pending();
        let ghost n = normalized_window(old(self).low, old(self).range, MAX_NORMALIZE_SHIFTS as nat).2;
        let ghost mut k: nat = 0;
        let mut fuel: u32 = MAX_NORMALIZE_SHIFTS;
        while fuel > 0 && ((self.low ^ self.low.wrapping_add(self.range)) < K_TOP_VALUE
            || self.range < K_BOT_VALUE)
            invariant
                fuel <= MAX_NORMALIZE_SHIFTS,
                normalized_window(self.low, self.range, fuel as nat).0 == normalized_window(
                    old(self).low,
                    old(self).range,
                    MAX_NORMALIZE_SHIFTS as nat,
                ).0,
                normalized_window(self.low, self.range, fuel as nat).1 == normalized_window(
                    old(self).low,
                    old(self).range,
                    MAX_NORMALIZE_SHIFTS as nat,
                ).1,
                n == k + normalized_window(self.low, self.range, fuel as nat).2,
                n == normalized_window(old(self).low, old(self).range, MAX_NORMALIZE_SHIFTS as nat).2,
                p == old(self).reader.pending(),
                R::models_pending() ==> {
                    &&& k <= p.len()
                    &&& self.reader.pending() == p.skip(k as int)
                    &&& self.code == shifted_in_code(old(self).code, p, k)
                },
            decreases fuel,
        {
            let (l2, r2) = shift_step(self.low, self.range);
            let ghost before = self.reader.pending();
            let b = match self.read_byte() {
                Ok(b) => b,
                Err(e) => {
                    proof {
                        if R::models_pending() && R::reads_all() {
                            assert(needs_shift(self.low, self.range));
                            assert(normalized_window(self.low, self.range, fuel as nat).2 >= 1);
                            assert(p.skip(k as int).len() == p.len() - k);
                            assert(before.len() == 0);
                            assert(n > p.len());
                        }
                    }
                    return Err(e);
                },
            };
            proof {
                if R::models_pending() {
                    assert(before[0] == p[k as int]);
                    assert(p.skip(k as int).skip(1) =~= p.skip(k + 1 as int));
                    lemma_shifted_in_code_snoc(old(self).code, p, k);
                }
                k = k + 1;
            }
            self.code = (self.code << 8u32) | b;
            self.low = l2;
            self.range = r2;
            fuel = fuel - 1;
        }
        Ok(())
    }

    /// `decode`, then `normalize`.
    pub fn decode_final(&mut self, start: u32, size: u32, total: u32) -> (r: Result<(), Error>)
        ensures
            r is Ok ==> ({
                let c = coded_window(old(self).low, old(self).range, start, size, total);
                let w = normalized_window(c.0, c.1, MAX_NORMALIZE_SHIFTS as nat);
                let c1 = wsub(old(self).code, wmul(start, unit_width(old(self).range, total)));
                &&& (final(self).low, final(self).range) == (w.0, w.1)
                &&& R::models_pending() ==> {
                    &&& w.2 <= old(self).reader.pending().len()
                    &&& final(self).code == shifted_in_code(c1, old(self).reader.pending(), w.2)
                    &&& final(self).reader.pending() == old(self).reader.pending().skip(w.2 as int)
                }
            }),
            R::models_pending() ==> (r is Ok ==> drops_front(
                old(self).reader.pending(),
                final(self).reader.pending(),
            )),
            r matches Err(e) ==> e == Error::IoError,
            R::models_pending() && R::reads_all() && r is Err ==> final(self).reader.pending().len() == 0,
    {
        self.decode(start, size, total);
        self.normalize()
    }
}

/// The encoding side of the carryless range coder.
pub struct RangeEncoder<W: ByteSink> {
    /// The width of the current window.
    pub range: u32,
    /// The bottom of the current window.
    pub low: u32,
    /// Where the compressed bytes go.
    pub writer: W,
}

impl<W: ByteSink> RangeEncoder<W> {
    /// Starts encoding with the full window.
    pub fn new(writer: W) -> (r: Self)
        ensures
            r.range == 0xFFFF_FFFF,
            r.low == 0,
            r.writer == writer,
    {
        RangeEncoder { range: 0xFFFF_FFFF, low: 0, writer }
    }

    /// `sum`, but no more than the range.
    pub fn correct_sum_range(&self, sum: u32) -> (r: u32)
        ensures
            r == corrected_sum(self.range, sum),
    {
        correct_sum_range(self.range, sum)
    }

    /// Writes one compressed byte.
    pub fn write_byte(&mut self, byte: u8) -> (r: Result<(), Error>)
        ensures
            final(self).range == old(self).range,
            final(self).low == old(self).low,
            W::models_written() ==> (r is Ok ==> final(self).writer.written() == old(
                self,
            ).writer.written().push(byte)),
            r matches Err(e) ==> e == Error::IoError,
            W::accepts_all() ==> r is Ok,
    {
        if self.writer.write_byte(byte) {
            Ok(())
        } else {
            Err(Error::IoError)
        }
    }

    /// Narrows the window to the share `[start, start + size)` of `total`.
    pub fn encode(&mut self, start: u32, size: u32, total: u32)
        ensures
            (final(self).low, final(self).range) == coded_window(
                old(self).low,
                old(self).range,
                start,
                size,
                total,
            ),
            final(self).writer == old(self).writer,
    {
        let w = unit_width_exec(self.range, total);
        self.low = self.low.wrapping_add(start.wrapping_mul(w));
        self.range = size.wrapping_mul(w);
    }

    /// Narrows the window to its first `size0` values.
    pub fn encode_bit_0(&mut self, size0: u32)
        ensures
            final(self).range == size0,
            final(self).low == old(self).low,
            final(self).writer == old(self).writer,
    {
        self.range = size0;
    }

    /// Narrows the window to what follows its first `size0` values, the
    /// range first rounded down to a multiple of the binary scale.
    pub fn encode_bit_1(&mut self, size0: u32)
        ensures
            final(self).low == wadd(old(self).low, size0),
            final(self).range == wsub(old(self).range & 0xFFFF_C000, size0),
            final(self).writer == old(self).writer,
    {
        self.low = self.low.wrapping_add(size0);
        self.range = (self.range & 0xFFFF_C000u32).wrapping_sub(size0);
    }

    /// Shifts settled bytes out of the window until it is wide enough again,
    /// writing the top byte of the window at each shift.
    pub fn normalize(&mut self) -> (r: Result<(), Error>)
        ensures
            r is Ok ==> ({
                let w = normalized_window(old(self).low, old(self).range, MAX_NORMALIZE_SHIFTS as nat);
                &&& (final(self).low, final(self).range) == (w.0, w.1)
                &&& W::models_written() ==> final(self).writer.written() == old(
                    self,
                ).writer.written() + shifted_out_bytes(
                    old(self).low,
                    old(self).range,
                    MAX_NORMALIZE_SHIFTS as nat,
                )
            }),
            W::models_written() ==> (r is Ok ==> extends(
                old(self).writer.written(),
                final(self).writer.written(),
            )),
            r matches Err(e) ==> e == Error::IoError,
            W::accepts_all() ==> r is Ok,
    {
        broadcast use lemma_extends_append;

        let mut fuel: u32 = MAX_NORMALIZE_SHIFTS;
        while fuel > 0 && ((self.low ^ self.low.wrapping_add(self.range)) < K_TOP_VALUE
            || self.range < K_BOT_VALUE)
            invariant
                fuel <= MAX_NORMALIZE_SHIFTS,
                normalized_window(self.low, self.range, fuel as nat).0 == normalized_window(
                    old(self).low,
                    old(self).range,
                    MAX_NORMALIZE_SHIFTS as nat,
                ).0,
                normalized_window(self.low, self.range, fuel as nat).1 == normalized_window(
                    old(self).low,
                    old(self).range,
                    MAX_NORMALIZE_SHIFTS as nat,
                ).1,
                W::models_written() ==> self.writer.written() + shifted_out_bytes(
                    self.low,
                    self.range,
                    fuel as nat,
                ) == old(self).writer.written() + shifted_out_bytes(
                    old(self).low,
                    old(self).range,
                    MAX_NORMALIZE_SHIFTS as nat,
                ),
            decreases fuel,
        {
            let (l2, r2) = shift_step(self.low, self.range);
            let b = top_byte_exec(self.low);
            let ghost before = self.writer.written();
            let ghost rest = shifted_out_bytes(l2, r2, (fuel - 1) as nat);
            match self.write_byte(b) {
                Ok(()) => {},
                Err(e) => {
                    return Err(e);
                },
            }
            proof {
                assert(before + (seq![b] + rest) =~= before.push(b) + rest);
            }
            self.low = l2;
            self.range = r2;
            fuel = fuel - 1;
        }
        proof {
            assert(self.writer.written() + shifted_out_bytes(self.low, self.range, fuel as nat)
                =~= self.writer.written());
        }
        Ok(())
    }

    /// Writes the four bytes of `low`, top byte first, and flushes the sink.
    pub fn flush(&mut self) -> (r: Result<(), Error>)
        ensures
            W::models_written() ==> (r is Ok ==> final(self).writer.written() == old(
                self,
            ).writer.written() + flushed_bytes(old(self).low)),
            W::models_written() ==> (r is Ok ==> extends(
                old(self).writer.written(),
                final(self).writer.written(),
            )),
            r matches Err(e) ==> e == Error::IoError,
            W::accepts_all() ==> r is Ok,
            r is Ok ==> final(self).low == 0,
            final(self).range == old(self).range,
    {
        broadcast use lemma_extends_append;

        let ghost low0 = self.low;
        let ghost w0 = self.writer.written();
        let ghost lows = seq![low0, low0 << 8u32, low0 << 16u32, low0 << 24u32];
        proof {
            assert(((low0 << 8u32) << 8u32) == low0 << 16u32 && ((low0 << 16u32) << 8u32) == low0
                << 24u32) by (bit_vector);
            assert(((low0 << 24u32) << 8u32) == 0) by (bit_vector);
            assert(lows[3] == low0 << 24u32);
            assert(forall|j: int| 0 <= j < 3 ==> #[trigger] lows[j + 1] == lows[j] << 8u32);
            assert(forall|j: int| 0 <= j < 4 ==> #[trigger] flushed_bytes(low0)[j] == top_byte(lows[j]));
        }
        let mut i: u32 = 0;
        while i < 4
            invariant
                i <= 4,
                lows.len() == 4,
                forall|j: int| 0 <= j < 3 ==> #[trigger] lows[j + 1] == lows[j] << 8u32,
                forall|j: int| 0 <= j < 4 ==> #[trigger] flushed_bytes(low0)[j] == top_byte(lows[j]),
                flushed_bytes(low0).len() == 4,
                i < 4 ==> self.low == lows[i as int],
                i == 4 ==> self.low == 0,
                lows[3] == low0 << 24u32,
                ((low0 << 24u32) << 8u32) == 0,
                self.range == old(self).range,
                W::models_written() ==> self.writer.written() == w0 + flushed_bytes(low0).take(
                    i as int,
                ),
            decreases 4 - i,
        {
            let b = top_byte_exec(self.low);
            match self.write_byte(b) {
                Ok(()) => {},
                Err(e) => {
                    return Err(e);
                },
            }
            proof {
                assert(flushed_bytes(low0)[i as int] == b);
                assert(w0 + flushed_bytes(low0).take(i + 1 as int) =~= (w0 + flushed_bytes(low0).take(
                    i as int,
                )).push(b));
            }
            self.low = self.low << 8u32;
            i = i + 1;
        }
        proof {
            assert(flushed_bytes(low0).take(4) =~= flushed_bytes(low0));
        }
        if self.writer.flush_bytes() {
            Ok(())
        } else {
            Err(Error::IoError)
        }
    }
}

} // verus!
