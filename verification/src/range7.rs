//! The range coder of the 7z format that PPMd7 (PPMdH) is coded with.
//!
//! The encoder keeps `low` in 33 bits so that a carry out of the 32-bit
//! window reaches the bytes already pending: the top byte of the window is
//! held back (`cache`), together with a run of `0xFF` bytes that a carry
//! would turn into zeros (`cache_size - 1` of them). The decoder keeps the
//! offset `code` of the coded value in the window.
use crate::byte_io::{
    drops_front, extends, lemma_drops_front_refl, lemma_drops_front_skip, lemma_extends_append,
    ByteSink, ByteSource,
};
use crate::range8::{
    be32, lemma_shifted_in_code_be32, lemma_shifted_in_code_snoc, shifted_in_code, unit_width, wmul,
    wsub,
};
use crate::Error;
use vstd::prelude::*;

verus! {

/// The window is shifted whenever its range falls below this value.
pub const K_TOP_VALUE_7: u32 = 0x100_0000;

/// `range` after up to `n` shifts of a window narrower than `K_TOP_VALUE_7`.
pub open spec fn normalized_range7(range: u32, n: nat) -> u32
    decreases n,
{
    if n == 0 || range >= K_TOP_VALUE_7 {
        range
    } else {
        normalized_range7((range as int * 256) as u32, (n - 1) as nat)
    }
}

/// The number of shifts that `normalized_range7` makes.
pub open spec fn shifts7(range: u32, n: nat) -> nat
    decreases n,
{
    if n == 0 || range >= K_TOP_VALUE_7 {
        0
    } else {
        1 + shifts7((range as int * 256) as u32, (n - 1) as nat)
    }
}

/// The decoding side of the 7z range coder.
pub struct RangeDecoder7<R: ByteSource> {
    /// The width of the current window.
    pub range: u32,
    /// The offset of the coded value in the window.
    pub code: u32,
    /// Where the compressed bytes come from.
    pub reader: R,
}

/// `s` followed by five zero bytes: what a reader that gives zero for a
/// byte it does not have reads from `s` in its first five bytes.
pub open spec fn zero_padded(s: Seq<u8>) -> Seq<u8> {
    s + seq![0u8, 0u8, 0u8, 0u8, 0u8]
}

impl<R: ByteSource> RangeDecoder7<R> {
    /// Starts decoding: a zero byte, then four bytes of code. A byte that
    /// the source cannot give reads as zero, as in the 7z reader interface.
    /// Fails with `RangeDecoderInitialization` when the first byte is not
    /// zero or the code is `0xFFFFFFFF`.
    pub fn new(reader: R) -> (r: Result<Self, Error>)
        ensures
            r matches Ok(d) ==> {
                &&& d.range == 0xFFFF_FFFF
                &&& d.code != 0xFFFF_FFFF
                &&& (R::models_pending() && reader.pending().len() >= 5 && d.reader.pending()
                    == reader.pending().skip(5)) ==> reader.pending()[0] == 0 && d.code == be32(
                    reader.pending().skip(1),
                )
            },
            r matches Err(e) ==> e == Error::RangeDecoderInitialization,
            R::models_pending() && R::reads_all() && reader.pending().len() >= 5 ==> (r is Ok <==> (
            reader.pending()[0] == 0 && be32(reader.pending().skip(1)) != 0xFFFF_FFFF)),
            R::models_pending() && R::reads_all() && reader.pending().len() >= 5 ==> (r matches Ok(d) ==> d.code
                == be32(reader.pending().skip(1)) && d.reader.pending() == reader.pending().skip(5)),
            R::models_pending() ==> (r matches Ok(d) ==> drops_front(reader.pending(), d.reader.pending())),
            R::models_pending() && R::reads_all() ==> ({
                let pad = zero_padded(reader.pending());
                &&& (r is Ok <==> pad[0] == 0 && be32(pad.skip(1)) != 0xFFFF_FFFF)
                &&& r matches Ok(d) ==> d.code == be32(pad.skip(1))
            }),
    {
        broadcast use lemma_drops_front_skip;
        let ghost p = reader.pending();
        let ghost pad = zero_padded(p);
        let mut decoder = RangeDecoder7 { range: 0xFFFF_FFFF, code: 0, reader };
        let first = decoder.read_byte();
        let ghost mut consumed: int = p.len() - decoder.reader.pending().len();
        proof {
            if R::models_pending() && R::reads_all() {
                assert(first == pad[0]);
                assert(consumed == if p.len() >= 1 { 1int } else { 0int });
            }
        }
        let mut i: u32 = 0;
        while i < 4
            invariant
                i <= 4,
                decoder.range == 0xFFFF_FFFF,
                p == reader.pending(),
                R::models_pending() && R::reads_all() && p.len() >= 5 ==> consumed == i + 1,
                pad == zero_padded(p),
                R::models_pending() && R::reads_all() ==> {
                    &&& consumed == if p.len() >= i + 1 { i + 1 } else { p.len() as int }
                    &&& first == pad[0]
                    &&& decoder.code == shifted_in_code(0, pad.skip(1), i as nat)
                },
                R::models_pending() ==> {
                    &&& 0 <= consumed <= i + 1
                    &&& consumed <= p.len()
                    &&& decoder.reader.pending() == p.skip(consumed)
                    &&& consumed == i + 1 ==> first == p[0] && decoder.code == shifted_in_code(
                        0,
                        p.skip(1),
                        i as nat,
                    )
                },
            decreases 4 - i,
        {
            let ghost before = decoder.reader.pending();
            let ghost code0 = decoder.code;
            let ghost consumed0 = consumed;
            let b = decoder.read_byte();
            proof {
                if R::models_pending() && R::reads_all() {
                    assert(pad.skip(1)[i as int] == pad[i + 1]);
                    if consumed0 < p.len() {
                        assert(before == p.skip(consumed0));
                        assert(b == p[consumed0]);
                    }
                    assert(b == pad.skip(1)[i as int]);
                    lemma_shifted_in_code_snoc(0, pad.skip(1), i as nat);
                }
                if !R::models_pending() {
                } else if decoder.reader.pending() != before {
                    assert(p.skip(consumed).skip(1) =~= p.skip(consumed + 1));
                    if consumed == i + 1 {
                        assert(before[0] == p.skip(1)[i as int]);
                        lemma_shifted_in_code_snoc(0, p.skip(1), i as nat);
                    }
                    consumed = consumed + 1;
                } else {
                    assert(consumed <= i + 1);
                }
            }
            decoder.code = (decoder.code << 8u32) | b;
            i = i + 1;
        }
        proof {
            if R::models_pending() && p.len() >= 5 && decoder.reader.pending() == p.skip(5) {
                assert(decoder.reader.pending().len() == p.len() - consumed);
                lemma_shifted_in_code_be32(0, p.skip(1));
            }
            if R::models_pending() && R::reads_all() {
                lemma_shifted_in_code_be32(0, pad.skip(1));
            }
        }
        if first != 0 || decoder.code == 0xFFFF_FFFF {
            return Err(Error::RangeDecoderInitialization);
        }
        Ok(decoder)
    }

    /// Reads the next compressed byte: the first pending byte of the source,
    /// or zero (with nothing consumed) when the source gives none.
    pub fn read_byte(&mut self) -> (r: u32)
        ensures
            final(self).range == old(self).range,
            final(self).code == old(self).code,
            r < 256,
            R::models_pending() ==> (final(self).reader.pending() == old(self).reader.pending()
                ==> r == 0),
            R::models_pending() ==> (final(self).reader.pending() != old(self).reader.pending()
                ==> {
                &&& old(self).reader.pending().len() > 0
                &&& r == old(self).reader.pending()[0]
                &&& final(self).reader.pending() == old(self).reader.pending().skip(1)
            }),
            R::models_pending() ==> drops_front(old(self).reader.pending(), final(self).reader.pending()),
            R::models_pending() && R::reads_all() ==> (final(self).reader.pending() != old(
                self,
            ).reader.pending() <==> old(self).reader.pending().len() > 0),
    {
        broadcast use lemma_drops_front_refl, lemma_drops_front_skip;

        match self.reader.read_byte() {
            Some(b) => {
                proof {
                    if R::models_pending() {
                        assert(self.reader.pending().len() + 1 == old(self).reader.pending().len());
                    }
                }
                b as u32
            },
            None => 0,
        }
    }

    /// The frequency count that the code falls on: `code / (range / total)`,
    /// or `u32::MAX` when a unit of the total has no width.
    pub fn get_threshold(&self, total: u32) -> (r: u32)
        ensures
            unit_width(self.range, total) > 0 ==> r == self.code / unit_width(self.range, total),
            unit_width(self.range, total) == 0 ==> r == u32::MAX,
    {
        let w = if total == 0 {
            0
        } else {
            self.range / total
        };
        if w == 0 {
            u32::MAX
        } else {
            self.code / w
        }
    }

    /// Narrows the window to the share `[start, start + size)` of `total`.
    pub fn decode(&mut self, start: u32, size: u32, total: u32)
        ensures
            final(self).range == wmul(size, unit_width(old(self).range, total)),
            final(self).code == wsub(old(self).code, wmul(start, unit_width(old(self).range, total))),
            final(self).reader == old(self).reader,
    {
        let w = if total == 0 {
            0
        } else {
            self.range / total
        };
        self.code = self.code.wrapping_sub(start.wrapping_mul(w));
        self.range = size.wrapping_mul(w);
    }

    /// Narrows the window to its first `size0` values.
    pub fn decode_bit_0(&mut self, size0: u32)
        ensures
            final(self).range == size0,
            final(self).code == old(self).code,
            final(self).reader == old(self).reader,
    {
        self.range = size0;
    }

    /// Narrows the window to what follows its first `size0` values.
    pub fn decode_bit_1(&mut self, size0: u32)
        ensures
            final(self).range == wsub(old(self).range, size0),
            final(self).code == wsub(old(self).code, size0),
            final(self).reader == old(self).reader,
    {
        self.code = self.code.wrapping_sub(size0);
        self.range = self.range.wrapping_sub(size0);
    }

    /// Shifts bytes in while the range is below `K_TOP_VALUE_7`, at most
    /// `max_shifts` times; when the source gives every byte asked for, the
    /// code takes in the next `shifts7` bytes.
    pub fn normalize(&mut self, max_shifts: u32)
        ensures
            final(self).range == normalized_range7(old(self).range, max_shifts as nat),
            ({
                let n = shifts7(old(self).range, max_shifts as nat);
                let p = old(self).reader.pending();
                (R::models_pending() && n <= p.len() && final(self).reader.pending() == p.skip(
                    n as int,
                )) ==> final(self).code == shifted_in_code(old(self).code, p, n)
            }),
            R::models_pending() ==> drops_front(old(self).reader.pending(), final(self).reader.pending()),
    {
        broadcast use lemma_drops_front_skip;

        let ghost p = self.reader.pending();
        let ghost total = shifts7(old(self).range, max_shifts as nat);
        let ghost mut k: nat = 0;
        let ghost mut consumed: int = 0;
        let mut n: u32 = max_shifts;
        while n > 0 && self.range < K_TOP_VALUE_7
            invariant
                n <= max_shifts,
                normalized_range7(self.range, n as nat) == normalized_range7(
                    old(self).range,
                    max_shifts as nat,
                ),
                total == k + shifts7(self.range, n as nat),
                p == old(self).reader.pending(),
                R::models_pending() ==> {
                    &&& 0 <= consumed <= k
                    &&& consumed <= p.len()
                    &&& self.reader.pending() == p.skip(consumed)
                    &&& consumed == k ==> self.code == shifted_in_code(old(self).code, p, k)
                },
            decreases n,
        {
            let ghost before = self.reader.pending();
            let b = self.read_byte();
            proof {
                if !R::models_pending() {
                } else if self.reader.pending() != before {
                    assert(p.skip(consumed).skip(1) =~= p.skip(consumed + 1));
                    if consumed == k {
                        assert(before[0] == p[k as int]);
                        lemma_shifted_in_code_snoc(old(self).code, p, k);
                    }
                    consumed = consumed + 1;
                }
                k = k + 1;
            }
            self.code = (self.code << 8u32) | b;
            proof {
                let r = self.range;
                assert((r << 8u32) == (r as int * 256) as u32) by (bit_vector)
                    requires r < 0x100_0000u32;
            }
            self.range = self.range << 8u32;
            n = n - 1;
        }
        proof {
            if R::models_pending() && total <= p.len() && self.reader.pending() == p.skip(
                total as int,
            ) {
                assert(self.reader.pending().len() == p.len() - consumed);
            }
        }
    }
}

/// The encoding side of the 7z range coder.
pub struct RangeEncoder7<W: ByteSink> {
    /// The bottom of the window, with the carry in bit 32.
    pub low: u64,
    /// The width of the current window.
    pub range: u32,
    /// The byte held back until it is known whether a carry reaches it.
    pub cache: u8,
    /// One more than the number of `0xFF` bytes held back after `cache`.
    pub cache_size: u64,
    /// Where the compressed bytes go.
    pub writer: W,
}

/// The state `(low, cache, cache_size)` after one shift of the window.
pub open spec fn shifted_low7(low: u64, cache: u8, cache_size: u64) -> (u64, u8, u64) {
    let low32 = (low % 0x1_0000_0000) as u32;
    let emits = low32 < 0xFF00_0000 || low >= 0x1_0000_0000;
    let new_cache = if emits {
        (low32 / 0x100_0000) as u8
    } else {
        cache
    };
    let new_size = if emits {
        1u64
    } else {
        ((cache_size as int + 1) % 0x1_0000_0000_0000_0000) as u64
    };
    (((low32 as int * 256) % 0x1_0000_0000) as u64, new_cache, new_size)
}

/// The bytes that one shift of the window writes: none while a carry out of
/// `low` could still reach the held-back bytes, else the `cache_size` held
/// bytes (`cache`, then `0xFF`s), each raised by the carry.
pub open spec fn shift_low_bytes7(low: u64, cache: u8, cache_size: u64) -> Seq<u8> {
    let low32 = (low % 0x1_0000_0000) as u32;
    let carry: int = if low >= 0x1_0000_0000 {
        1
    } else {
        0
    };
    if low32 < 0xFF00_0000 || low >= 0x1_0000_0000 {
        Seq::new(
            cache_size as nat,
            |i: int|
                if i == 0 {
                    ((cache as int + carry) % 256) as u8
                } else {
                    ((0xFF + carry) % 256) as u8
                },
        )
    } else {
        Seq::empty()
    }
}

/// The encoder's `(low, range, cache, cache_size)`, and the bytes written,
/// after up to `n` shifts of a window narrower than `K_TOP_VALUE_7`.
pub open spec fn normalized_encoder7(low: u64, range: u32, cache: u8, cache_size: u64, n: nat) -> (
    u64,
    u32,
    u8,
    u64,
    Seq<u8>,
)
    decreases n,
{
    if n == 0 || range >= K_TOP_VALUE_7 {
        (low, range, cache, cache_size, Seq::empty())
    } else {
        let (l2, c2, s2) = shifted_low7(low, cache, cache_size);
        let rest = normalized_encoder7(l2, (range as int * 256) as u32, c2, s2, (n - 1) as nat);
        (rest.0, rest.1, rest.2, rest.3, shift_low_bytes7(low, cache, cache_size) + rest.4)
    }
}

/// The bytes written by `n` shifts of the window, whatever its range.
pub open spec fn flushed_bytes7(low: u64, cache: u8, cache_size: u64, n: nat) -> Seq<u8>
    decreases n,
{
    if n == 0 {
        Seq::empty()
    } else {
        let (l2, c2, s2) = shifted_low7(low, cache, cache_size);
        shift_low_bytes7(low, cache, cache_size) + flushed_bytes7(l2, c2, s2, (n - 1) as nat)
    }
}

/// A share of the window that the 7z coder codes, with the most byte
/// shifts that follow it: `(offset, width, max_shifts)`.
pub type Share7 = (u32, u32, u32);

/// Each of `shares` fits the window that it is coded in, starting from a
/// window of width `range`: it is nonempty and inside.
pub open spec fn shares7_fit(range: u32, shares: Seq<Share7>) -> bool
    decreases shares.len(),
{
    if shares.len() == 0 {
        true
    } else {
        let (off, width, fuel) = shares[0];
        &&& width > 0
        &&& off as int + width as int <= range as int
        &&& shares7_fit(normalized_range7(width, fuel as nat), shares.skip(1))
    }
}

/// The encoder's `(low, range, cache, cache_size)`, and the bytes it
/// writes, when it codes `shares` in turn, each followed by normalization.
pub open spec fn encoder_run7(low: u64, range: u32, cache: u8, cache_size: u64, shares: Seq<Share7>) -> (
    u64,
    u32,
    u8,
    u64,
    Seq<u8>,
)
    decreases shares.len(),
{
    if shares.len() == 0 {
        (low, range, cache, cache_size, Seq::empty())
    } else {
        let (off, width, fuel) = shares[0];
        let low1 = ((low as int + off as int) % 0x1_0000_0000_0000_0000) as u64;
        let n = normalized_encoder7(low1, width, cache, cache_size, fuel as nat);
        let rest = encoder_run7(n.0, n.1, n.2, n.3, shares.skip(1));
        (rest.0, rest.1, rest.2, rest.3, n.4 + rest.4)
    }
}

/// Everything the encoder writes for `shares`, from a fresh start to the
/// final flush.
pub open spec fn encoder_output7(shares: Seq<Share7>) -> Seq<u8> {
    let run = encoder_run7(0, 0xFFFF_FFFF, 0, 1, shares);
    run.4 + flushed_bytes7(run.0, run.2, run.3, 5)
}

/// The decoder, with the window width `range`, the code `code` and `s` left
/// to read, finds each of `shares` in turn: before each is coded the code
/// lies in it, and there are enough bytes for the shifts that follow.
pub open spec fn decoder_finds_shares7(range: u32, code: u32, s: Seq<u8>, shares: Seq<Share7>) -> bool
    decreases shares.len(),
{
    if shares.len() == 0 {
        true
    } else {
        let (off, width, fuel) = shares[0];
        let n = shifts7(width, fuel as nat);
        &&& off <= code
        &&& (code as int) < off as int + width as int
        &&& n <= s.len()
        &&& decoder_finds_shares7(
            normalized_range7(width, fuel as nat),
            shifted_in_code(wsub(code, off), s, n),
            s.skip(n as int),
            shares.skip(1),
        )
    }
}

impl<W: ByteSink> RangeEncoder7<W> {
    /// Starts encoding with the full window.
    pub fn new(writer: W) -> (r: Self)
        ensures
            r.low == 0,
            r.range == 0xFFFF_FFFF,
            r.cache == 0,
            r.cache_size == 1,
            r.writer == writer,
    {
        RangeEncoder7 { low: 0, range: 0xFFFF_FFFF, cache: 0, cache_size: 1, writer }
    }

    /// Shifts the top byte of the window out: the bytes held back are
    /// written (raised by the carry) once the carry into them is settled.
    pub fn shift_low(&mut self) -> (r: Result<(), Error>)
        ensures
            final(self).range == old(self).range,
            r is Ok ==> (final(self).low, final(self).cache, final(self).cache_size) == shifted_low7(
                old(self).low,
                old(self).cache,
                old(self).cache_size,
            ),
            W::models_written() ==> (r is Ok ==> final(self).writer.written() == old(
                self,
            ).writer.written() + shift_low_bytes7(old(self).low, old(self).cache, old(self).cache_size)),
            r matches Err(e) ==> e == Error::IoError,
            W::accepts_all() ==> r is Ok,
    {
        let ghost bytes = shift_low_bytes7(self.low, self.cache, self.cache_size);
        let ghost w0 = self.writer.written();
        let low32: u32 = (self.low & 0xFFFF_FFFF) as u32;
        proof {
            let l = self.low;
            assert((l & 0xFFFF_FFFFu64) as u32 == (l % 0x1_0000_0000) as u32) by (bit_vector);
        }
        if low32 < 0xFF00_0000 || self.low >= 0x1_0000_0000 {
            let carry: u8 = if self.low >= 0x1_0000_0000 { 1 } else { 0 };
            let mut temp: u8 = self.cache;
            let mut left: u64 = self.cache_size;
            while left > 0
                invariant
                    self.range == old(self).range,
                    self.low == old(self).low,
                    self.cache == old(self).cache,
                    self.cache_size == old(self).cache_size,
                    left <= self.cache_size,
                    carry as int == (if self.low >= 0x1_0000_0000 {
                        1int
                    } else {
                        0int
                    }),
                    temp == (if left == self.cache_size {
                        self.cache
                    } else {
                        0xFFu8
                    }),
                    bytes.len() == self.cache_size,
                    bytes == shift_low_bytes7(self.low, self.cache, self.cache_size),
                    low32 == (self.low % 0x1_0000_0000) as u32,
                    low32 < 0xFF00_0000 || self.low >= 0x1_0000_0000,
                    W::models_written() ==> self.writer.written() == w0 + bytes.take(
                        self.cache_size - left,
                    ),
                decreases left,
            {
                let ghost before = self.writer.written();
                let ghost k = self.cache_size - left;
                if !self.writer.write_byte(temp.wrapping_add(carry)) {
                    return Err(Error::IoError);
                }
                proof {
                    assert(bytes[k] == temp.wrapping_add(carry));
                    assert(w0 + bytes.take(k + 1) =~= (w0 + bytes.take(k)).push(bytes[k]));
                }
                temp = 0xFF;
                left = left - 1;
            }
            proof {
                assert(bytes.take(self.cache_size as int) =~= bytes);
            }
            proof {
                assert((low32 >> 24u32) == low32 / 0x100_0000) by (bit_vector);
            }
            self.cache = (low32 >> 24u32) as u8;
            self.cache_size = 1;
        } else {
            proof {
                assert(w0 + bytes =~= w0);
            }
            self.cache_size = self.cache_size.wrapping_add(1);
        }
        proof {
            assert(((low32 << 8u32) as u64) == ((low32 as int * 256) % 0x1_0000_0000) as u64)
                by (bit_vector);
        }
        self.low = (low32 << 8u32) as u64;
        Ok(())
    }

    /// Narrows the window to the share `[start, start + size)` of `total`.
    pub fn encode(&mut self, start: u32, size: u32, total: u32)
        ensures
            final(self).low == ((old(self).low as int + wmul(start, unit_width(old(self).range, total)))
                % 0x1_0000_0000_0000_0000) as u64,
            final(self).range == wmul(size, unit_width(old(self).range, total)),
            final(self).cache == old(self).cache,
            final(self).cache_size == old(self).cache_size,
            final(self).writer == old(self).writer,
    {
        let w = if total == 0 {
            0
        } else {
            self.range / total
        };
        self.low = self.low.wrapping_add(start.wrapping_mul(w) as u64);
        self.range = size.wrapping_mul(w);
    }

    /// Narrows the window to its first `size0` values.
    pub fn encode_bit_0(&mut self, size0: u32)
        ensures
            final(self).range == size0,
            final(self).low == old(self).low,
            final(self).cache == old(self).cache,
            final(self).cache_size == old(self).cache_size,
            final(self).writer == old(self).writer,
    {
        self.range = size0;
    }

    /// Narrows the window to what follows its first `size0` values.
    pub fn encode_bit_1(&mut self, size0: u32)
        ensures
            final(self).low == ((old(self).low as int + size0) % 0x1_0000_0000_0000_0000) as u64,
            final(self).range == wsub(old(self).range, size0),
            final(self).cache == old(self).cache,
            final(self).cache_size == old(self).cache_size,
            final(self).writer == old(self).writer,
    {
        self.low = self.low.wrapping_add(size0 as u64);
        self.range = self.range.wrapping_sub(size0);
    }

    /// Shifts the window while the range is below `K_TOP_VALUE_7`, at most
    /// `max_shifts` times, writing the bytes that the shifts settle.
    pub fn normalize(&mut self, max_shifts: u32) -> (r: Result<(), Error>)
        ensures
            r is Ok ==> ({
                let n = normalized_encoder7(
                    old(self).low,
                    old(self).range,
                    old(self).cache,
                    old(self).cache_size,
                    max_shifts as nat,
                );
                &&& final(self).range == normalized_range7(old(self).range, max_shifts as nat)
                &&& (final(self).low, final(self).range, final(self).cache, final(self).cache_size) == (
                    n.0,
                    n.1,
                    n.2,
                    n.3,
                )
                &&& W::models_written() ==> final(self).writer.written() == old(
                    self,
                ).writer.written() + n.4
            }),
            W::models_written() ==> (r is Ok ==> extends(
                old(self).writer.written(),
                final(self).writer.written(),
            )),
            r matches Err(e) ==> e == Error::IoError,
            W::accepts_all() ==> r is Ok,
    {
        broadcast use lemma_extends_append;

        let ghost target = normalized_encoder7(
            self.low,
            self.range,
            self.cache,
            self.cache_size,
            max_shifts as nat,
        );
        let mut n: u32 = max_shifts;
        while n > 0 && self.range < K_TOP_VALUE_7
            invariant
                n <= max_shifts,
                normalized_range7(self.range, n as nat) == normalized_range7(
                    old(self).range,
                    max_shifts as nat,
                ),
                target == normalized_encoder7(
                    old(self).low,
                    old(self).range,
                    old(self).cache,
                    old(self).cache_size,
                    max_shifts as nat,
                ),
                ({
                    let cur = normalized_encoder7(self.low, self.range, self.cache, self.cache_size, n as nat);
                    &&& (cur.0, cur.1, cur.2, cur.3) == (target.0, target.1, target.2, target.3)
                    &&& W::models_written() ==> self.writer.written() + cur.4 == old(
                        self,
                    ).writer.written() + target.4
                }),
            decreases n,
        {
            let ghost before = self.writer.written();
            let ghost (l0, r0, c0, s0) = (self.low, self.range, self.cache, self.cache_size);
            proof {
                let r = self.range;
                assert((r << 8u32) == (r as int * 256) as u32) by (bit_vector)
                    requires r < 0x100_0000u32;
            }
            self.range = self.range << 8u32;
            self.shift_low()?;
            proof {
                let rest = normalized_encoder7(self.low, self.range, self.cache, self.cache_size, (n - 1) as nat);
                if W::models_written() {
                    assert(before + (shift_low_bytes7(l0, c0, s0) + rest.4) =~= self.writer.written()
                        + rest.4);
                }
            }
            n = n - 1;
        }
        proof {
            assert(self.writer.written() + normalized_encoder7(
                self.low,
                self.range,
                self.cache,
                self.cache_size,
                n as nat,
            ).4 =~= self.writer.written());
        }
        Ok(())
    }

    /// Writes out the window: five shifts, and a flush of the writer.
    pub fn flush(&mut self) -> (r: Result<(), Error>)
        ensures
            W::models_written() ==> (r is Ok ==> final(self).writer.written() == old(
                self,
            ).writer.written() + flushed_bytes7(old(self).low, old(self).cache, old(self).cache_size, 5)),
            W::models_written() ==> (r is Ok ==> extends(
                old(self).writer.written(),
                final(self).writer.written(),
            )),
            r matches Err(e) ==> e == Error::IoError,
            W::accepts_all() ==> r is Ok,
    {
        broadcast use lemma_extends_append;

        let ghost target = flushed_bytes7(self.low, self.cache, self.cache_size, 5);
        let mut i: u32 = 0;
        while i < 5
            invariant
                i <= 5,
                target == flushed_bytes7(old(self).low, old(self).cache, old(self).cache_size, 5),
                W::models_written() ==> self.writer.written() + flushed_bytes7(
                    self.low,
                    self.cache,
                    self.cache_size,
                    (5 - i) as nat,
                ) == old(self).writer.written() + target,
            decreases 5 - i,
        {
            let ghost before = self.writer.written();
            let ghost (l0, c0, s0) = (self.low, self.cache, self.cache_size);
            self.shift_low()?;
            proof {
                let rest = flushed_bytes7(self.low, self.cache, self.cache_size, (5 - i - 1) as nat);
                if W::models_written() {
                    assert(before + (shift_low_bytes7(l0, c0, s0) + rest) =~= self.writer.written()
                        + rest);
                }
            }
            i = i + 1;
        }
        proof {
            assert(self.writer.written() + flushed_bytes7(self.low, self.cache, self.cache_size, 0)
                =~= self.writer.written());
        }
        if self.writer.flush_bytes() {
            Ok(())
        } else {
            Err(Error::IoError)
        }
    }
}

} // verus!
