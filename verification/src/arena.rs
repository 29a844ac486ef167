//! The byte arena in which the context models live.
//!
//! A model addresses its arena by 32-bit offsets, the way PPMd's data layout
//! links its records. Every access is checked:
//! a read outside the arena gives zero and a write outside it is dropped, so
//! no state of a model, however it came about, can reach outside its memory.
use vstd::prelude::*;

verus! {

/// A fixed-size, zero-initialised block of bytes addressed by `u32` offsets.
pub struct Arena {
    bytes: Vec<u8>,
}

/// The byte at `off`, or zero outside the arena.
pub open spec fn byte_at(s: Seq<u8>, off: int) -> int {
    if 0 <= off < s.len() {
        s[off] as int
    } else {
        0
    }
}

/// The little-endian 16-bit value at `off` (bytes outside count as zero).
pub open spec fn u16_at(s: Seq<u8>, off: int) -> int {
    byte_at(s, off) + 256 * byte_at(s, (off + 1) % 0x1_0000_0000)
}

/// The little-endian 32-bit value at `off` (bytes outside count as zero).
pub open spec fn u32_at(s: Seq<u8>, off: int) -> int {
    u16_at(s, off) + 65536 * u16_at(s, (off + 2) % 0x1_0000_0000)
}

/// `s` with the little-endian 16-bit value `v` written at `off`.
pub open spec fn put_u16(s: Seq<u8>, off: int, v: u16) -> Seq<u8> {
    put_byte(put_byte(s, off, (v % 256) as u8), (off + 1) % 0x1_0000_0000, (v / 256) as u8)
}

/// `s` with the little-endian 32-bit value `v` written at `off`.
pub open spec fn put_u32(s: Seq<u8>, off: int, v: u32) -> Seq<u8> {
    put_byte(
        put_byte(
            put_byte(put_byte(s, off, (v % 256) as u8), (off + 1) % 0x1_0000_0000, ((v / 256) % 256) as u8),
            (off + 2) % 0x1_0000_0000,
            ((v / 65536) % 256) as u8,
        ),
        (off + 3) % 0x1_0000_0000,
        (v / 16777216) as u8,
    )
}

/// `s` after `k` bytes were copied one by one, front to back, from offset
/// `src` to offset `dst` (offsets wrap at 2^32).
pub open spec fn copied_within(s: Seq<u8>, src: u32, dst: u32, k: nat) -> Seq<u8>
    decreases k,
{
    if k == 0 {
        s
    } else {
        let prev = copied_within(s, src, dst, (k - 1) as nat);
        let from = (src as int + k - 1) % 0x1_0000_0000;
        put_byte(prev, (dst as int + k - 1) % 0x1_0000_0000, byte_at(prev, from) as u8)
    }
}

/// Two `k`-byte records at `a` and `b` that lie inside an arena of `len`
/// bytes, addressable by 32-bit offsets, and do not overlap.
pub open spec fn disjoint_records(len: int, a: int, b: int, k: int) -> bool {
    &&& 0 <= a && 0 <= b
    &&& a + k <= len && b + k <= len
    &&& len <= 0x1_0000_0000
    &&& (a + k <= b || b + k <= a)
}

/// `s` with the `k`-byte records at `a` and `b` exchanged.
pub open spec fn swapped(s: Seq<u8>, a: int, b: int, k: int) -> Seq<u8> {
    Seq::new(
        s.len(),
        |i: int|
            if a <= i < a + k {
                s[i - a + b]
            } else if b <= i < b + k {
                s[i - b + a]
            } else {
                s[i]
            },
    )
}

/// Copying between records that do not overlap moves the bytes of the
/// source over those of the destination and leaves the rest.
pub proof fn lemma_copied_within_disjoint(s: Seq<u8>, src: u32, dst: u32, k: nat, n: nat)
    requires
        k <= n,
        disjoint_records(s.len() as int, src as int, dst as int, n as int),
    ensures
        copied_within(s, src, dst, k) == Seq::new(
            s.len(),
            |i: int|
                if dst <= i < dst + k {
                    s[i - dst + src]
                } else {
                    s[i]
                },
        ),
    decreases k,
{
    let target = Seq::new(
        s.len(),
        |i: int|
            if dst <= i < dst + k {
                s[i - dst + src]
            } else {
                s[i]
            },
    );
    if k == 0 {
        assert(copied_within(s, src, dst, k) =~= target);
    } else {
        lemma_copied_within_disjoint(s, src, dst, (k - 1) as nat, n);
        assert((src as int + k - 1) % 0x1_0000_0000 == src as int + k - 1);
        assert((dst as int + k - 1) % 0x1_0000_0000 == dst as int + k - 1);
        assert(copied_within(s, src, dst, k) =~= target);
    }
}

/// The four bytes of a little-endian 32-bit value.
pub proof fn lemma_u32_bytes(x0: int, x1: int, x2: int, x3: int)
    requires
        0 <= x0 < 256,
        0 <= x1 < 256,
        0 <= x2 < 256,
        0 <= x3 < 256,
    ensures
        ({
            let v = x0 + 256 * (x1 + 256 * (x2 + 256 * x3));
            &&& v % 256 == x0
            &&& (v / 256) % 256 == x1
            &&& (v / 65536) % 256 == x2
            &&& v / 16777216 == x3
        }),
{
    let w2 = x2 + 256 * x3;
    let w1 = x1 + 256 * w2;
    let v = x0 + 256 * w1;
    vstd::arithmetic::div_mod::lemma_fundamental_div_mod_converse(v, 256, w1, x0);
    vstd::arithmetic::div_mod::lemma_fundamental_div_mod_converse(w1, 256, w2, x1);
    vstd::arithmetic::div_mod::lemma_fundamental_div_mod_converse(w2, 256, x3, x2);
    vstd::arithmetic::div_mod::lemma_div_denominator(v, 256, 256);
    vstd::arithmetic::div_mod::lemma_div_denominator(v, 65536, 256);
    assert(v / 65536 == w2);
    assert(v / 16777216 == x3);
}

/// A 32-bit value written where no offset wraps leaves every byte outside
/// its four bytes as it was.
pub proof fn lemma_put_u32_elsewhere(m: Seq<u8>, off: int, v: u32, k: int)
    requires
        0 <= off,
        off + 4 <= 0x1_0000_0000,
        0 <= k < m.len(),
        !(off <= k < off + 4),
    ensures
        put_u32(m, off, v).len() == m.len(),
        put_u32(m, off, v)[k] == m[k],
{
    assert((off + 1) % 0x1_0000_0000 == off + 1);
    assert((off + 2) % 0x1_0000_0000 == off + 2);
    assert((off + 3) % 0x1_0000_0000 == off + 3);
}

/// A 32-bit value written where no offset wraps leaves a 32-bit value read
/// from four other bytes as it was.
pub proof fn lemma_put_u32_keeps_u32(m: Seq<u8>, off: int, v: u32, p: int)
    requires
        0 <= off,
        off + 4 <= 0x1_0000_0000,
        0 <= p,
        p + 4 <= m.len(),
        p + 4 <= 0x1_0000_0000,
        p + 4 <= off || off + 4 <= p,
    ensures
        u32_at(put_u32(m, off, v), p) == u32_at(m, p),
{
    lemma_put_u32_elsewhere(m, off, v, p);
    lemma_put_u32_elsewhere(m, off, v, p + 1);
    lemma_put_u32_elsewhere(m, off, v, p + 2);
    lemma_put_u32_elsewhere(m, off, v, p + 3);
    assert((p + 1) % 0x1_0000_0000 == p + 1);
    assert((p + 2) % 0x1_0000_0000 == p + 2);
    assert((p + 2 + 1) % 0x1_0000_0000 == p + 3);
}

/// A 16-bit value written inside the arena reads back as written, and the
/// other bytes stay.
pub proof fn lemma_u16_read_back(s: Seq<u8>, off: int, v: u16)
    requires
        0 <= off,
        off + 2 <= s.len(),
        s.len() <= 0x1_0000_0000,
    ensures
        u16_at(put_u16(s, off, v), off) == v,
        put_u16(s, off, v).len() == s.len(),
        forall|i: int| 0 <= i < s.len() && !(off <= i < off + 2) ==> #[trigger] put_u16(s, off, v)[i] == s[i],
{
    assert((off + 1) % 0x1_0000_0000 == off + 1);
    vstd::arithmetic::div_mod::lemma_fundamental_div_mod(v as int, 256);
}

/// A 32-bit value written inside the arena reads back as written.
pub proof fn lemma_u32_read_back(s: Seq<u8>, off: int, v: u32)
    requires
        0 <= off,
        off + 4 <= s.len(),
        s.len() <= 0x1_0000_0000,
    ensures
        u32_at(put_u32(s, off, v), off) == v,
        put_u32(s, off, v).len() == s.len(),
        forall|i: int| 0 <= i < s.len() && !(off <= i < off + 4) ==> #[trigger] put_u32(s, off, v)[i] == s[i],
{
    assert((off + 1) % 0x1_0000_0000 == off + 1);
    assert((off + 2) % 0x1_0000_0000 == off + 2);
    assert((off + 3) % 0x1_0000_0000 == off + 3);
    let t = put_u32(s, off, v);
    assert((off + 2 + 1) % 0x1_0000_0000 == off + 3);
    let b0 = v as int % 256;
    let q1 = v as int / 256;
    let b1 = q1 % 256;
    let q2 = q1 / 256;
    let b2 = q2 % 256;
    let b3 = q2 / 256;
    vstd::arithmetic::div_mod::lemma_fundamental_div_mod(v as int, 256);
    vstd::arithmetic::div_mod::lemma_fundamental_div_mod(q1, 256);
    vstd::arithmetic::div_mod::lemma_fundamental_div_mod(q2, 256);
    vstd::arithmetic::div_mod::lemma_div_denominator(v as int, 256, 256);
    vstd::arithmetic::div_mod::lemma_div_denominator(v as int, 65536, 256);
    assert(q2 == v as int / 65536);
    assert(b3 == v as int / 16777216);
    assert(t[off] == b0);
    assert(t[off + 1] == b1);
    assert(t[off + 2] == b2);
    assert(t[off + 3] == b3);
    assert(u32_at(t, off) == b0 + 256 * b1 + 65536 * (b2 + 256 * b3));
}

/// `s` with the byte at `off` set to `v`, when `off` lies inside.
pub open spec fn put_byte(s: Seq<u8>, off: int, v: u8) -> Seq<u8> {
    if 0 <= off < s.len() {
        s.update(off, v)
    } else {
        s
    }
}

impl View for Arena {
    type V = Seq<u8>;

    closed spec fn view(&self) -> Seq<u8> {
        self.bytes@
    }
}

impl Arena {
    /// Allocates a zeroed arena of `len` bytes; `None` when the memory
    /// cannot be had.
    pub fn try_new(len: u32) -> (r: Option<Arena>)
        ensures
            r matches Some(a) ==> a@.len() == len && forall|i: int| 0 <= i < len ==> a@[i] == 0u8,
    {
        let mut bytes: Vec<u8> = Vec::new();
        let n = len as usize;
        if bytes.try_reserve(n).is_err() {
            return None;
        }
        bytes.resize(n, 0u8);
        Some(Arena { bytes })
    }

    /// The number of bytes of the arena.
    pub fn len(&self) -> (r: u32)
        requires
            self@.len() <= u32::MAX,
        ensures
            r == self@.len(),
    {
        self.bytes.len() as u32
    }

    /// Reads the byte at `off`.
    pub fn rd8(&self, off: u32) -> (r: u8)
        ensures
            r == byte_at(self@, off as int),
    {
        let i = off as usize;
        if i < self.bytes.len() {
            self.bytes[i]
        } else {
            0
        }
    }

    /// Writes the byte `v` at `off`.
    pub fn wr8(&mut self, off: u32, v: u8)
        ensures
            final(self)@ == put_byte(old(self)@, off as int, v),
    {
        let i = off as usize;
        if i < self.bytes.len() {
            self.bytes.set(i, v);
        }
    }

    /// Reads the little-endian 16-bit value at `off`.
    pub fn rd16(&self, off: u32) -> (r: u16)
        ensures
            r == u16_at(self@, off as int),
    {
        let lo = self.rd8(off);
        let hi = self.rd8(off.wrapping_add(1));
        proof {
            assert(((lo as u16) | ((hi as u16) << 8u16)) == (lo as u16) + 256 * (hi as u16))
                by (bit_vector);
        }
        (lo as u16) | ((hi as u16) << 8u16)
    }

    /// Writes the little-endian 16-bit value `v` at `off`.
    pub fn wr16(&mut self, off: u32, v: u16)
        ensures
            final(self)@ == put_u16(old(self)@, off as int, v),
    {
        self.wr8(off, (v & 0xFF) as u8);
        self.wr8(off.wrapping_add(1), (v >> 8u16) as u8);
        proof {
            assert((v & 0xFF) as u8 == (v % 256) as u8) by (bit_vector);
            assert((v >> 8u16) as u8 == (v / 256) as u8) by (bit_vector);
        }
    }

    /// Reads the little-endian 32-bit value at `off`.
    pub fn rd32(&self, off: u32) -> (r: u32)
        ensures
            r == u32_at(self@, off as int),
    {
        let lo = self.rd16(off);
        let hi = self.rd16(off.wrapping_add(2));
        proof {
            assert(((lo as u32) | ((hi as u32) << 16u32)) == (lo as u32) + 65536 * (hi as u32))
                by (bit_vector);
        }
        (lo as u32) | ((hi as u32) << 16u32)
    }

    /// Writes the little-endian 32-bit value `v` at `off`.
    pub fn wr32(&mut self, off: u32, v: u32)
        ensures
            final(self)@ == put_u32(old(self)@, off as int, v),
    {
        let lo: u16 = (v & 0xFFFF) as u16;
        let hi: u16 = (v >> 16u32) as u16;
        proof {
            assert((lo % 256) as u8 == (v % 256) as u8) by (bit_vector)
                requires lo == (v & 0xFFFF) as u16;
            assert((lo / 256) as u8 == ((v / 256) % 256) as u8) by (bit_vector)
                requires lo == (v & 0xFFFF) as u16;
            assert((hi % 256) as u8 == ((v / 65536) % 256) as u8) by (bit_vector)
                requires hi == (v >> 16u32) as u16;
            assert((hi / 256) as u8 == (v / 16777216) as u8) by (bit_vector)
                requires hi == (v >> 16u32) as u16;
        }
        let off2 = off.wrapping_add(2);
        self.wr16(off, lo);
        self.wr16(off2, hi);
        proof {
            assert((off2 as int + 1) % 0x1_0000_0000 == (off as int + 3) % 0x1_0000_0000);
        }
    }

    /// Copies `n` bytes from offset `src` to offset `dst`, front to back,
    /// one byte at a time.
    pub fn copy_within(&mut self, src: u32, dst: u32, n: u32)
        ensures
            final(self)@ == copied_within(old(self)@, src, dst, n as nat),
            final(self)@.len() == old(self)@.len(),
    {
        let mut k: u32 = 0;
        while k < n
            invariant
                k <= n,
                self@ == copied_within(old(self)@, src, dst, k as nat),
                self@.len() == old(self)@.len(),
            decreases n - k,
        {
            let b = self.rd8(src.wrapping_add(k));
            self.wr8(dst.wrapping_add(k), b);
            k = k + 1;
        }
    }
}

} // verus!
