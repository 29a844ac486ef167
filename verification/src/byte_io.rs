//! Byte sources and byte sinks that the range coders read from and write to.
use vstd::prelude::*;

verus! {

/// A source of compressed bytes, read one at a time.
pub trait ByteSource {
    /// Whether the source describes what it will give by `pending`; a
    /// source that does not promises nothing of its bytes.
    open spec fn models_pending() -> bool {
        false
    }

    /// The bytes that the source has still to give.
    open spec fn pending(&self) -> Seq<u8> {
        Seq::empty()
    }

    /// Whether the source gives a byte whenever one is pending: a source
    /// that never fails, such as one over bytes in memory.
    open spec fn reads_all() -> bool {
        false
    }

    /// The next byte, or `None` when no byte can be had (the end of the data
    /// or a failure of the underlying reader). For a source that models its
    /// bytes, a byte that is given is the first of the pending ones, and
    /// `None` consumes nothing.
    fn read_byte(&mut self) -> (r: Option<u8>)
        ensures
            Self::models_pending() ==> (r matches Some(b) ==> {
                &&& old(self).pending().len() > 0
                &&& b == old(self).pending()[0]
                &&& final(self).pending() == old(self).pending().skip(1)
            }),
            Self::models_pending() ==> (r is None ==> final(self).pending() == old(self).pending()),
            Self::models_pending() && Self::reads_all() ==> (r is Some <==> old(self).pending().len() > 0),
    ;
}

/// A sink for compressed bytes, written one at a time.
pub trait ByteSink {
    /// Whether the sink describes what it received by `written`; a sink
    /// that does not promises nothing of its bytes.
    open spec fn models_written() -> bool {
        false
    }

    /// The bytes written to the sink so far.
    open spec fn written(&self) -> Seq<u8> {
        Seq::empty()
    }

    /// Whether every write and flush succeeds: a sink that never fails,
    /// such as one that keeps the bytes in memory.
    open spec fn accepts_all() -> bool {
        false
    }

    /// Appends `byte`; `false` when the underlying writer failed.
    fn write_byte(&mut self, byte: u8) -> (r: bool)
        ensures
            Self::models_written() ==> (r ==> final(self).written() == old(self).written().push(
                byte,
            )),
            Self::accepts_all() ==> r,
    ;

    /// Flushes what was written so far; `false` when the writer failed.
    fn flush_bytes(&mut self) -> (r: bool)
        ensures
            Self::models_written() ==> (r ==> final(self).written() == old(self).written()),
            Self::accepts_all() ==> r,
    ;
}

/// `w` begins with `w0`: the bytes `w0` are kept as the first bytes of `w`.
pub open spec fn extends(w0: Seq<u8>, w: Seq<u8>) -> bool {
    w.len() >= w0.len() && w.subrange(0, w0.len() as int) == w0
}

/// Beginning with is transitive.
pub broadcast proof fn lemma_extends_trans(a: Seq<u8>, b: Seq<u8>, c: Seq<u8>)
    requires
        #[trigger] extends(a, b),
        #[trigger] extends(b, c),
    ensures
        extends(a, c),
{
    assert(c.subrange(0, a.len() as int) =~= b.subrange(0, a.len() as int));
}

/// A sequence begins with itself, and with any sequence it was made from by
/// appending.
pub broadcast proof fn lemma_extends_append(a: Seq<u8>, b: Seq<u8>)
    ensures
        #[trigger] extends(a, a + b),
{
    assert((a + b).subrange(0, a.len() as int) =~= a);
}

/// A sequence begins with itself.
pub broadcast proof fn lemma_extends_refl(a: Seq<u8>)
    ensures
        #[trigger] extends(a, a),
{
    assert(a.subrange(0, a.len() as int) =~= a);
}

/// `p` is what is left of `p0` after some bytes were taken from its front.
pub open spec fn drops_front(p0: Seq<u8>, p: Seq<u8>) -> bool {
    p.len() <= p0.len() && p == p0.skip(p0.len() - p.len())
}

/// Taking bytes from the front twice takes them from the front.
pub proof fn lemma_drops_front_trans(a: Seq<u8>, b: Seq<u8>, c: Seq<u8>)
    requires
        drops_front(a, b),
        drops_front(b, c),
    ensures
        drops_front(a, c),
{
    assert(c =~= a.skip(a.len() - c.len()));
}

/// Taking `k` bytes from the front.
pub broadcast proof fn lemma_drops_front_skip(a: Seq<u8>, k: int)
    requires
        0 <= k <= a.len(),
    ensures
        #[trigger] drops_front(a, a.skip(k)),
{
    assert(a.skip(k) =~= a.skip(a.len() - a.skip(k).len()));
}

/// Taking nothing from the front.
pub broadcast proof fn lemma_drops_front_refl(a: Seq<u8>)
    ensures
        #[trigger] drops_front(a, a),
{
    assert(a =~= a.skip(0));
}

/// A byte source over bytes held in memory.
pub struct SliceSource {
    data: Vec<u8>,
    pos: usize,
}

impl SliceSource {
    /// The bytes of the source.
    pub closed spec fn data(&self) -> Seq<u8> {
        self.data@
    }

    /// How many bytes have been read.
    pub closed spec fn position(&self) -> int {
        self.pos as int
    }

    /// A source that yields `data` from its first byte on.
    pub fn new(data: Vec<u8>) -> (r: SliceSource)
        ensures
            r.data() == data@,
            r.position() == 0,
    {
        SliceSource { data, pos: 0 }
    }

    /// The bytes that have not been read yet.
    pub fn remaining(&self) -> (r: Vec<u8>)
        requires
            self.position() <= self.data().len(),
        ensures
            r@ == self.data().subrange(self.position(), self.data().len() as int),
    {
        let mut out: Vec<u8> = Vec::new();
        let mut i = self.pos;
        while i < self.data.len()
            invariant
                self.pos <= i <= self.data@.len(),
                out@ == self.data@.subrange(self.pos as int, i as int),
            decreases self.data@.len() - i,
        {
            out.push(self.data[i]);
            i = i + 1;
        }
        out
    }
}

impl ByteSource for SliceSource {
    open spec fn models_pending() -> bool {
        true
    }

    open spec fn pending(&self) -> Seq<u8> {
        if self.position() <= self.data().len() {
            self.data().subrange(self.position(), self.data().len() as int)
        } else {
            Seq::empty()
        }
    }

    open spec fn reads_all() -> bool {
        true
    }

    fn read_byte(&mut self) -> (r: Option<u8>)
        ensures
            final(self).data() == old(self).data(),
            old(self).position() < old(self).data().len() ==> {
                &&& r == Some(old(self).data()[old(self).position()])
                &&& final(self).position() == old(self).position() + 1
            },
            old(self).position() >= old(self).data().len() ==> {
                &&& r.is_none()
                &&& final(self).position() == old(self).position()
            },
    {
        if self.pos < self.data.len() {
            let b = self.data[self.pos];
            self.pos = self.pos + 1;
            Some(b)
        } else {
            None
        }
    }
}

/// A byte sink that collects the bytes in memory.
pub struct VecSink {
    data: Vec<u8>,
}

impl VecSink {
    /// The bytes written so far.
    pub closed spec fn data(&self) -> Seq<u8> {
        self.data@
    }

    /// An empty sink.
    pub fn new() -> (r: VecSink)
        ensures
            r.data() == Seq::<u8>::empty(),
    {
        VecSink { data: Vec::new() }
    }

    /// The bytes written, giving up the sink.
    pub fn into_bytes(self) -> (r: Vec<u8>)
        ensures
            r@ == self.data(),
    {
        self.data
    }
}

impl ByteSink for VecSink {
    open spec fn models_written() -> bool {
        true
    }

    open spec fn written(&self) -> Seq<u8> {
        self.data()
    }

    open spec fn accepts_all() -> bool {
        true
    }

    fn write_byte(&mut self, byte: u8) -> (r: bool)
        ensures
            r,
            final(self).data() == old(self).data().push(byte),
    {
        self.data.push(byte);
        true
    }

    fn flush_bytes(&mut self) -> (r: bool)
        ensures
            r,
            final(self).data() == old(self).data(),
    {
        true
    }
}

} // verus!
