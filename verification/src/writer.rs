//! Writing bit strings into a byte buffer.
use vstd::prelude::*;
use crate::bits::{bit, byte_bits, zeros, lemma_byte_bits_push, Bits};

verus! {

/// A sink that takes bit strings, first bit first.
pub trait BitWriter {
    type Error;

    /// The sink is in a state in which it can be written to.
    open spec fn wf(&self) -> bool {
        true
    }

    /// Every bit written so far, in order.
    open spec fn written(&self) -> Seq<bool> {
        Seq::empty()
    }

    /// The sink cannot fail.
    open spec fn reliable(&self) -> bool {
        false
    }

    /// Appends the bits of `bits`.
    fn write(&mut self, bits: Bits) -> (r: Result<(), Self::Error>)
        requires
            old(self).wf(),
            bits.wf(),
        ensures
            final(self).wf(),
            final(self).reliable() == old(self).reliable(),
            old(self).reliable() ==> r is Ok,
            r is Ok ==> final(self).written() == old(self).written() + bits@,
    ;
}

/// A `BitWriter` that collects its output in memory.
pub struct VecWriter {
    data: Vec<u8>,
    partial: u32,
    len: u8,
}

/// The top `n` bits of `v`, most significant first.
pub open spec fn top_bits(v: u32, n: nat) -> Seq<bool> {
    Seq::new(n, |i: int| bit(v, (31 - i) as u32))
}

/// The number of zero bits that bring `n` bits to a byte boundary.
pub open spec fn padding(n: nat) -> nat {
    ((8 - n % 8) % 8) as nat
}

proof fn lemma_merge(p: u32, data: u16, len: u8, blen: u8, k: u32)
    by (bit_vector)
    requires
        len < 8,
        blen <= 16,
        p << (len as u32) == 0,
        k < 32,
    ensures
        ({
            let d = (data as u32) & (((1u32 << (blen as u32)) - 1) as u32);
            let s = (32 - len - blen) as u32;
            let q = p | (d << s);
            &&& bit(q, k) == (if k >= 32 - len {
                bit(p, k)
            } else if k >= s {
                bit(data as u32, (k - s) as u32)
            } else {
                false
            })
        }),
{
}

proof fn lemma_merge_low(p: u32, data: u16, len: u8, blen: u8)
    by (bit_vector)
    requires
        len < 8,
        blen <= 16,
        p << (len as u32) == 0,
    ensures
        ({
            let d = (data as u32) & (((1u32 << (blen as u32)) - 1) as u32);
            let s = (32 - len - blen) as u32;
            (p | (d << s)) << ((len + blen) as u32) == 0
        }),
{
}

proof fn lemma_flush(p: u32, len: u8, k: u32)
    by (bit_vector)
    requires
        8 <= len < 24,
        p << (len as u32) == 0,
        k < 32,
    ensures
        (p << 8) << ((len - 8) as u32) == 0,
        k < 8 ==> bit(((p >> 24) as u8) as u32, k) == bit(p, (k + 24) as u32),
        k >= 8 ==> bit(p << 8, k) == bit(p, (k - 8) as u32),
{
}

proof fn lemma_pad(p: u32, len: u8, k: u32)
    by (bit_vector)
    requires
        0 < len < 8,
        p << (len as u32) == 0,
        k < 8,
    ensures
        bit(((p >> 24) as u8) as u32, k) == bit(p, (k + 24) as u32),
        k < 8 - len ==> !bit(p, (k + 24) as u32),
{
}

impl VecWriter {
    /// The bits still held back: the top `len` bits of `partial`, and
    /// nothing set below them.
    pub closed spec fn inv(&self) -> bool {
        &&& self.len < 8
        &&& self.partial << (self.len as u32) == 0
    }

    /// The complete bytes written so far.
    pub closed spec fn bytes(&self) -> Seq<u8> {
        self.data@
    }

    /// The bits written after the last complete byte, fewer than eight.
    pub closed spec fn pending(&self) -> Seq<bool> {
        top_bits(self.partial, self.len as nat)
    }

    /// An empty writer.
    pub fn new() -> (r: VecWriter)
        ensures
            r.wf(),
            r.written() == Seq::<bool>::empty(),
    {
        let r = VecWriter { data: Vec::new(), partial: 0, len: 0 };
        proof {
            assert(0u32 << 0u32 == 0) by (bit_vector);
            assert(r.written() =~= Seq::<bool>::empty());
        }
        r
    }

    /// An empty writer, made with memory for `n` bits: it holds what one of `new` holds.
    pub fn with_capacity(n: usize) -> (r: VecWriter)
        ensures
            r.wf(),
            r.written() == Seq::<bool>::empty(),
    {
        let bytes = n / 8 + if n % 8 != 0 { 1usize } else { 0usize };
        let r = VecWriter { data: Vec::with_capacity(bytes), partial: 0, len: 0 };
        proof {
            assert(0u32 << 0u32 == 0) by (bit_vector);
            assert(r.written() =~= Seq::<bool>::empty());
        }
        r
    }

    /// Pads the output with zero bits up to the next byte boundary.
    pub fn pad(&mut self)
        requires
            old(self).wf(),
        ensures
            final(self).wf(),
            final(self).written() == old(self).written() + zeros(
                padding(old(self).written().len()),
            ),
            final(self).written().len() % 8 == 0,
            final(self).pending().len() == 0,
            byte_bits(final(self).bytes()) == final(self).written(),
    {
        if self.len > 0 {
            let byte = #[verifier::truncate]
            ((self.partial >> 24) as u8);
            proof {
                let p = self.partial;
                let n = self.len;
                lemma_byte_bits_push(self.data@, byte);
                let l = byte_bits(seq![byte]);
                let r = top_bits(p, n as nat) + zeros(padding(old(self).written().len()));
                assert(old(self).written().len() == 8 * self.data@.len() + n);
                assert(padding(old(self).written().len()) == 8 - n);
                assert(l.len() == r.len());
                assert forall|i: int| 0 <= i < 8 implies l[i] == r[i] by {
                    lemma_pad(p, n, (7 - i) as u32);
                }
                assert(l =~= r);
                assert(0u32 << 0u32 == 0) by (bit_vector);
            }
            self.data.push(byte);
            self.partial = 0;
            self.len = 0;
            proof {
                assert(top_bits(0, 0) =~= Seq::<bool>::empty());
                assert(self.written() =~= old(self).written() + zeros(
                    padding(old(self).written().len()),
                ));
                assert(byte_bits(self.bytes()) =~= self.written());
            }
        } else {
            proof {
                assert(padding(old(self).written().len()) == 0);
                assert(zeros(0) =~= Seq::<bool>::empty());
                assert(self.written() =~= old(self).written() + zeros(0));
                assert(byte_bits(self.bytes()) =~= self.written());
            }
        }
    }

    /// Pads the output to a byte boundary and returns the bytes.
    pub fn finish(self) -> (r: Vec<u8>)
        requires
            self.wf(),
        ensures
            byte_bits(r@) == self.written() + zeros(padding(self.written().len())),
            r@.len() == (self.written().len() + 7) / 8,
    {
        let mut w = self;
        w.pad();
        proof {
            assert(byte_bits(w.data@).len() == 8 * w.data@.len());
        }
        w.data
    }
}

impl BitWriter for VecWriter {
    type Error = core::convert::Infallible;

    open spec fn wf(&self) -> bool {
        self.inv()
    }

    open spec fn written(&self) -> Seq<bool> {
        byte_bits(self.bytes()) + self.pending()
    }

    open spec fn reliable(&self) -> bool {
        true
    }

    fn write(&mut self, bits: Bits) -> (r: Result<(), Self::Error>) {
        if bits.len == 0 {
            proof {
                assert(self.written() + bits@ =~= self.written());
            }
            return Ok(());
        }
        let ghost partial_before = self.partial;
        let ghost len_before = self.len;
        proof {
            let n = bits.len as u32;
            assert((1u32 << n) >= 1) by (bit_vector)
                requires
                    n <= 16,
            ;
        }
        let mask: u32 = (1u32 << (bits.len as u32)) - 1;
        let d: u32 = (bits.data as u32) & mask;
        self.partial = self.partial | (d << ((32 - self.len - bits.len) as u32));
        self.len = self.len + bits.len;
        proof {
            lemma_merge_low(partial_before, bits.data, len_before, bits.len);
            let l = top_bits(self.partial, self.len as nat);
            let r = top_bits(partial_before, len_before as nat) + bits@;
            assert(l.len() == r.len());
            assert forall|i: int| 0 <= i < l.len() implies l[i] == r[i] by {
                lemma_merge(partial_before, bits.data, len_before, bits.len, (31 - i) as u32);
            }
            assert(l =~= r);
        }
        while self.len >= 8
            invariant
                self.len < 24,
                self.partial << (self.len as u32) == 0,
                byte_bits(self.data@) + top_bits(self.partial, self.len as nat) == old(
                    self,
                ).written() + bits@,
            decreases self.len,
        {
            let byte = #[verifier::truncate]
            ((self.partial >> 24) as u8);
            proof {
                let p = self.partial;
                let n = self.len;
                lemma_byte_bits_push(self.data@, byte);
                lemma_flush(p, n, 0);
                let l = byte_bits(seq![byte]) + top_bits(p << 8, (n - 8) as nat);
                let r = top_bits(p, n as nat);
                assert(l.len() == r.len());
                assert forall|i: int| 0 <= i < l.len() implies l[i] == r[i] by {
                    if i < 8 {
                        lemma_flush(p, n, (7 - i) as u32);
                    } else {
                        lemma_flush(p, n, (31 - (i - 8)) as u32);
                    }
                }
                assert(l =~= r);
                assert(byte_bits(self.data@.push(byte)) + top_bits(p << 8, (n - 8) as nat)
                    =~= byte_bits(self.data@) + r);
            }
            self.data.push(byte);
            self.partial = self.partial << 8;
            self.len = self.len - 8;
        }
        Ok(())
    }
}

} // verus!
