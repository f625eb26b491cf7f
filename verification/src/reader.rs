//! Reading a byte string bit by bit.
use vstd::prelude::*;
use crate::bits::{bit, byte_bits, lemma_bits_determined, Bits};

verus! {

/// What a look at the next `bits` bits of `stream` gives: the number that
/// these bits hold, or `None` where the stream has fewer.
pub open spec fn peeked(stream: Seq<bool>, bits: u8, r: Option<u16>) -> bool {
    match r {
        Some(v) => {
            &&& bits <= stream.len()
            &&& (Bits { data: v, len: bits }).canonical()
            &&& (Bits { data: v, len: bits })@ == stream.take(bits as int)
        },
        None => stream.len() < bits,
    }
}

/// A look at the next bits is determined by the stream: two looks at the
/// same number of bits of the same stream give the same.
pub proof fn lemma_peek_determined(stream: Seq<bool>, bits: u8, a: Option<u16>, b: Option<u16>)
    requires
        peeked(stream, bits, a),
        peeked(stream, bits, b),
    ensures
        a == b,
{
    if a is Some && b is Some {
        lemma_bits_determined(
            Bits { data: a.unwrap(), len: bits },
            Bits { data: b.unwrap(), len: bits },
        );
    }
}

/// A source of bits with a look-ahead of up to 16 bits.
pub trait BitReader {
    type Error;

    /// The reader is in a state in which it can be used.
    open spec fn wf(&self) -> bool {
        true
    }

    /// The bits that have not been consumed yet, next bit first.
    open spec fn stream(&self) -> Seq<bool> {
        Seq::empty()
    }

    /// The reader's source cannot fail.
    open spec fn reliable(&self) -> bool {
        false
    }

    /// Looks at the next `bits` bits without consuming them. They are
    /// returned in the low bits of the result, first bit highest; `None`
    /// means that fewer than `bits` bits are left.
    fn peek(&self, bits: u8) -> (r: Option<u16>)
        requires
            self.wf(),
            bits <= 16,
        ensures
            peeked(self.stream(), bits, r),
    ;

    /// Consumes the next `bits` bits.
    fn consume(&mut self, bits: u8) -> (r: Result<(), Self::Error>)
        requires
            old(self).wf(),
            bits <= 16,
            bits <= old(self).stream().len(),
        ensures
            final(self).wf(),
            final(self).reliable() == old(self).reliable(),
            old(self).reliable() ==> r is Ok,
            r is Ok ==> final(self).stream() == old(self).stream().skip(bits as int),
    ;

    /// The number of bits from the reader's position to the next byte
    /// boundary of its source.
    fn bits_to_byte_boundary(&self) -> (r: u8)
        requires
            self.wf(),
        ensures
            r == self.stream().len() % 8,
    ;

    /// Consumes the next bits if they are those of `bits`. Otherwise nothing
    /// is consumed, and the error holds the bits that were found in their
    /// place, or `None` if too few bits were left or the source failed.
    fn expect(&mut self, bits: Bits) -> (r: Result<(), Option<Bits>>)
        requires
            old(self).wf(),
            bits.wf(),
        ensures
            final(self).wf(),
            final(self).reliable() == old(self).reliable(),
            match r {
                Ok(()) => {
                    &&& bits@.is_prefix_of(old(self).stream())
                    &&& final(self).stream() == old(self).stream().skip(bits.len as int)
                },
                Err(Some(seen)) => {
                    &&& seen.len == bits.len
                    &&& seen.canonical()
                    &&& seen@ == old(self).stream().take(bits.len as int)
                    &&& seen@ != bits@
                    &&& final(self).stream() == old(self).stream()
                },
                Err(None) => {
                    ||| old(self).stream().len() < bits.len && final(self).stream() == old(
                        self,
                    ).stream()
                    ||| !old(self).reliable() && bits@.is_prefix_of(old(self).stream())
                },
            },
    {
        let want = bits.normalized();
        match self.peek(bits.len) {
            None => Err(None),
            Some(val) => {
                let seen = Bits { data: val, len: bits.len };
                if val == want.data {
                    proof {
                        assert(seen == want);
                        assert(bits@ =~= self.stream().take(bits.len as int));
                    }
                    match self.consume(bits.len) {
                        Ok(()) => Ok(()),
                        Err(_) => Err(None),
                    }
                } else {
                    proof {
                        if seen@ == want@ {
                            lemma_bits_determined(seen, want);
                        }
                    }
                    Err(Some(seen))
                }
            },
        }
    }
}

/// A `BitReader` over a byte string, most significant bit of each byte
/// first.
pub struct ByteReader<'a> {
    read: &'a [u8],
    next: usize,
    partial: u32,
    valid: u8,
}

proof fn lemma_shift_in(p: u32, b: u8, k: u32)
    by (bit_vector)
    requires
        k < 32,
    ensures
        bit((p << 8) | (b as u32), k) == (if k < 8 {
            bit(b as u32, k)
        } else {
            bit(p, (k - 8) as u32)
        }),
{
}

proof fn lemma_window(p: u32, s: u32, n: u32, k: u32)
    by (bit_vector)
    requires
        n <= 16,
        s + n <= 24,
        k < n,
    ensures
        (1u32 << n) >= 1,
        ((p >> s) & (((1u32 << n) - 1) as u32)) < 0x10000,
        ((p >> s) & (((1u32 << n) - 1) as u32)) >> n == 0,
        bit((p >> s) & (((1u32 << n) - 1) as u32), k) == bit(p, (s + k) as u32),
{
}

proof fn lemma_window_empty(p: u32, s: u32)
    by (bit_vector)
    requires
        s <= 24,
    ensures
        (p >> s) & (((1u32 << 0u32) - 1) as u32) == 0,
        0u32 >> 0u32 == 0,
{
}

impl<'a> ByteReader<'a> {
    /// The bytes that the reader was made for.
    pub closed spec fn source(&self) -> Seq<u8> {
        self.read@
    }

    /// The number of bits consumed so far.
    pub closed spec fn position(&self) -> nat {
        (8 * self.next - self.valid) as nat
    }

    /// The buffer holds the `valid` bits before byte `next` of the source,
    /// and at least 16 of them unless the source is used up.
    pub closed spec fn inv(&self) -> bool {
        &&& self.next <= self.read@.len()
        &&& self.valid <= 23
        &&& self.valid <= 8 * self.next
        &&& self.valid < 16 ==> self.next == self.read@.len()
        &&& forall|k: u32|
            k < self.valid ==> bit(self.partial, k) == #[trigger] byte_bits(self.read@)[8
                * self.next - 1 - k]
    }

    /// A reader at the start of `read`.
    pub fn new(read: &'a [u8]) -> (r: ByteReader<'a>)
        ensures
            r.wf(),
            r.source() == read@,
            r.position() == 0,
            r.stream() == byte_bits(read@),
    {
        let mut r = ByteReader { read, next: 0, partial: 0, valid: 0 };
        r.fill();
        proof {
            assert(r.stream() =~= byte_bits(read@));
        }
        r
    }

    fn fill(&mut self)
        requires
            old(self).next <= old(self).read@.len(),
            old(self).valid <= 23,
            old(self).valid <= 8 * old(self).next,
            forall|k: u32|
                k < old(self).valid ==> bit(old(self).partial, k) == #[trigger] byte_bits(
                    old(self).read@,
                )[8 * old(self).next - 1 - k],
        ensures
            final(self).inv(),
            final(self).read == old(self).read,
            final(self).position() == 8 * old(self).next - old(self).valid,
    {
        while self.valid < 16 && self.next < self.read.len()
            invariant
                self.read == old(self).read,
                self.next <= self.read@.len(),
                self.valid <= 23,
                self.valid <= 8 * self.next,
                8 * self.next - self.valid == 8 * old(self).next - old(self).valid,
                forall|k: u32|
                    k < self.valid ==> bit(self.partial, k) == #[trigger] byte_bits(self.read@)[8
                        * self.next - 1 - k],
            decreases self.read@.len() - self.next,
        {
            let byte = self.read[self.next];
            let ghost p = self.partial;
            let ghost v = self.valid;
            let ghost n = self.next;
            self.partial = (self.partial << 8) | (byte as u32);
            self.valid = self.valid + 8;
            self.next = self.next + 1;
            proof {
                assert forall|k: u32| k < self.valid implies bit(self.partial, k)
                    == #[trigger] byte_bits(self.read@)[8 * self.next - 1 - k] by {
                    lemma_shift_in(p, byte, k);
                    if k < 8 {
                        let i = 8 * n + 7 - k;
                        assert(i / 8 == n && i % 8 == 7 - k);
                    } else {
                        let j = (k - 8) as u32;
                        assert(bit(p, j) == byte_bits(self.read@)[8 * n - 1 - j]);
                    }
                }
            }
        }
    }
}

impl<'a> BitReader for ByteReader<'a> {
    type Error = core::convert::Infallible;

    open spec fn wf(&self) -> bool {
        self.inv()
    }

    open spec fn stream(&self) -> Seq<bool> {
        byte_bits(self.source()).skip(self.position() as int)
    }

    open spec fn reliable(&self) -> bool {
        true
    }

    fn peek(&self, bits: u8) -> (r: Option<u16>) {
        if self.valid >= bits {
            let shift = (self.valid - bits) as u32;
            proof {
                if bits > 0 {
                    lemma_window(self.partial, shift, bits as u32, 0);
                } else {
                    lemma_window_empty(self.partial, shift);
                    assert((1u32 << 0u32) >= 1) by (bit_vector);
                }
            }
            let out = ((self.partial >> shift) & ((1u32 << (bits as u32)) - 1)) as u16;
            proof {
                let b = Bits { data: out, len: bits };
                let t = self.stream().take(bits as int);
                assert(b@.len() == t.len());
                assert forall|i: int| 0 <= i < bits implies b@[i] == t[i] by {
                    let k = (bits - 1 - i) as u32;
                    lemma_window(self.partial, shift, bits as u32, k);
                    let j = (shift + k) as u32;
                    assert(bit(self.partial, j) == byte_bits(self.read@)[8 * self.next - 1 - j]);
                }
                assert(b@ =~= t);
            }
            Some(out)
        } else {
            None
        }
    }

    fn consume(&mut self, bits: u8) -> (r: Result<(), Self::Error>) {
        proof {
            assert(self.stream().len() == 8 * self.read@.len() - self.position());
        }
        let ghost before = self.stream();
        self.valid = self.valid - bits;
        self.fill();
        proof {
            assert(self.stream() =~= before.skip(bits as int));
        }
        Ok(())
    }

    fn bits_to_byte_boundary(&self) -> (r: u8) {
        let v = self.valid;
        proof {
            assert(v & 7 == v % 8) by (bit_vector);
        }
        self.valid & 7
    }
}

/// A reader at the start of `slice`.
pub fn slice_reader(slice: &[u8]) -> (r: ByteReader<'_>)
    ensures
        r.wf(),
        r.source() == slice@,
        r.stream() == byte_bits(slice@),
{
    ByteReader::new(slice)
}

/// The bits of `slice`, most significant bit of each byte first.
pub fn slice_bits(slice: &[u8]) -> (r: Vec<bool>)
    ensures
        r@ == byte_bits(slice@),
{
    let mut out: Vec<bool> = Vec::new();
    let mut i: usize = 0;
    while i < slice.len()
        invariant
            i <= slice@.len(),
            out@ == byte_bits(slice@.take(i as int)),
        decreases slice@.len() - i,
    {
        let b = slice[i];
        let mut j: u8 = 0;
        while j < 8
            invariant
                j <= 8,
                i < slice@.len(),
                b == slice@[i as int],
                out@ == byte_bits(slice@.take(i as int)) + byte_bits(seq![b]).take(j as int),
            decreases 8 - j,
        {
            let v = (b >> (7 - j)) & 1 != 0;
            proof {
                let k = (7 - j) as u8;
                assert(((b >> k) & 1 != 0) == bit(b as u32, k as u32)) by (bit_vector)
                    requires
                        k < 8,
                ;
                assert(byte_bits(seq![b]).take(j as int).push(v) =~= byte_bits(seq![b]).take(
                    j + 1,
                ));
            }
            out.push(v);
            j = j + 1;
        }
        proof {
            crate::bits::lemma_byte_bits_push(slice@.take(i as int), b);
            assert(slice@.take(i as int).push(b) =~= slice@.take(i + 1));
            assert(byte_bits(seq![b]).take(8) =~= byte_bits(seq![b]));
        }
        i = i + 1;
    }
    proof {
        assert(slice@.take(i as int) =~= slice@);
    }
    out
}

} // verus!
