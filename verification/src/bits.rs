//! Short bit strings and the facts about shifts and masks that the bit-level
//! reader and writer rest on.
use vstd::prelude::*;
use vstd::string::{StrSliceExecFns, StringExecFns};
use vstd::arithmetic::power2::{lemma_pow2_pos, pow2};
use vstd::bits::lemma_u32_shr_is_div;

verus! {

/// Bit `k` of `v`, counted from the least significant bit.
pub open spec fn bit(v: u32, k: u32) -> bool {
    (v >> k) & 1 == 1
}

/// The bits of a byte string, most significant bit of each byte first.
pub open spec fn byte_bits(bytes: Seq<u8>) -> Seq<bool> {
    Seq::new(8 * bytes.len(), |i: int| bit(bytes[i / 8] as u32, (7 - i % 8) as u32))
}

/// `n` zero bits.
pub open spec fn zeros(n: nat) -> Seq<bool> {
    Seq::new(n, |i: int| false)
}

/// The character that stands for a bit.
pub open spec fn bit_char(b: bool) -> char {
    if b {
        '1'
    } else {
        '0'
    }
}

/// The bit string written with the characters `0` and `1`.
pub open spec fn bit_text(bits: Seq<bool>) -> Seq<char> {
    Seq::new(bits.len(), |i: int| bit_char(bits[i]))
}

/// A string of at most 16 bits, held in the low `len` bits of `data`.
#[derive(Copy, Clone, Debug, PartialEq, Eq, PartialOrd, Ord, Structural)]
pub struct Bits {
    pub data: u16,
    pub len: u8,
}

impl View for Bits {
    type V = Seq<bool>;

    /// The bit string, first bit first: the low `len` bits of `data`, most
    /// significant first.
    open spec fn view(&self) -> Seq<bool> {
        Seq::new(self.len as nat, |i: int| bit(self.data as u32, (self.len - 1 - i) as u32))
    }
}

impl Bits {
    /// The length is one that a `u16` can hold.
    pub open spec fn wf(self) -> bool {
        self.len <= 16
    }

    /// Well formed, and no bit is set above the low `len` bits.
    pub open spec fn canonical(self) -> bool {
        self.len <= 16 && (self.data as u32) >> (self.len as u32) == 0
    }

    /// The same bit string with every bit above the low `len` bits cleared.
    pub open spec fn masked(self) -> Bits {
        Bits {
            data: ((self.data as u32) & (((1u32 << (self.len as u32)) - 1) as u32)) as u16,
            len: self.len,
        }
    }

    /// The bit string without its first `len` bits.
    pub open spec fn stripped(self, len: u8) -> Bits {
        (Bits { data: self.data, len: (self.len - len) as u8 }).masked()
    }

    /// The bit string filled up with zeros to 16 bits.
    pub open spec fn padded(self) -> Seq<bool> {
        self@ + zeros((16 - self.len) as nat)
    }

    /// The bit string of `len` bits held in `data`.
    pub fn new(data: u16, len: u8) -> (r: Bits)
        ensures
            r.data == data,
            r.len == len,
    {
        Bits { data, len }
    }

    /// The same bit string with every bit above the low `len` bits cleared.
    pub fn normalized(self) -> (r: Bits)
        requires
            self.wf(),
        ensures
            r == self.masked(),
            r.canonical(),
            r.len == self.len,
            r@ == self@,
    {
        let n = self.len as u32;
        let x = self.data as u32;
        proof {
            lemma_masked(self);
            assert((1u32 << n) >= 1) by (bit_vector)
                requires
                    n <= 16,
            ;
        }
        let d = x & ((1u32 << n) - 1);
        Bits { data: d as u16, len: self.len }
    }

    /// The bit string without its first `len` bits.
    pub fn strip_prefix(self, len: u8) -> (r: Bits)
        requires
            len <= self.len <= 16,
        ensures
            r == self.stripped(len),
            r.canonical(),
            r.len == self.len - len,
            r@ == self@.skip(len as int),
    {
        let r = (Bits { data: self.data, len: self.len - len }).normalized();
        proof {
            assert(r@ =~= self@.skip(len as int));
        }
        r
    }

    /// The first `len` bits of the bit string, as a number.
    pub fn prefix(self, len: u8) -> (r: u16)
        requires
            len <= self.len <= 16,
        ensures
            (Bits { data: r, len }).canonical(),
            (Bits { data: r, len })@ == self@.take(len as int),
    {
        let n = self.normalized();
        let s = (self.len - len) as u32;
        proof {
            lemma_shifted_clear(n.data as u32, s, self.len as u32);
        }
        let r = ((n.data as u32) >> s) as u16;
        proof {
            let b = Bits { data: r, len };
            assert(b@.len() == len);
            assert forall|i: int| 0 <= i < len implies b@[i] == self@[i] by {
                lemma_shifted_bit(n.data as u32, s, (len - 1 - i) as u32);
                assert(n@[i] == self@[i]);
            }
            assert(b@ =~= self@.take(len as int));
        }
        r
    }

    /// The numbers of `len` bits that start with this bit string: those from
    /// the first of the pair up to, and not including, the second.
    pub fn prefix_range(self, len: u8) -> (r: (u32, u32))
        requires
            self.len <= len <= 16,
        ensures
            r.0 < r.1 <= pow2(len as nat) <= 0x10000,
            forall|c: Bits|
                c.len == len && c.canonical() ==> (self@.is_prefix_of(#[trigger] c@) <==> r.0
                    <= c.data < r.1),
    {
        let n = self.normalized();
        let s = (len - self.len) as u32;
        let d = n.data as u32;
        proof {
            let m = self.len as u32;
            let n = len as u32;
            assert((1u32 << s) >= 1 && (d << s) < 0x10000 && (d << s) + (1u32 << s) <= (1u32
                << n) && (1u32 << n) <= 0x10000) by (bit_vector)
                requires
                    s + m == n,
                    n <= 16,
                    d >> m == 0,
            ;
            vstd::arithmetic::power2::lemma2_to64();
            if n < 16 {
                vstd::arithmetic::power2::lemma_pow2_strictly_increases(n as nat, 16);
            }
            vstd::bits::lemma_u32_shl_is_mul(1, n);
        }
        let start = d << s;
        let end = start + (1u32 << s);
        proof {
            assert forall|c: Bits| c.len == len && c.canonical() implies (self@.is_prefix_of(
                #[trigger] c@,
            ) <==> start <= c.data < end) by {
                let v = c.data as u32;
                lemma_range(d, v, self.len as u32, len as u32);
                lemma_shifted_clear(v, s, len as u32);
                let p = Bits { data: (v >> s) as u16, len: self.len };
                assert(c@.len() == len && self@.len() == self.len && n@ == self@);
                assert(p@ =~= c@.take(self.len as int)) by {
                    assert(p@.len() == self.len);
                    assert forall|i: int| 0 <= i < self.len implies p@[i] == c@[i] by {
                        lemma_shifted_bit(v, s, (self.len - 1 - i) as u32);
                    }
                }
                if self@.is_prefix_of(c@) {
                    assert(p@ == n@);
                    lemma_bits_determined(p, n);
                }
                if v >> s == d {
                    assert(p == n);
                }
            }
        }
        (start, end)
    }

    /// This bit string followed by `rhs`.
    pub fn concat(self, rhs: Bits) -> (r: Bits)
        requires
            self.len + rhs.len <= 16,
        ensures
            r.canonical(),
            r.len == self.len + rhs.len,
            r@ == self@ + rhs@,
    {
        let a = self.normalized();
        let b = rhs.normalized();
        proof {
            lemma_joined(a.data as u32, b.data as u32, a.len as u32, b.len as u32, 0);
        }
        let data = (((a.data as u32) << (b.len as u32)) | (b.data as u32)) as u16;
        let r = Bits { data, len: self.len + rhs.len };
        proof {
            let both = self@ + rhs@;
            assert(r@.len() == both.len());
            assert forall|i: int| 0 <= i < r@.len() implies r@[i] == both[i] by {
                lemma_joined(
                    a.data as u32,
                    b.data as u32,
                    a.len as u32,
                    b.len as u32,
                    (r.len - 1 - i) as u32,
                );
                if i < self.len {
                    assert(a@[i] == self@[i]);
                } else {
                    assert(b@[i - self.len] == rhs@[i - self.len]);
                }
            }
            assert(r@ =~= both);
        }
        r
    }

    /// The bit string moved to the top of a 16-bit number, with zeros
    /// behind it.
    pub fn align_left(self) -> (r: u16)
        requires
            self.len <= 16,
        ensures
            (Bits { data: r, len: 16 })@ == self.padded(),
    {
        let n = self.normalized();
        proof {
            lemma_aligned(n.data as u32, n.len as u32, 0);
        }
        let r = ((n.data as u32) << ((16 - self.len) as u32)) as u16;
        proof {
            let b = Bits { data: r, len: 16 };
            let want = self@ + zeros((16 - self.len) as nat);
            assert(b@.len() == want.len());
            assert forall|i: int| 0 <= i < 16 implies b@[i] == want[i] by {
                lemma_aligned(n.data as u32, n.len as u32, (15 - i) as u32);
                if i < self.len {
                    assert(n@[i] == self@[i]);
                }
            }
            assert(b@ =~= want);
        }
        r
    }

    /// The number of bits, from the first on, in which this bit string and
    /// `other` agree when both are filled up with zeros to 16 bits.
    pub fn common_prefix_len(self, other: Bits) -> (r: u8)
        requires
            self.len <= 16,
            other.len <= 16,
        ensures
            r <= 16,
            forall|i: int| 0 <= i < r ==> #[trigger] self.padded()[i] == other.padded()[i],
            r < 16 ==> self.padded()[r as int] != other.padded()[r as int],
    {
        let a = self.align_left();
        let b = other.align_left();
        let x = a ^ b;
        let z = x.leading_zeros();
        proof {
            vstd::std_specs::bits::axiom_u16_leading_zeros(x);
            let va = (Bits { data: a, len: 16 })@;
            let vb = (Bits { data: b, len: 16 })@;
            let s = (16 - z) as u32;
            assert(((a as u32) ^ (b as u32)) == x as u32) by (bit_vector)
                requires
                    x == a ^ b,
            ;
            assert(((x as u32) >> s == 0) == (x >> (s as u16) == 0u16)) by (bit_vector)
                requires
                    s <= 16,
            ;
            assert forall|i: int| 0 <= i < z implies va[i] == vb[i] by {
                lemma_differ(a as u32, b as u32, s, (15 - i) as u32);
            }
            if z < 16 {
                let k = (15 - z) as u32;
                lemma_differ(a as u32, b as u32, s, k);
                assert((((x as u32) >> k) & 1 != 0) == ((x >> (k as u16)) & 1u16 != 0u16))
                    by (bit_vector)
                    requires
                        k < 16,
                ;
                assert(va[z as int] != vb[z as int]);
            }
        }
        z as u8
    }

    /// The bit string written with the characters `0` and `1`, first bit
    /// first: as many characters as it has bits.
    pub fn to_string(&self) -> (r: String)
        requires
            self.wf(),
        ensures
            r@ == bit_text(self@),
    {
        let mut out = String::from_str("");
        proof {
            reveal_strlit("");
            reveal_strlit("0");
            reveal_strlit("1");
            assert(out@ =~= bit_text(self@.take(0)));
        }
        let mut i: u8 = 0;
        while i < self.len
            invariant
                i <= self.len <= 16,
                "0"@ == seq!['0'],
                "1"@ == seq!['1'],
                out@ == bit_text(self@.take(i as int)),
            decreases self.len - i,
        {
            let k = (self.len - 1 - i) as u32;
            let set = ((self.data as u32) >> k) & 1 == 1;
            proof {
                assert(set == self@[i as int]);
                assert(bit_text(self@.take(i as int)) + seq![bit_char(set)] =~= bit_text(
                    self@.take(i + 1),
                ));
            }
            if set {
                out.append("1");
            } else {
                out.append("0");
            }
            i = i + 1;
        }
        proof {
            assert(self@.take(i as int) =~= self@);
        }
        out
    }

    /// The bit string that `text` writes with the characters `0` and `1`.
    /// There is none where `text` holds another character, or more than 16.
    pub fn parse(text: &str) -> (r: Option<Bits>)
        ensures
            match r {
                Some(b) => b.canonical() && bit_text(b@) == text@,
                None => text@.len() > 16 || exists|i: int|
                    0 <= i < text@.len() && text@[i] != '0' && text@[i] != '1',
            },
    {
        let n = text.unicode_len();
        if n > 16 {
            return None;
        }
        let mut acc = Bits { data: 0, len: 0 };
        proof {
            assert(acc@ =~= Seq::<bool>::empty());
            assert(0u32 >> 0u32 == 0) by (bit_vector);
            assert(bit_text(acc@) =~= text@.take(0));
        }
        let mut i: usize = 0;
        while i < n
            invariant
                i <= n,
                n == text@.len(),
                n <= 16,
                acc.len == i,
                acc.canonical(),
                bit_text(acc@) == text@.take(i as int),
            decreases n - i,
        {
            let c = text.get_char(i);
            let one = if c == '1' {
                Bits { data: 1, len: 1 }
            } else if c == '0' {
                Bits { data: 0, len: 1 }
            } else {
                return None;
            };
            let ghost before = acc@;
            acc = acc.concat(one);
            proof {
                assert(one@ =~= seq![c == '1']) by {
                    assert(one@.len() == 1);
                    assert(bit(1u32, 0) && !bit(0u32, 0)) by (bit_vector);
                }
                assert(bit_text(before + one@) =~= text@.take(i as int).push(c));
                assert(text@.take(i as int).push(c) =~= text@.take(i + 1));
            }
            i = i + 1;
        }
        proof {
            assert(text@.take(i as int) =~= text@);
        }
        Some(acc)
    }

    /// The empty bit string.
    pub fn empty() -> (r: Bits)
        ensures
            r.data == 0,
            r.len == 0,
            r@ == Seq::<bool>::empty(),
    {
        Bits { data: 0, len: 0 }
    }
}

/// Clearing the bits above the low `len` bits gives a canonical bit string
/// with the same bits.
pub proof fn lemma_masked(b: Bits)
    requires
        b.len <= 16,
    ensures
        b.masked().canonical(),
        b.masked()@ == b@,
{
    let n = b.len as u32;
    let x = b.data as u32;
    assert((1u32 << n) >= 1 && (x & (((1u32 << n) - 1) as u32)) < 0x10000 && (x & (((1u32 << n)
        - 1) as u32)) >> n == 0) by (bit_vector)
        requires
            n <= 16,
            x < 0x10000,
    ;
    let r = b.masked();
    assert(r@.len() == b@.len());
    assert forall|i: int| 0 <= i < r@.len() implies r@[i] == b@[i] by {
        let k = (n - 1 - i) as u32;
        assert(bit(x & (((1u32 << n) - 1) as u32), k) == bit(x, k)) by (bit_vector)
            requires
                k < n,
                n <= 16,
        ;
    }
    assert(r@ =~= b@);
}

/// Without its first `len` bits a bit string is canonical and holds the
/// bits that remain.
pub proof fn lemma_stripped(b: Bits, len: u8)
    requires
        len <= b.len <= 16,
    ensures
        b.stripped(len).canonical(),
        b.stripped(len).len == b.len - len,
        b.stripped(len)@ == b@.skip(len as int),
{
    let t = Bits { data: b.data, len: (b.len - len) as u8 };
    lemma_masked(t);
    assert(t@ =~= b@.skip(len as int));
}

/// A canonical bit string is determined by its bits.
pub proof fn lemma_bits_determined(a: Bits, b: Bits)
    requires
        a.canonical(),
        b.canonical(),
        a@ == b@,
    ensures
        a == b,
{
    assert(a@.len() == a.len && b@.len() == b.len);
    let n = a.len as u32;
    let x = a.data as u32;
    let y = b.data as u32;
    assert forall|k: u32| k < n implies bit(x, k) == bit(y, k) by {
        let i = (n - 1 - k) as int;
        assert(a@[i] == bit(x, k));
        assert(b@[i] == bit(y, k));
    }
    lemma_low_bits_equal(x, y, n);
}

/// Two numbers whose bits above `n` are clear and whose low `n` bits agree
/// are equal.
proof fn lemma_low_bits_equal(x: u32, y: u32, n: u32)
    requires
        n <= 16,
        x >> n == 0,
        y >> n == 0,
        forall|k: u32| k < n ==> bit(x, k) == bit(y, k),
    ensures
        x == y,
{
    assert(bit(x, 0) == bit(y, 0) || n <= 0);
    assert(bit(x, 1) == bit(y, 1) || n <= 1);
    assert(bit(x, 2) == bit(y, 2) || n <= 2);
    assert(bit(x, 3) == bit(y, 3) || n <= 3);
    assert(bit(x, 4) == bit(y, 4) || n <= 4);
    assert(bit(x, 5) == bit(y, 5) || n <= 5);
    assert(bit(x, 6) == bit(y, 6) || n <= 6);
    assert(bit(x, 7) == bit(y, 7) || n <= 7);
    assert(bit(x, 8) == bit(y, 8) || n <= 8);
    assert(bit(x, 9) == bit(y, 9) || n <= 9);
    assert(bit(x, 10) == bit(y, 10) || n <= 10);
    assert(bit(x, 11) == bit(y, 11) || n <= 11);
    assert(bit(x, 12) == bit(y, 12) || n <= 12);
    assert(bit(x, 13) == bit(y, 13) || n <= 13);
    assert(bit(x, 14) == bit(y, 14) || n <= 14);
    assert(bit(x, 15) == bit(y, 15) || n <= 15);
    assert(x == y) by (bit_vector)
        requires
            n <= 16,
            x >> n == 0,
            y >> n == 0,
            bit(x, 0) == bit(y, 0) || n <= 0,
            bit(x, 1) == bit(y, 1) || n <= 1,
            bit(x, 2) == bit(y, 2) || n <= 2,
            bit(x, 3) == bit(y, 3) || n <= 3,
            bit(x, 4) == bit(y, 4) || n <= 4,
            bit(x, 5) == bit(y, 5) || n <= 5,
            bit(x, 6) == bit(y, 6) || n <= 6,
            bit(x, 7) == bit(y, 7) || n <= 7,
            bit(x, 8) == bit(y, 8) || n <= 8,
            bit(x, 9) == bit(y, 9) || n <= 9,
            bit(x, 10) == bit(y, 10) || n <= 10,
            bit(x, 11) == bit(y, 11) || n <= 11,
            bit(x, 12) == bit(y, 12) || n <= 12,
            bit(x, 13) == bit(y, 13) || n <= 13,
            bit(x, 14) == bit(y, 14) || n <= 14,
            bit(x, 15) == bit(y, 15) || n <= 15,
    ;
}

/// A bit string is canonical if and only if its number is below two to the
/// power of its length.
pub proof fn lemma_canonical(c: Bits)
    requires
        c.len <= 16,
    ensures
        c.canonical() <==> c.data < pow2(c.len as nat),
{
    let d = c.data as u32;
    let l = c.len as u32;
    lemma_u32_shr_is_div(d, l);
    lemma_pow2_pos(l as nat);
    let p = pow2(l as nat) as int;
    assert((d as int) / p == 0 <==> (d as int) < p) by (nonlinear_arith)
        requires
            d >= 0,
            p > 0,
    ;
}

/// Shifting a 16-bit number to the right moves its bits down.
pub proof fn lemma_shifted_bit(x: u32, s: u32, k: u32)
    by (bit_vector)
    requires
        x < 0x10000,
        s <= 16,
        k < 16,
        s + k < 16,
    ensures
        bit(x >> s, k) == bit(x, (s + k) as u32),
        (x >> s) < 0x10000,
        (x >> s) >> ((16 - s) as u32) == 0,
{
}

/// Shifting a number of `l` bits to the right by `s` leaves `l - s` bits.
pub proof fn lemma_shifted_clear(x: u32, s: u32, l: u32)
    by (bit_vector)
    requires
        x >> l == 0,
        s <= l <= 16,
    ensures
        (x >> s) < 0x10000,
        (x >> s) >> ((l - s) as u32) == 0,
{
}

proof fn lemma_joined(a: u32, b: u32, la: u32, lb: u32, k: u32)
    by (bit_vector)
    requires
        la + lb <= 16,
        a >> la == 0,
        b >> lb == 0,
        k < 16,
    ensures
        ((a << lb) | b) < 0x10000,
        ((a << lb) | b) >> ((la + lb) as u32) == 0,
        bit((a << lb) | b, k) == (if k < lb {
            bit(b, k)
        } else {
            bit(a, (k - lb) as u32)
        }),
{
}

proof fn lemma_aligned(v: u32, n: u32, k: u32)
    by (bit_vector)
    requires
        n <= 16,
        v >> n == 0,
        k < 16,
    ensures
        (v << ((16 - n) as u32)) < 0x10000,
        bit(v << ((16 - n) as u32), k) == (if k >= 16 - n {
            bit(v, (k + n - 16) as u32)
        } else {
            false
        }),
{
}

/// The numbers of `n` bits that start with the `m` bits of `d` are those
/// from `d << (n - m)` up to `1 << (n - m)` more.
pub proof fn lemma_range(d: u32, v: u32, m: u32, n: u32)
    by (bit_vector)
    requires
        m <= n <= 16,
        d >> m == 0,
        v >> n == 0,
    ensures
        (d << ((n - m) as u32)) + (1u32 << ((n - m) as u32)) <= 0x10000,
        (v >> ((n - m) as u32) == d) <==> ((d << ((n - m) as u32)) <= v && v < (d << ((n
            - m) as u32)) + (1u32 << ((n - m) as u32))),
{
}

proof fn lemma_differ(a: u32, b: u32, s: u32, k: u32)
    by (bit_vector)
    requires
        a < 0x10000,
        b < 0x10000,
        k < 16,
        s <= 16,
    ensures
        (a ^ b) < 0x10000,
        ((a ^ b) >> s == 0 && k >= s) ==> bit(a, k) == bit(b, k),
        ((a ^ b) >> k) & 1 != 0 ==> bit(a, k) != bit(b, k),
{
}

/// Appending a byte to a byte string appends its eight bits.
pub proof fn lemma_byte_bits_push(bytes: Seq<u8>, b: u8)
    ensures
        byte_bits(bytes.push(b)) == byte_bits(bytes) + byte_bits(seq![b]),
{
    let l = byte_bits(bytes.push(b));
    let r = byte_bits(bytes) + byte_bits(seq![b]);
    assert(l.len() == r.len());
    assert forall|i: int| 0 <= i < l.len() implies l[i] == r[i] by {
        if i < 8 * bytes.len() {
            assert(i / 8 < bytes.len());
        } else {
            let j = i - 8 * bytes.len();
            assert(i / 8 == bytes.len());
            assert(j / 8 == 0);
            assert(j % 8 == i % 8);
        }
    }
    assert(l =~= r);
}

} // verus!
