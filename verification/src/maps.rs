//! Prefix codes: what it means for a code book to decode a bit stream, and
//! the look-up that the three code books of the format share.
use vstd::prelude::*;
use vstd::arithmetic::power2::{lemma2_to64, lemma_pow2_adds, lemma_pow2_pos, pow2};
use vstd::bits::lemma_u32_shr_is_div;
use crate::bits::{
    bit, lemma_bits_determined, lemma_canonical, lemma_shifted_bit, lemma_shifted_clear, Bits,
};
use crate::lut::{
    built, canonical_all, lemma_table_complete, no_prefix, window_bits, Node,
};
use crate::reader::BitReader;
use crate::Color;

pub mod black;
pub mod mode;
pub mod white;

verus! {

/// The coding modes of the two-dimensional scheme.
#[derive(Copy, Clone, Debug, PartialEq, Eq, Hash, Structural)]
pub enum Mode {
    Pass,
    Horizontal,
    Vertical(i8),
    Extension,
    EOF,
}

/// The end-of-line marker of Group 3: eleven zeros and a one.
pub open spec fn eol_bits() -> Bits {
    Bits { data: 1, len: 12 }
}

/// The end-of-line marker has nothing set above its twelve bits.
pub proof fn lemma_eol_canonical()
    ensures
        eol_bits().canonical(),
        eol_bits()@.len() == 12,
{
    lemma2_to64();
    lemma_canonical(eol_bits());
}

/// The end-of-line marker of Group 3.
pub fn eol() -> (r: Bits)
    ensures
        r == eol_bits(),
{
    Bits { data: 1, len: 12 }
}

/// One half of the end-of-block marker of Group 4, which is written twice.
pub fn edfb_half() -> (r: Bits)
    ensures
        r == eol_bits(),
{
    Bits { data: 1, len: 12 }
}

/// The code with index `i` is what `stream` starts with.
pub open spec fn matching(codes: Seq<Bits>, stream: Seq<bool>, i: int) -> bool {
    0 <= i < codes.len() && codes[i]@.is_prefix_of(stream)
}

/// The index of a code that `stream` starts with, if there is one. In a
/// prefix-free book there is at most one (`lemma_lookup_unique`).
pub open spec fn lookup(codes: Seq<Bits>, stream: Seq<bool>) -> Option<int> {
    if exists|i: int| matching(codes, stream, i) {
        Some(choose|i: int| matching(codes, stream, i))
    } else {
        None
    }
}

/// No code of the book is the start of another.
pub open spec fn prefix_free(codes: Seq<Bits>) -> bool {
    forall|i: int, j: int|
        0 <= i < codes.len() && 0 <= j < codes.len() && i != j ==> !(
        #[trigger] codes[i]@).is_prefix_of(#[trigger] codes[j]@)
}

/// Every code has between 1 and 16 bits and nothing set above them.
pub open spec fn proper(codes: Seq<Bits>) -> bool {
    forall|i: int| 0 <= i < codes.len() ==> 1 <= (#[trigger] codes[i]).len && codes[i].canonical()
}

/// In a prefix-free book a stream starts with at most one code, so `lookup`
/// finds the code that matches.
pub proof fn lemma_lookup_unique(codes: Seq<Bits>, stream: Seq<bool>, i: int)
    requires
        prefix_free(codes),
        matching(codes, stream, i),
    ensures
        lookup(codes, stream) == Some(i),
{
    let j = choose|j: int| matching(codes, stream, j);
    if i != j {
        let a = codes[i]@;
        let b = codes[j]@;
        if a.len() <= b.len() {
            assert(a =~= b.take(a.len() as int));
            assert(a.is_prefix_of(b));
        } else {
            assert(b =~= a.take(b.len() as int));
            assert(b.is_prefix_of(a));
        }
    }
}

/// A code followed by anything is decoded as that code.
pub proof fn lemma_lookup_code(codes: Seq<Bits>, i: int, rest: Seq<bool>)
    requires
        prefix_free(codes),
        0 <= i < codes.len(),
    ensures
        lookup(codes, codes[i]@ + rest) == Some(i),
{
    let s = codes[i]@ + rest;
    assert(s.take(codes[i]@.len() as int) =~= codes[i]@);
    lemma_lookup_unique(codes, s, i);
}

/// The first of the 16-bit windows that start with the code.
pub open spec fn low(c: Bits) -> int {
    c.data * pow2((16 - c.len) as nat)
}

/// The end of the 16-bit windows that start with the code.
pub open spec fn high(c: Bits) -> int {
    (c.data + 1) * pow2((16 - c.len) as nat)
}

/// If one code is the start of another, the windows of the second lie
/// among those of the first.
pub proof fn lemma_prefix_windows(a: Bits, b: Bits)
    requires
        a.canonical(),
        b.canonical(),
        a@.is_prefix_of(b@),
    ensures
        low(a) <= low(b) < high(a),
{
    let la = a.len as nat;
    let lb = b.len as nat;
    assert(a@.len() == la && b@.len() == lb);
    let s = (lb - la) as u32;
    let x = b.data as u32;
    lemma_shifted_clear(x, s, lb as u32);
    let c = Bits { data: (x >> s) as u16, len: a.len };
    assert(c@ =~= a@) by {
        assert(c@.len() == a@.len());
        assert forall|i: int| 0 <= i < la implies c@[i] == a@[i] by {
            let k = (la - 1 - i) as u32;
            assert(bit(x >> s, k) == bit(x, (s + k) as u32)) by (bit_vector)
                requires
                    s + k < 32,
            ;
            assert(a@[i] == b@[i]);
        }
    }
    lemma_bits_determined(c, a);
    lemma_u32_shr_is_div(x, s);
    let p = pow2(s as nat) as int;
    let q = pow2((16 - lb) as nat) as int;
    lemma_pow2_pos(s as nat);
    lemma_pow2_pos((16 - lb) as nat);
    lemma_pow2_adds(s as nat, (16 - lb) as nat);
    assert(pow2((16 - la) as nat) == p * q);
    let da = a.data as int;
    let db = b.data as int;
    assert(da == db / p);
    assert(da * p <= db < (da + 1) * p) by (nonlinear_arith)
        requires
            da == db / p,
            p > 0,
            db >= 0,
    ;
    assert(da * (p * q) <= db * q && db * q < (da + 1) * (p * q)) by (nonlinear_arith)
        requires
            da * p <= db < (da + 1) * p,
            q > 0,
    ;
}

/// A book is prefix-free if its codes, taken in the order `order`, own
/// windows that follow one another: `low_of[r]` is where the windows of the
/// code of rank `r` begin, and they end before `low_of[r + 1]`.
pub proof fn lemma_sorted_prefix_free(
    codes: Seq<Bits>,
    order: Seq<int>,
    rank: Seq<int>,
    low_of: Seq<int>,
)
    requires
        proper(codes),
        order.len() == codes.len(),
        rank.len() == codes.len(),
        low_of.len() == codes.len() + 1,
        forall|i: int|
            0 <= i < codes.len() ==> {
                &&& 0 <= #[trigger] rank[i] < codes.len()
                &&& order[rank[i]] == i
                &&& low_of[rank[i]] == low(codes[i])
                &&& high(codes[i]) <= low_of[rank[i] + 1]
            },
        forall|r: int|
            0 <= r < codes.len() ==> 0 <= #[trigger] order[r] < codes.len() && rank[order[r]] == r,
    ensures
        prefix_free(codes),
{
    let n = codes.len() as int;
    assert forall|r: int| 0 <= r < n implies #[trigger] low_of[r] < low_of[r + 1] by {
        let i = order[r];
        assert(rank[i] == r);
        lemma_pow2_pos((16 - codes[i].len) as nat);
        let q = pow2((16 - codes[i].len) as nat) as int;
        let d = codes[i].data as int;
        assert(d * q < (d + 1) * q) by (nonlinear_arith)
            requires
                q > 0,
        ;
    }
    assert forall|i: int, j: int| 0 <= i < n && 0 <= j < n && i != j implies !(
    #[trigger] codes[i]@).is_prefix_of(#[trigger] codes[j]@) by {
        if codes[i]@.is_prefix_of(codes[j]@) {
            lemma_prefix_windows(codes[i], codes[j]);
            let ri = rank[i];
            let rj = rank[j];
            assert(order[ri] == i && order[rj] == j);
            if ri < rj {
                lemma_increasing(low_of, ri + 1, rj);
            } else {
                assert(rj < ri);
                lemma_increasing(low_of, rj + 1, ri);
                lemma_pow2_pos((16 - codes[j].len) as nat);
                let q = pow2((16 - codes[j].len) as nat) as int;
                let d = codes[j].data as int;
                assert(d * q < (d + 1) * q) by (nonlinear_arith)
                    requires
                        q > 0,
                ;
            }
        }
    }
}

proof fn lemma_increasing(s: Seq<int>, a: int, b: int)
    requires
        0 <= a <= b < s.len(),
        forall|r: int| 0 <= r < s.len() - 1 ==> #[trigger] s[r] < s[r + 1],
    ensures
        s[a] <= s[b],
    decreases b - a,
{
    if a < b {
        lemma_increasing(s, a, b - 1);
    }
}

/// The next 16 bits of a stream, or what is left of it filled up with
/// zeros, and the number of bits that are the stream's own.
pub open spec fn is_window(stream: Seq<bool>, window: u16, avail: u8) -> bool {
    &&& avail <= 16
    &&& avail == if stream.len() < 16 {
        stream.len()
    } else {
        16
    }
    &&& forall|i: int| 0 <= i < avail ==> bit(window as u32, (15 - i) as u32) == stream[i]
}

proof fn lemma_align(v: u32, n: u32, k: u32)
    by (bit_vector)
    requires
        n <= 16,
        v >> n == 0,
        k < n,
    ensures
        (v << ((16 - n) as u32)) < 0x10000,
        bit(v << ((16 - n) as u32), (k + 16 - n) as u32) == bit(v, k),
{
}

/// Looks at the next 16 bits of `reader`, fewer if it has no more.
pub fn peek_window<R: BitReader>(reader: &R) -> (r: (u16, u8))
    requires
        reader.wf(),
    ensures
        is_window(reader.stream(), r.0, r.1),
{
    let mut n: u8 = 16;
    loop
        invariant
            reader.wf(),
            n <= 16,
            n < 16 ==> reader.stream().len() <= n,
        decreases n,
    {
        match reader.peek(n) {
            Some(v) => {
                proof {
                    if n > 0 {
                        lemma_align(v as u32, n as u32, 0);
                    } else {
                        assert(((v as u32) << 16u32) < 0x10000) by (bit_vector)
                            requires
                                (v as u32) >> 0u32 == 0,
                        ;
                    }
                }
                let w = ((v as u32) << ((16 - n) as u32)) as u16;
                proof {
                    let b = Bits { data: v, len: n };
                    assert forall|i: int| 0 <= i < n implies bit(w as u32, (15 - i) as u32)
                        == reader.stream()[i] by {
                        let k = (n - 1 - i) as u32;
                        lemma_align(v as u32, n as u32, k);
                        assert(b@[i] == reader.stream().take(n as int)[i]);
                    }
                }
                return (w, n);
            },
            None => {
                n = n - 1;
            },
        }
    }
}

/// That `code` is what the stream starts with can be read off the window.
pub proof fn lemma_window_match(stream: Seq<bool>, window: u16, avail: u8, code: Bits)
    requires
        is_window(stream, window, avail),
        code.canonical(),
        1 <= code.len,
    ensures
        code@.is_prefix_of(stream) <==> code.len <= avail && (window as u32) >> ((16
            - code.len) as u32) == code.data,
{
    let l = code.len;
    assert(code@.len() == l);
    if l <= avail {
        let s = (16 - l) as u32;
        let x = window as u32;
        lemma_shifted_bit(x, s, 0);
        let c = Bits { data: (x >> s) as u16, len: l };
        assert(c@ =~= stream.take(l as int)) by {
            assert forall|i: int| 0 <= i < l implies c@[i] == stream[i] by {
                let k = (l - 1 - i) as u32;
                lemma_shifted_bit(x, s, k);
            }
        }
        if code@.is_prefix_of(stream) {
            assert(code@ =~= stream.take(l as int));
            lemma_bits_determined(c, code);
        }
        if x >> s == code.data {
            assert(c == code);
        }
    }
}

/// Finds the code that the window starts with: the first in the order of
/// the book, which in a prefix-free book is the only one.
fn find_code<const N: usize>(
    data: &[u16; N],
    lens: &[u8; N],
    window: u16,
    avail: u8,
    Ghost(stream): Ghost<Seq<bool>>,
) -> (r: Option<usize>)
    requires
        is_window(stream, window, avail),
        proper(book(data@, lens@)),
    ensures
        match r {
            Some(i) => matching(book(data@, lens@), stream, i as int),
            None => forall|i: int| !matching(book(data@, lens@), stream, i),
        },
{
    let mut i: usize = 0;
    while i < N
        invariant
            i <= N,
            is_window(stream, window, avail),
            proper(book(data@, lens@)),
            forall|j: int| 0 <= j < i ==> !matching(book(data@, lens@), stream, j),
        decreases N - i,
    {
        let l = lens[i];
        let d = data[i];
        proof {
            let c = book(data@, lens@)[i as int];
            assert(c.len == l && c.data == d);
            lemma_window_match(stream, window, avail, c);
        }
        if l <= avail && ((window as u32) >> ((16 - l) as u32)) == d as u32 {
            return Some(i);
        }
        i = i + 1;
    }
    None
}

/// What a decoder owes after reading from a stream `before`: `r` is the
/// index of the code that the stream started with, and the stream is now
/// behind that code; or there was no such code, and the stream is as it was.
/// A reader whose source may fail may also give up.
pub open spec fn decodes(
    codes: Seq<Bits>,
    before: Seq<bool>,
    reliable: bool,
    r: Option<int>,
    after: Seq<bool>,
) -> bool {
    match r {
        Some(i) => {
            &&& 0 <= i < codes.len()
            &&& lookup(codes, before) == Some(i)
            &&& after == before.skip(codes[i].len as int)
        },
        None => !reliable || (lookup(codes, before) is None && after == before),
    }
}

/// Reads one code of the book that `data` and `lens` hold, and returns its
/// index.
pub fn decode_index<R: BitReader, const N: usize>(
    reader: &mut R,
    data: &[u16; N],
    lens: &[u8; N],
) -> (r: Option<usize>)
    requires
        old(reader).wf(),
        proper(book(data@, lens@)),
        prefix_free(book(data@, lens@)),
    ensures
        final(reader).wf(),
        final(reader).reliable() == old(reader).reliable(),
        decodes(
            book(data@, lens@),
            old(reader).stream(),
            old(reader).reliable(),
            match r {
                Some(i) => Some(i as int),
                None => None,
            },
            final(reader).stream(),
        ),
{
    let (window, avail) = peek_window(reader);
    match find_code(data, lens, window, avail, Ghost(reader.stream())) {
        Some(i) => {
            proof {
                lemma_lookup_unique(book(data@, lens@), reader.stream(), i as int);
                assert(book(data@, lens@)[i as int].len == lens[i as int]);
            }
            match reader.consume(lens[i]) {
                Ok(()) => Some(i),
                Err(_) => None,
            }
        },
        None => None,
    }
}

/// The code book that two tables hold: the numbers and the lengths of its
/// codes.
pub open spec fn book(data: Seq<u16>, lens: Seq<u8>) -> Seq<Bits> {
    Seq::new(data.len(), |i: int| Bits { data: data[i], len: lens[i] })
}

/// The run length that the code with index `i` of a colour's book stands
/// for: the terminating codes come first, then the make-up codes.
pub open spec fn run_value(i: int) -> int {
    if i < 64 {
        i
    } else {
        (i - 63) * 64
    }
}

/// `v` is a run length that has a code of its own.
pub open spec fn is_run_value(v: int) -> bool {
    0 <= v < 64 || (v % 64 == 0 && 64 <= v <= 2560)
}

/// The index of the code of run length `v`.
pub open spec fn run_index(v: int) -> int {
    if v < 64 {
        v
    } else {
        63 + v / 64
    }
}


/// The codes of a book, each with its index as its value: what the
/// decoding table of the book is built from.
pub open spec fn entries_of(codes: Seq<Bits>) -> Seq<(u16, Bits)> {
    Seq::new(codes.len(), |i: int| (i as u16, codes[i]))
}

/// The codes of the book that `data` and `lens` hold, each with its index.
pub fn entries<const N: usize>(data: &[u16; N], lens: &[u8; N]) -> (r: Vec<(u16, Bits)>)
    requires
        N <= 0x10000,
    ensures
        r@ == entries_of(book(data@, lens@)),
{
    let mut out: Vec<(u16, Bits)> = Vec::new();
    let mut i: usize = 0;
    while i < N
        invariant
            i <= N,
            N <= 0x10000,
            out@ == entries_of(book(data@, lens@)).take(i as int),
        decreases N - i,
    {
        out.push((i as u16, Bits { data: data[i], len: lens[i] }));
        proof {
            assert(out@ =~= entries_of(book(data@, lens@)).take(i + 1));
        }
        i = i + 1;
    }
    proof {
        assert(out@ =~= entries_of(book(data@, lens@)));
    }
    out
}

/// The window starts with every code that the stream starts with.
pub proof fn lemma_window_starts(stream: Seq<bool>, window: u16, avail: u8, code: Bits)
    requires
        is_window(stream, window, avail),
        code.len <= 16,
        code@.is_prefix_of(stream),
    ensures
        code@.is_prefix_of(window_bits(window)),
        code.len <= avail,
{
    assert(code@.len() == code.len);
    assert(code@ =~= window_bits(window).take(code.len as int));
}

/// Reads one code of the book that `data` and `lens` hold, and returns its
/// index. The code is found in `table`, the decoding table of the book.
pub fn decode_table<R: BitReader, const N: usize>(
    table: &Node<u16>,
    reader: &mut R,
    data: &[u16; N],
    lens: &[u8; N],
) -> (r: Option<usize>)
    requires
        old(reader).wf(),
        N <= 0x10000,
        proper(book(data@, lens@)),
        prefix_free(book(data@, lens@)),
        built(Some(*table), entries_of(book(data@, lens@)), 0),
    ensures
        final(reader).wf(),
        final(reader).reliable() == old(reader).reliable(),
        decodes(
            book(data@, lens@),
            old(reader).stream(),
            old(reader).reliable(),
            match r {
                Some(i) => Some(i as int),
                None => None,
            },
            final(reader).stream(),
        ),
{
    let ghost codes = book(data@, lens@);
    let ghost pats = entries_of(codes);
    let ghost stream = reader.stream();
    let (window, avail) = peek_window(reader);
    proof {
        assert(canonical_all(pats));
        assert(no_prefix(pats));
        crate::lut::lemma_root_level(pats);
        crate::lut::lemma_built_wf(*table, pats, 0, 16);
        // Whatever code the stream starts with, the table holds it for the
        // window.
        assert forall|j: int| matching(codes, stream, j) implies table.find_spec(window, 0)
            == Some((j as u16, codes[j].len)) && codes[j].len <= avail by {
            lemma_window_starts(stream, window, avail, codes[j]);
            lemma_table_complete(*table, pats, window, j);
        }
    }
    match table.lookup(window) {
        Some(found) => {
            let i = found.0 as usize;
            let len = found.1;
            if i < N && len >= 1 && len <= avail && lens[i] == len && ((window as u32) >> ((16
                - len) as u32)) == data[i] as u32 {
                proof {
                    lemma_window_match(stream, window, avail, codes[i as int]);
                    lemma_lookup_unique(codes, stream, i as int);
                }
                match reader.consume(len) {
                    Ok(()) => Some(i),
                    Err(_) => None,
                }
            } else {
                proof {
                    assert forall|j: int| !matching(codes, stream, j) by {
                        if matching(codes, stream, j) {
                            lemma_window_match(stream, window, avail, codes[j]);
                        }
                    }
                }
                None
            }
        },
        None => None,
    }
}

/// The decoding tables of the three code books.
pub struct Tables {
    mode: Node<u16>,
    white: Node<u16>,
    black: Node<u16>,
}

impl Tables {
    /// Each table is the one that is built for its code book.
    pub closed spec fn wf(&self) -> bool {
        &&& built(Some(self.mode), entries_of(mode::codes()), 0)
        &&& built(Some(self.white), entries_of(white::codes()), 0)
        &&& built(Some(self.black), entries_of(black::codes()), 0)
    }

    /// Builds the decoding tables.
    pub fn new() -> (r: Tables)
        ensures
            r.wf(),
    {
        proof {
            mode::lemma_prefix_free();
            white::lemma_prefix_free();
            black::lemma_prefix_free();
            assert(canonical_all(entries_of(mode::codes())));
            assert(no_prefix(entries_of(mode::codes())));
            assert(canonical_all(entries_of(white::codes())));
            assert(no_prefix(entries_of(white::codes())));
            assert(canonical_all(entries_of(black::codes())));
            assert(no_prefix(entries_of(black::codes())));
        }
        let m = entries(&mode::DATA, &mode::LEN);
        let w = entries(&white::DATA, &white::LEN);
        let b = entries(&black::DATA, &black::LEN);
        Tables {
            mode: Node::build(m.as_slice()).unwrap(),
            white: Node::build(w.as_slice()).unwrap(),
            black: Node::build(b.as_slice()).unwrap(),
        }
    }

    /// Reads one mode, as `mode::decode` does.
    pub fn decode_mode<R: BitReader>(&self, reader: &mut R) -> (r: Option<Mode>)
        requires
            self.wf(),
            old(reader).wf(),
        ensures
            final(reader).wf(),
            final(reader).reliable() == old(reader).reliable(),
            match r {
                Some(m) => {
                    &&& mode::decode_spec(old(reader).stream()) matches Some((mode, len))
                    &&& m == mode
                    &&& final(reader).stream() == old(reader).stream().skip(len as int)
                },
                None => !old(reader).reliable() || (mode::decode_spec(old(reader).stream())
                    is None && final(reader).stream() == old(reader).stream()),
            },
    {
        proof {
            mode::lemma_prefix_free();
        }
        match decode_table(&self.mode, reader, &mode::DATA, &mode::LEN) {
            Some(i) => Some(mode::entry(i).0),
            None => None,
        }
    }

    /// Reads one run length of `color`, as `white::decode` and
    /// `black::decode` do.
    pub fn decode_run<R: BitReader>(&self, color: Color, reader: &mut R) -> (r: Option<u16>)
        requires
            self.wf(),
            old(reader).wf(),
        ensures
            final(reader).wf(),
            final(reader).reliable() == old(reader).reliable(),
            match r {
                Some(v) => {
                    &&& run_decode_spec(color, old(reader).stream()) matches Some((val, len))
                    &&& v == val
                    &&& is_run_value(v as int)
                    &&& 1 <= len <= 13
                    &&& final(reader).stream() == old(reader).stream().skip(len as int)
                },
                None => !old(reader).reliable() || (run_decode_spec(
                    color,
                    old(reader).stream(),
                ) is None && final(reader).stream() == old(reader).stream()),
            },
    {
        proof {
            white::lemma_prefix_free();
            black::lemma_prefix_free();
        }
        let found = match color {
            Color::White => decode_table(&self.white, reader, &white::DATA, &white::LEN),
            Color::Black => decode_table(&self.black, reader, &black::DATA, &black::LEN),
        };
        match found {
            Some(i) => Some(white::entry(i).0),
            None => None,
        }
    }
}

/// The run length whose code a stream starts with, in the book of `color`,
/// and the length of that code.
pub open spec fn run_decode_spec(color: Color, stream: Seq<bool>) -> Option<(u16, nat)> {
    match color {
        Color::Black => black::decode_spec(stream),
        Color::White => white::decode_spec(stream),
    }
}

} // verus!
