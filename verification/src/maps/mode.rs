//! The code book of the coding modes.
use vstd::prelude::*;
use vstd::arithmetic::power2::{lemma2_to64, pow2};
use crate::bits::{lemma_canonical, Bits};
use crate::maps::{
    book, decode_index, decodes, high, lemma_sorted_prefix_free, low,
    prefix_free, proper, Mode,
};
use crate::reader::BitReader;

verus! {

/// The numbers of the codes of the modes, each with its mode.
pub const DATA: [u16; 11] = [
    0b0001,  // pass
    0b001,  // horizontal
    0b1,  // vertical, 0
    0b011,  // vertical, 1
    0b000011,  // vertical, 2
    0b0000011,  // vertical, 3
    0b010,  // vertical, -1
    0b000010,  // vertical, -2
    0b0000010,  // vertical, -3
    0b0000001,  // extension
    0b000000000001,  // end of block
];

/// The lengths of the codes, in bits.
pub const LEN: [u8; 11] = [
    4, 3, 1, 3, 6, 7, 3, 6, 7, 7, 12,
];

/// The indices of the codes, ordered by the 16-bit windows they own.
const ORDER: [u8; 11] = [
    10, 9, 8, 5, 7, 4, 0, 1, 6, 3, 2,
];

/// The place of each code in `ORDER`.
const RANK: [u8; 11] = [
    6, 7, 10, 9, 5, 3, 8, 4, 2, 1, 0,
];

/// Where the windows of each code of `ORDER` begin, and the end of all
/// windows.
const LOW: [u32; 12] = [
    16, 512, 1024, 1536, 2048, 3072, 4096, 8192,
    16384, 24576, 32768, 65536,
];

/// The code book.
pub open spec fn codes() -> Seq<Bits> {
    book(DATA@, LEN@)
}

spec fn entry_ok(i: int) -> bool {
    &&& 1 <= LEN[i] <= 13
    &&& DATA[i] < pow2(LEN[i] as nat)
    &&& RANK[i] < 11
    &&& ORDER[RANK[i] as int] == i
    &&& LOW[RANK[i] as int] == DATA[i] * pow2((16 - LEN[i]) as nat)
    &&& (DATA[i] + 1) * pow2((16 - LEN[i]) as nat) <= LOW[RANK[i] + 1]
    &&& ORDER[i] < 11
    &&& RANK[ORDER[i] as int] == i
}

proof fn lemma_entry(i: int)
    requires
        0 <= i < 11,
    ensures
        entry_ok(i),
{
    lemma2_to64();
    if i == 0 {
        assert(entry_ok(0));
    } else if i == 1 {
        assert(entry_ok(1));
    } else if i == 2 {
        assert(entry_ok(2));
    } else if i == 3 {
        assert(entry_ok(3));
    } else if i == 4 {
        assert(entry_ok(4));
    } else if i == 5 {
        assert(entry_ok(5));
    } else if i == 6 {
        assert(entry_ok(6));
    } else if i == 7 {
        assert(entry_ok(7));
    } else if i == 8 {
        assert(entry_ok(8));
    } else if i == 9 {
        assert(entry_ok(9));
    } else if i == 10 {
        assert(entry_ok(10));
    }
}

/// Every code has between 1 and 13 bits, and no code is the start of
/// another.
pub proof fn lemma_prefix_free()
    ensures
        codes().len() == 11,
        proper(codes()),
        prefix_free(codes()),
        forall|i: int| 0 <= i < 11 ==> (#[trigger] codes()[i]).len <= 13,
{
    let c = codes();
    let order = Seq::new(11, |i: int| ORDER[i] as int);
    let rank = Seq::new(11, |i: int| RANK[i] as int);
    let low_of = Seq::new(12, |i: int| LOW[i] as int);
    assert forall|i: int| 0 <= i < 11 implies 1 <= (#[trigger] c[i]).len <= 13
        && c[i].canonical() by {
        lemma_entry(i);
        lemma_canonical(c[i]);
    }
    assert forall|i: int| 0 <= i < 11 implies {
        &&& 0 <= #[trigger] rank[i] < 11
        &&& order[rank[i]] == i
        &&& low_of[rank[i]] == low(c[i])
        &&& high(c[i]) <= low_of[rank[i] + 1]
    } by {
        lemma_entry(i);
    }
    assert forall|r: int| 0 <= r < 11 implies 0 <= #[trigger] order[r] < 11 && rank[order[r]]
        == r by {
        lemma_entry(r);
    }
    lemma_sorted_prefix_free(c, order, rank, low_of);
}

/// The mode that the code with index `i` stands for.
pub open spec fn mode_at(i: int) -> Mode {
    if i == 0 {
        Mode::Pass
    } else if i == 1 {
        Mode::Horizontal
    } else if i == 2 {
        Mode::Vertical(0)
    } else if i == 3 {
        Mode::Vertical(1)
    } else if i == 4 {
        Mode::Vertical(2)
    } else if i == 5 {
        Mode::Vertical(3)
    } else if i == 6 {
        Mode::Vertical(-1i8)
    } else if i == 7 {
        Mode::Vertical(-2i8)
    } else if i == 8 {
        Mode::Vertical(-3i8)
    } else if i == 9 {
        Mode::Extension
    } else {
        Mode::EOF
    }
}

/// The index of the code of `mode`, if it has one: a vertical mode has one
/// for offsets from -3 to 3.
pub open spec fn index_of(mode: Mode) -> Option<int> {
    match mode {
        Mode::Pass => Some(0),
        Mode::Horizontal => Some(1),
        Mode::Vertical(d) => if d == 0 {
            Some(2)
        } else if 1 <= d <= 3 {
            Some(2 + d)
        } else if -3 <= d <= -1 {
            Some(5 - d)
        } else {
            None
        },
        Mode::Extension => Some(9),
        Mode::EOF => Some(10),
    }
}

/// `index_of` and `mode_at` are inverse to each other.
pub proof fn lemma_mode_index(i: int)
    requires
        0 <= i < 11,
    ensures
        index_of(mode_at(i)) == Some(i),
{
}

/// The mode that `stream` starts with, and the length of its code.
pub open spec fn decode_spec(stream: Seq<bool>) -> Option<(Mode, nat)> {
    match crate::maps::lookup(codes(), stream) {
        Some(i) => Some((mode_at(i), codes()[i].len as nat)),
        None => None,
    }
}

/// The code of `mode`, if it has one.
pub open spec fn encode_spec(mode: Mode) -> Option<Bits> {
    match index_of(mode) {
        Some(i) => Some(codes()[i]),
        None => None,
    }
}

fn mode_of_index(i: usize) -> (r: Mode)
    requires
        i < 11,
    ensures
        r == mode_at(i as int),
{
    if i == 0 {
        Mode::Pass
    } else if i == 1 {
        Mode::Horizontal
    } else if i == 2 {
        Mode::Vertical(0)
    } else if i == 3 {
        Mode::Vertical(1)
    } else if i == 4 {
        Mode::Vertical(2)
    } else if i == 5 {
        Mode::Vertical(3)
    } else if i == 6 {
        Mode::Vertical(-1i8)
    } else if i == 7 {
        Mode::Vertical(-2i8)
    } else if i == 8 {
        Mode::Vertical(-3i8)
    } else if i == 9 {
        Mode::Extension
    } else {
        Mode::EOF
    }
}

/// Reads one mode: if the stream starts with the code of a mode, the code
/// is consumed and the mode returned. Otherwise nothing is consumed.
pub fn decode<R: BitReader>(reader: &mut R) -> (r: Option<Mode>)
    requires
        old(reader).wf(),
    ensures
        final(reader).wf(),
        final(reader).reliable() == old(reader).reliable(),
        match r {
            Some(m) => {
                &&& decode_spec(old(reader).stream()) matches Some((mode, len))
                &&& m == mode
                &&& final(reader).stream() == old(reader).stream().skip(len as int)
            },
            None => !old(reader).reliable() || (decode_spec(old(reader).stream()) is None
                && final(reader).stream() == old(reader).stream()),
        },
{
    proof {
        lemma_prefix_free();
    }
    match decode_index(reader, &DATA, &LEN) {
        Some(i) => Some(mode_of_index(i)),
        None => None,
    }
}

/// The code of `mode`, if it has one.
pub fn encode(mode: Mode) -> (r: Option<Bits>)
    ensures
        r == encode_spec(mode),
        r matches Some(b) ==> b.wf(),
{
    let i: usize = match mode {
        Mode::Pass => 0,
        Mode::Horizontal => 1,
        Mode::Vertical(d) => {
            if d == 0 {
                2
            } else if 1 <= d && d <= 3 {
                (2 + d) as usize
            } else if -3 <= d && d <= -1 {
                (5 - d) as usize
            } else {
                return None;
            }
        },
        Mode::Extension => 9,
        Mode::EOF => 10,
    };
    proof {
        lemma_prefix_free();
        assert(codes()[i as int].len <= 13);
    }
    Some(Bits { data: DATA[i], len: LEN[i] })
}

/// The entry with index `i` of the table of modes and their codes.
pub fn entry(i: usize) -> (r: (Mode, Bits))
    requires
        i < 11,
    ensures
        r.0 == mode_at(i as int),
        r.1 == codes()[i as int],
        encode_spec(r.0) == Some(r.1),
{
    (mode_of_index(i), Bits { data: DATA[i], len: LEN[i] })
}

/// A mode's code, followed by anything, decodes to the mode, and the
/// decoder stops behind the code.
pub proof fn lemma_decode_encode(mode: Mode, rest: Seq<bool>)
    requires
        encode_spec(mode) is Some,
    ensures
        decode_spec(encode_spec(mode).unwrap()@ + rest) == Some(
            (mode, encode_spec(mode).unwrap().len as nat),
        ),
{
    lemma_prefix_free();
    let i = index_of(mode).unwrap();
    crate::maps::lemma_lookup_code(codes(), i, rest);
}

} // verus!
