//! The code book of white runs.
use vstd::prelude::*;
use vstd::arithmetic::power2::{lemma2_to64, pow2};
use crate::bits::{lemma_canonical, Bits};
use crate::maps::{
    book, decode_index, high, is_run_value, lemma_lookup_code,
    lemma_sorted_prefix_free, lookup, low, prefix_free, proper, run_index, run_value,
};
use crate::reader::BitReader;

verus! {

/// The numbers of the codes of white runs, each with the run length it stands for: the
/// terminating codes of runs of 0 to 63, then the make-up codes of the multiples of 64
/// up to 2560.
pub const DATA: [u16; 104] = [
    0b00110101,  // 0
    0b000111,  // 1
    0b0111,  // 2
    0b1000,  // 3
    0b1011,  // 4
    0b1100,  // 5
    0b1110,  // 6
    0b1111,  // 7
    0b10011,  // 8
    0b10100,  // 9
    0b00111,  // 10
    0b01000,  // 11
    0b001000,  // 12
    0b000011,  // 13
    0b110100,  // 14
    0b110101,  // 15
    0b101010,  // 16
    0b101011,  // 17
    0b0100111,  // 18
    0b0001100,  // 19
    0b0001000,  // 20
    0b0010111,  // 21
    0b0000011,  // 22
    0b0000100,  // 23
    0b0101000,  // 24
    0b0101011,  // 25
    0b0010011,  // 26
    0b0100100,  // 27
    0b0011000,  // 28
    0b00000010,  // 29
    0b00000011,  // 30
    0b00011010,  // 31
    0b00011011,  // 32
    0b00010010,  // 33
    0b00010011,  // 34
    0b00010100,  // 35
    0b00010101,  // 36
    0b00010110,  // 37
    0b00010111,  // 38
    0b00101000,  // 39
    0b00101001,  // 40
    0b00101010,  // 41
    0b00101011,  // 42
    0b00101100,  // 43
    0b00101101,  // 44
    0b00000100,  // 45
    0b00000101,  // 46
    0b00001010,  // 47
    0b00001011,  // 48
    0b01010010,  // 49
    0b01010011,  // 50
    0b01010100,  // 51
    0b01010101,  // 52
    0b00100100,  // 53
    0b00100101,  // 54
    0b01011000,  // 55
    0b01011001,  // 56
    0b01011010,  // 57
    0b01011011,  // 58
    0b01001010,  // 59
    0b01001011,  // 60
    0b00110010,  // 61
    0b00110011,  // 62
    0b00110100,  // 63
    0b11011,  // 64
    0b10010,  // 128
    0b010111,  // 192
    0b0110111,  // 256
    0b00110110,  // 320
    0b00110111,  // 384
    0b01100100,  // 448
    0b01100101,  // 512
    0b01101000,  // 576
    0b01100111,  // 640
    0b011001100,  // 704
    0b011001101,  // 768
    0b011010010,  // 832
    0b011010011,  // 896
    0b011010100,  // 960
    0b011010101,  // 1024
    0b011010110,  // 1088
    0b011010111,  // 1152
    0b011011000,  // 1216
    0b011011001,  // 1280
    0b011011010,  // 1344
    0b011011011,  // 1408
    0b010011000,  // 1472
    0b010011001,  // 1536
    0b010011010,  // 1600
    0b011000,  // 1664
    0b010011011,  // 1728
    0b00000001000,  // 1792
    0b00000001100,  // 1856
    0b00000001101,  // 1920
    0b000000010010,  // 1984
    0b000000010011,  // 2048
    0b000000010100,  // 2112
    0b000000010101,  // 2176
    0b000000010110,  // 2240
    0b000000010111,  // 2304
    0b000000011100,  // 2368
    0b000000011101,  // 2432
    0b000000011110,  // 2496
    0b000000011111,  // 2560
];

/// The lengths of the codes, in bits.
pub const LEN: [u8; 104] = [
    8, 6, 4, 4, 4, 4, 4, 4, 5, 5, 5, 5, 6,
    6, 6, 6, 6, 6, 7, 7, 7, 7, 7, 7, 7, 7,
    7, 7, 7, 8, 8, 8, 8, 8, 8, 8, 8, 8, 8,
    8, 8, 8, 8, 8, 8, 8, 8, 8, 8, 8, 8, 8,
    8, 8, 8, 8, 8, 8, 8, 8, 8, 8, 8, 8, 5,
    5, 6, 7, 8, 8, 8, 8, 8, 8, 9, 9, 9, 9,
    9, 9, 9, 9, 9, 9, 9, 9, 9, 9, 9, 6, 9,
    11, 11, 11, 12, 12, 12, 12, 12, 12, 12, 12, 12, 12,
];

/// The indices of the codes, ordered by the 16-bit windows they own.
const ORDER: [u8; 104] = [
    91, 94, 95, 96, 97, 98, 99, 92, 93, 100, 101, 102, 103,
    29, 30, 45, 46, 22, 23, 47, 48, 13, 20, 33, 34, 35,
    36, 37, 38, 19, 31, 32, 1, 12, 53, 54, 26, 39, 40,
    41, 42, 43, 44, 21, 28, 61, 62, 63, 0, 68, 69, 10,
    11, 27, 59, 60, 86, 87, 88, 90, 18, 24, 49, 50, 51,
    52, 25, 55, 56, 57, 58, 66, 89, 70, 71, 74, 75, 73,
    72, 76, 77, 78, 79, 80, 81, 82, 83, 84, 85, 67, 2,
    3, 65, 8, 9, 16, 17, 4, 5, 14, 15, 64, 6, 7,
];

/// The place of each code in `ORDER`.
const RANK: [u8; 104] = [
    48, 32, 90, 91, 97, 98, 102, 103, 93, 94, 51, 52, 33,
    21, 99, 100, 95, 96, 60, 29, 22, 43, 17, 18, 61, 66,
    36, 53, 44, 13, 14, 30, 31, 23, 24, 25, 26, 27, 28,
    37, 38, 39, 40, 41, 42, 15, 16, 19, 20, 62, 63, 64,
    65, 34, 35, 67, 68, 69, 70, 54, 55, 45, 46, 47, 101,
    92, 71, 89, 49, 50, 73, 74, 78, 77, 75, 76, 79, 80,
    81, 82, 83, 84, 85, 86, 87, 88, 56, 57, 58, 72, 59,
    0, 7, 8, 1, 2, 3, 4, 5, 6, 9, 10, 11, 12,
];

/// Where the windows of each code of `ORDER` begin, and the end of all
/// windows.
const LOW: [u32; 105] = [
    256, 288, 304, 320, 336, 352, 368, 384,
    416, 448, 464, 480, 496, 512, 768, 1024,
    1280, 1536, 2048, 2560, 2816, 3072, 4096, 4608,
    4864, 5120, 5376, 5632, 5888, 6144, 6656, 6912,
    7168, 8192, 9216, 9472, 9728, 10240, 10496, 10752,
    11008, 11264, 11520, 11776, 12288, 12800, 13056, 13312,
    13568, 13824, 14080, 14336, 16384, 18432, 18944, 19200,
    19456, 19584, 19712, 19840, 19968, 20480, 20992, 21248,
    21504, 21760, 22016, 22528, 22784, 23040, 23296, 23552,
    24576, 25600, 25856, 26112, 26240, 26368, 26624, 26880,
    27008, 27136, 27264, 27392, 27520, 27648, 27776, 27904,
    28032, 28160, 28672, 32768, 36864, 38912, 40960, 43008,
    44032, 45056, 49152, 53248, 54272, 55296, 57344, 61440,
    65536,
];

/// The code book.
pub open spec fn codes() -> Seq<Bits> {
    book(DATA@, LEN@)
}

spec fn entry_ok(i: int) -> bool {
    &&& 1 <= LEN[i] <= 13
    &&& DATA[i] < pow2(LEN[i] as nat)
    &&& RANK[i] < 104
    &&& ORDER[RANK[i] as int] == i
    &&& LOW[RANK[i] as int] == DATA[i] * pow2((16 - LEN[i]) as nat)
    &&& (DATA[i] + 1) * pow2((16 - LEN[i]) as nat) <= LOW[RANK[i] + 1]
    &&& ORDER[i] < 104
    &&& RANK[ORDER[i] as int] == i
}

proof fn lemma_entry(i: int)
    requires
        0 <= i < 104,
    ensures
        entry_ok(i),
{
    lemma2_to64();
    if i == 0 {
        assert(entry_ok(0));
    } else if i == 1 {
        assert(entry_ok(1));
    } else if i == 2 {
        assert(entry_ok(2));
    } else if i == 3 {
        assert(entry_ok(3));
    } else if i == 4 {
        assert(entry_ok(4));
    } else if i == 5 {
        assert(entry_ok(5));
    } else if i == 6 {
        assert(entry_ok(6));
    } else if i == 7 {
        assert(entry_ok(7));
    } else if i == 8 {
        assert(entry_ok(8));
    } else if i == 9 {
        assert(entry_ok(9));
    } else if i == 10 {
        assert(entry_ok(10));
    } else if i == 11 {
        assert(entry_ok(11));
    } else if i == 12 {
        assert(entry_ok(12));
    } else if i == 13 {
        assert(entry_ok(13));
    } else if i == 14 {
        assert(entry_ok(14));
    } else if i == 15 {
        assert(entry_ok(15));
    } else if i == 16 {
        assert(entry_ok(16));
    } else if i == 17 {
        assert(entry_ok(17));
    } else if i == 18 {
        assert(entry_ok(18));
    } else if i == 19 {
        assert(entry_ok(19));
    } else if i == 20 {
        assert(entry_ok(20));
    } else if i == 21 {
        assert(entry_ok(21));
    } else if i == 22 {
        assert(entry_ok(22));
    } else if i == 23 {
        assert(entry_ok(23));
    } else if i == 24 {
        assert(entry_ok(24));
    } else if i == 25 {
        assert(entry_ok(25));
    } else if i == 26 {
        assert(entry_ok(26));
    } else if i == 27 {
        assert(entry_ok(27));
    } else if i == 28 {
        assert(entry_ok(28));
    } else if i == 29 {
        assert(entry_ok(29));
    } else if i == 30 {
        assert(entry_ok(30));
    } else if i == 31 {
        assert(entry_ok(31));
    } else if i == 32 {
        assert(entry_ok(32));
    } else if i == 33 {
        assert(entry_ok(33));
    } else if i == 34 {
        assert(entry_ok(34));
    } else if i == 35 {
        assert(entry_ok(35));
    } else if i == 36 {
        assert(entry_ok(36));
    } else if i == 37 {
        assert(entry_ok(37));
    } else if i == 38 {
        assert(entry_ok(38));
    } else if i == 39 {
        assert(entry_ok(39));
    } else if i == 40 {
        assert(entry_ok(40));
    } else if i == 41 {
        assert(entry_ok(41));
    } else if i == 42 {
        assert(entry_ok(42));
    } else if i == 43 {
        assert(entry_ok(43));
    } else if i == 44 {
        assert(entry_ok(44));
    } else if i == 45 {
        assert(entry_ok(45));
    } else if i == 46 {
        assert(entry_ok(46));
    } else if i == 47 {
        assert(entry_ok(47));
    } else if i == 48 {
        assert(entry_ok(48));
    } else if i == 49 {
        assert(entry_ok(49));
    } else if i == 50 {
        assert(entry_ok(50));
    } else if i == 51 {
        assert(entry_ok(51));
    } else if i == 52 {
        assert(entry_ok(52));
    } else if i == 53 {
        assert(entry_ok(53));
    } else if i == 54 {
        assert(entry_ok(54));
    } else if i == 55 {
        assert(entry_ok(55));
    } else if i == 56 {
        assert(entry_ok(56));
    } else if i == 57 {
        assert(entry_ok(57));
    } else if i == 58 {
        assert(entry_ok(58));
    } else if i == 59 {
        assert(entry_ok(59));
    } else if i == 60 {
        assert(entry_ok(60));
    } else if i == 61 {
        assert(entry_ok(61));
    } else if i == 62 {
        assert(entry_ok(62));
    } else if i == 63 {
        assert(entry_ok(63));
    } else if i == 64 {
        assert(entry_ok(64));
    } else if i == 65 {
        assert(entry_ok(65));
    } else if i == 66 {
        assert(entry_ok(66));
    } else if i == 67 {
        assert(entry_ok(67));
    } else if i == 68 {
        assert(entry_ok(68));
    } else if i == 69 {
        assert(entry_ok(69));
    } else if i == 70 {
        assert(entry_ok(70));
    } else if i == 71 {
        assert(entry_ok(71));
    } else if i == 72 {
        assert(entry_ok(72));
    } else if i == 73 {
        assert(entry_ok(73));
    } else if i == 74 {
        assert(entry_ok(74));
    } else if i == 75 {
        assert(entry_ok(75));
    } else if i == 76 {
        assert(entry_ok(76));
    } else if i == 77 {
        assert(entry_ok(77));
    } else if i == 78 {
        assert(entry_ok(78));
    } else if i == 79 {
        assert(entry_ok(79));
    } else if i == 80 {
        assert(entry_ok(80));
    } else if i == 81 {
        assert(entry_ok(81));
    } else if i == 82 {
        assert(entry_ok(82));
    } else if i == 83 {
        assert(entry_ok(83));
    } else if i == 84 {
        assert(entry_ok(84));
    } else if i == 85 {
        assert(entry_ok(85));
    } else if i == 86 {
        assert(entry_ok(86));
    } else if i == 87 {
        assert(entry_ok(87));
    } else if i == 88 {
        assert(entry_ok(88));
    } else if i == 89 {
        assert(entry_ok(89));
    } else if i == 90 {
        assert(entry_ok(90));
    } else if i == 91 {
        assert(entry_ok(91));
    } else if i == 92 {
        assert(entry_ok(92));
    } else if i == 93 {
        assert(entry_ok(93));
    } else if i == 94 {
        assert(entry_ok(94));
    } else if i == 95 {
        assert(entry_ok(95));
    } else if i == 96 {
        assert(entry_ok(96));
    } else if i == 97 {
        assert(entry_ok(97));
    } else if i == 98 {
        assert(entry_ok(98));
    } else if i == 99 {
        assert(entry_ok(99));
    } else if i == 100 {
        assert(entry_ok(100));
    } else if i == 101 {
        assert(entry_ok(101));
    } else if i == 102 {
        assert(entry_ok(102));
    } else if i == 103 {
        assert(entry_ok(103));
    }
}

/// Every code has between 1 and 13 bits, and no code is the start of
/// another.
pub proof fn lemma_prefix_free()
    ensures
        codes().len() == 104,
        proper(codes()),
        prefix_free(codes()),
        forall|i: int| 0 <= i < 104 ==> (#[trigger] codes()[i]).len <= 13,
{
    let c = codes();
    let order = Seq::new(104, |i: int| ORDER[i] as int);
    let rank = Seq::new(104, |i: int| RANK[i] as int);
    let low_of = Seq::new(105, |i: int| LOW[i] as int);
    assert forall|i: int| 0 <= i < 104 implies 1 <= (#[trigger] c[i]).len <= 13
        && c[i].canonical() by {
        lemma_entry(i);
        lemma_canonical(c[i]);
    }
    assert forall|i: int| 0 <= i < 104 implies {
        &&& 0 <= #[trigger] rank[i] < 104
        &&& order[rank[i]] == i
        &&& low_of[rank[i]] == low(c[i])
        &&& high(c[i]) <= low_of[rank[i] + 1]
    } by {
        lemma_entry(i);
    }
    assert forall|r: int| 0 <= r < 104 implies 0 <= #[trigger] order[r] < 104 && rank[order[r]]
        == r by {
        lemma_entry(r);
    }
    lemma_sorted_prefix_free(c, order, rank, low_of);
}

/// The run length whose code `stream` starts with, and the length of that
/// code.
pub open spec fn decode_spec(stream: Seq<bool>) -> Option<(u16, nat)> {
    match lookup(codes(), stream) {
        Some(i) => Some((run_value(i) as u16, codes()[i].len as nat)),
        None => None,
    }
}

/// The code of the run length `val`, if it has one of its own: the
/// lengths below 64 and the multiples of 64 up to 2560 have.
pub open spec fn encode_spec(val: u16) -> Option<Bits> {
    if is_run_value(val as int) {
        Some(codes()[run_index(val as int)])
    } else {
        None
    }
}

/// Reads one run length: if the stream starts with a code of the book, the
/// code is consumed and its run length returned. Otherwise nothing is
/// consumed.
pub fn decode<R: BitReader>(reader: &mut R) -> (r: Option<u16>)
    requires
        old(reader).wf(),
    ensures
        final(reader).wf(),
        final(reader).reliable() == old(reader).reliable(),
        match r {
            Some(v) => {
                &&& decode_spec(old(reader).stream()) matches Some((val, len))
                &&& v == val
                &&& is_run_value(v as int)
                &&& 1 <= len <= 13
                &&& final(reader).stream() == old(reader).stream().skip(len as int)
            },
            None => !old(reader).reliable() || (decode_spec(old(reader).stream()) is None
                && final(reader).stream() == old(reader).stream()),
        },
{
    proof {
        lemma_prefix_free();
    }
    match decode_index(reader, &DATA, &LEN) {
        Some(i) => {
            if i < 64 {
                Some(i as u16)
            } else {
                Some(((i - 63) * 64) as u16)
            }
        },
        None => None,
    }
}

/// The code of the run length `val`, if it has one of its own.
pub fn encode(val: u16) -> (r: Option<Bits>)
    ensures
        r == encode_spec(val),
        r matches Some(b) ==> 1 <= b.len <= 13 && b.canonical(),
{
    if val < 64 || (val % 64 == 0 && val <= 2560) {
        let i: usize = if val < 64 {
            val as usize
        } else {
            63 + (val / 64) as usize
        };
        proof {
            lemma_prefix_free();
            assert(codes()[i as int].len <= 13);
        }
        Some(Bits { data: DATA[i], len: LEN[i] })
    } else {
        None
    }
}

/// The entry with index `i` of the table of run lengths and their codes.
pub fn entry(i: usize) -> (r: (u16, Bits))
    requires
        i < 104,
    ensures
        r.0 == run_value(i as int),
        r.1 == codes()[i as int],
        encode_spec(r.0) == Some(r.1),
{
    let v: u16 = if i < 64 {
        i as u16
    } else {
        ((i - 63) * 64) as u16
    };
    (v, Bits { data: DATA[i], len: LEN[i] })
}

/// The code of a run length, followed by anything, decodes to that run
/// length, and the decoder stops behind the code.
pub proof fn lemma_decode_encode(val: u16, rest: Seq<bool>)
    requires
        encode_spec(val) is Some,
    ensures
        decode_spec(encode_spec(val).unwrap()@ + rest) == Some(
            (val, encode_spec(val).unwrap().len as nat),
        ),
{
    lemma_prefix_free();
    lemma_lookup_code(codes(), run_index(val as int), rest);
}

} // verus!
