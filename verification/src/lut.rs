//! Decoding tables for prefix codes: a forest of look-up tables, built from
//! the list of the patterns of a code book.
use vstd::prelude::*;
use vstd::arithmetic::power2::{lemma2_to64, lemma_pow2_strictly_increases, pow2};
use vstd::bits::lemma_u32_shl_is_mul;
use crate::bits::{bit, lemma_bits_determined, lemma_canonical, lemma_stripped, zeros, Bits};

verus! {

/// A table that is indexed by the next `width` bits and holds, for each
/// index, the value of the code that these bits start with, and the number
/// of bits of that code from the table's first bit on.
pub struct LeafLut<T> {
    pub width: u8,
    pub data: Vec<Option<(T, u8)>>,
}

/// A table that is indexed by the next `width` bits and holds, for each
/// index, the table for the codes that start with these bits.
pub struct PrefixLut<T> {
    pub width: u8,
    pub data: Vec<Option<Node<T>>>,
}

/// A decoding table.
pub enum Node<T> {
    /// The only code that is left, with its value and the number of its
    /// bits from the first bit of the table above on.
    Value(T, u8),
    LeafLut(LeafLut<T>),
    PrefixLut(PrefixLut<T>),
}

/// The cost of one look-up in a table, in the unit in which costs are
/// counted.
pub const COST_UNIT: u64 = 0x1_0000_0000;

/// The bit string of the `width` bits that the number `index` holds.
pub open spec fn index_bits(index: int, width: u8) -> Seq<bool> {
    (Bits { data: index as u16, len: width })@
}

/// The 16 bits of a window.
pub open spec fn window_bits(window: u16) -> Seq<bool> {
    (Bits { data: window, len: 16 })@
}

/// The index that a window gives for a table of `width` bits behind the
/// first `prefix` bits.
pub open spec fn index_at(window: u16, prefix: u8, width: u8) -> u16 {
    (((((window as u32) << (prefix as u32)) & 0xffff) as u32) >> ((16 - width) as u32)) as u16
}

/// The window without its first `prefix` bits, filled up with zeros.
pub open spec fn shifted(window: u16, prefix: u8) -> u16 {
    (((window as u32) << (prefix as u32)) & 0xffff) as u16
}

proof fn lemma_index_bit(w: u32, p: u32, n: u32, k: u32)
    by (bit_vector)
    requires
        w < 0x10000,
        1 <= n,
        p + n <= 16,
        k < n,
    ensures
        (((w << p) & 0xffff) >> ((16 - n) as u32)) < 0x10000,
        (((w << p) & 0xffff) >> ((16 - n) as u32)) >> n == 0,
        bit(((w << p) & 0xffff) >> ((16 - n) as u32), k) == bit(w, (16 - n - p + k) as u32),
{
}

proof fn lemma_shifted_bit_up(w: u32, p: u32, k: u32)
    by (bit_vector)
    requires
        w < 0x10000,
        p <= 16,
        k < 16,
    ensures
        ((w << p) & 0xffff) < 0x10000,
        bit((w << p) & 0xffff, k) == (if k >= p {
            bit(w, (k - p) as u32)
        } else {
            false
        }),
{
}

/// The index is the number that the `width` bits behind the first `prefix`
/// bits of the window hold.
pub proof fn lemma_index_at(window: u16, prefix: u8, width: u8)
    requires
        1 <= width,
        prefix + width <= 16,
    ensures
        (Bits { data: index_at(window, prefix, width), len: width }).canonical(),
        index_at(window, prefix, width) < pow2(width as nat),
        index_bits(index_at(window, prefix, width) as int, width) == window_bits(window).skip(
            prefix as int,
        ).take(width as int),
{
    let w = window as u32;
    let p = prefix as u32;
    let n = width as u32;
    lemma_index_bit(w, p, n, 0);
    let b = Bits { data: index_at(window, prefix, width), len: width };
    let want = window_bits(window).skip(prefix as int).take(width as int);
    assert(b@.len() == want.len());
    assert forall|i: int| 0 <= i < width implies b@[i] == want[i] by {
        lemma_index_bit(w, p, n, (n - 1 - i) as u32);
    }
    assert(b@ =~= want);
    lemma_canonical(b);
}

/// The shifted window holds the bits of the window behind the first
/// `prefix`, then zeros.
pub proof fn lemma_shifted(window: u16, prefix: u8)
    requires
        prefix <= 16,
    ensures
        window_bits(shifted(window, prefix)) == window_bits(window).skip(prefix as int) + zeros(
            prefix as nat,
        ),
{
    let w = window as u32;
    let p = prefix as u32;
    lemma_shifted_bit_up(w, p, 0);
    let l = window_bits(shifted(window, prefix));
    let r = window_bits(window).skip(prefix as int) + zeros(prefix as nat);
    assert(l.len() == r.len());
    assert forall|i: int| 0 <= i < 16 implies l[i] == r[i] by {
        lemma_shifted_bit_up(w, p, (15 - i) as u32);
    }
    assert(l =~= r);
}

/// The sum of the costs of the first `n` entries of a table of tables.
pub open spec fn cost_sum<T>(entries: Seq<Option<Node<T>>>, n: nat) -> nat
    decreases entries, n,
{
    if n == 0 || n > entries.len() {
        0
    } else {
        cost_sum(entries, (n - 1) as nat) + match entries[n - 1] {
            Some(node) => node.cost_spec(),
            None => 0,
        }
    }
}

/// The sum of the sizes of the first `n` entries of a table of tables.
pub open spec fn size_sum<T>(entries: Seq<Option<Node<T>>>, n: nat) -> nat
    decreases entries, n,
{
    if n == 0 || n > entries.len() {
        0
    } else {
        size_sum(entries, (n - 1) as nat) + match entries[n - 1] {
            Some(node) => node.size_spec(),
            None => 0,
        }
    }
}

impl<T> LeafLut<T> {
    /// The table has a slot for each number of `width` bits, and can be
    /// looked up behind `prefix` bits of a window of which `room` bits are
    /// left.
    pub open spec fn wf(&self, prefix: u8, room: u8) -> bool {
        &&& 1 <= self.width
        &&& prefix + self.width <= room <= 16
        &&& self.data@.len() == pow2(self.width as nat)
        &&& forall|i: int|
            0 <= i < self.data@.len() ==> (#[trigger] self.data@[i] matches Some(e) ==> e.1
                <= self.width)
    }

    /// What the table holds for a window: the value, and the number of bits
    /// of its code from the first bit of the window on.
    pub open spec fn find_spec(&self, window: u16, prefix: u8) -> Option<(T, u8)> {
        match self.data@[index_at(window, prefix, self.width) as int] {
            Some(e) => Some((e.0, (prefix + e.1) as u8)),
            None => None,
        }
    }
}

impl<T> PrefixLut<T> {
    /// The table has a slot for each number of `width` bits, can be looked
    /// up behind `prefix` bits of a window of which `room` bits are left,
    /// and so can the tables it holds.
    pub open spec fn wf(&self, prefix: u8, room: u8) -> bool
        decreases self,
    {
        &&& 1 <= self.width
        &&& prefix + self.width <= room <= 16
        &&& self.data@.len() == pow2(self.width as nat)
        &&& forall|i: int|
            0 <= i < self.data@.len() ==> (#[trigger] self.data@[i] matches Some(node)
                ==> node.wf(self.width, (room - prefix) as u8))
    }

    /// What the table holds for a window.
    pub open spec fn find_spec(&self, window: u16, prefix: u8) -> Option<(T, u8)>
        decreases self,
    {
        let i = index_at(window, prefix, self.width) as int;
        if i < self.data@.len() {
            match self.data@[i] {
                Some(node) => match node.find_spec(shifted(window, prefix), self.width) {
                    Some(e) => Some((e.0, (prefix + e.1) as u8)),
                    None => None,
                },
                None => None,
            }
        } else {
            None
        }
    }

    /// The expected cost of a look-up: the mean of the costs of the tables
    /// that the slots hold.
    pub open spec fn cost_spec(&self) -> nat
        decreases self,
    {
        cost_sum(self.data@, self.data@.len()) / pow2(self.width as nat)
    }

    /// The number of slots of the table and of all tables below it.
    pub open spec fn size_spec(&self) -> nat
        decreases self,
    {
        size_sum(self.data@, self.data@.len()) + self.data@.len()
    }
}

impl<T> Node<T> {
    /// The table can be looked up behind `prefix` bits of a window of which
    /// `room` bits are left: no code that it holds is longer.
    pub open spec fn wf(&self, prefix: u8, room: u8) -> bool
        decreases self,
    {
        match self {
            Node::Value(_, len) => *len <= room <= 16,
            Node::LeafLut(lut) => lut.wf(prefix, room),
            Node::PrefixLut(lut) => lut.wf(prefix, room),
        }
    }

    /// What the table holds for a window whose first `prefix` bits have
    /// led to it: the value of a code, and the number of bits of the code
    /// from the first bit of the window on.
    pub open spec fn find_spec(&self, window: u16, prefix: u8) -> Option<(T, u8)>
        decreases self,
    {
        match self {
            Node::Value(val, len) => Some((*val, *len)),
            Node::LeafLut(lut) => lut.find_spec(window, prefix),
            Node::PrefixLut(lut) => lut.find_spec(window, prefix),
        }
    }

    /// The expected cost of a look-up: nothing for a value, one unit for a
    /// table of values, and for a table of tables the mean of their costs.
    pub open spec fn cost_spec(&self) -> nat
        decreases self,
    {
        match self {
            Node::Value(_, _) => 0,
            Node::LeafLut(_) => COST_UNIT as nat,
            Node::PrefixLut(lut) => lut.cost_spec(),
        }
    }

    /// The number of slots of the table and of all tables below it; a
    /// value counts as one.
    pub open spec fn size_spec(&self) -> nat
        decreases self,
    {
        match self {
            Node::Value(_, _) => 1,
            Node::LeafLut(lut) => lut.data@.len(),
            Node::PrefixLut(lut) => lut.size_spec(),
        }
    }
}

/// The number of slots of a table of `width` bits.
fn slots(width: u8) -> (r: usize)
    requires
        width <= 16,
    ensures
        r == pow2(width as nat),
        1 <= r <= 0x10000,
{
    proof {
        lemma2_to64();
        if width < 16 {
            lemma_pow2_strictly_increases(width as nat, 16);
        }
        lemma_u32_shl_is_mul(1, width as u32);
    }
    (1u32 << (width as u32)) as usize
}

/// The index that a window gives for a table of `width` bits behind the
/// first `prefix` bits.
fn index_of(window: u16, prefix: u8, width: u8) -> (r: usize)
    requires
        1 <= width,
        prefix + width <= 16,
    ensures
        r == index_at(window, prefix, width),
        r < pow2(width as nat),
{
    proof {
        lemma_index_at(window, prefix, width);
        lemma_index_bit(window as u32, prefix as u32, width as u32, 0);
    }
    ((((window as u32) << (prefix as u32)) & 0xffff) >> ((16 - width) as u32)) as usize
}

fn shift_window(window: u16, prefix: u8) -> (r: u16)
    requires
        prefix <= 16,
    ensures
        r == shifted(window, prefix),
{
    proof {
        lemma_shifted_bit_up(window as u32, prefix as u32, 0);
    }
    (((window as u32) << (prefix as u32)) & 0xffff) as u16
}

impl<T: Copy> Node<T> {
    /// Looks a window up: the value of the code that the table holds for
    /// it, and the number of bits of that code from the first bit of the
    /// window on.
    fn find(&self, window: u16, prefix: u8, Ghost(room): Ghost<u8>) -> (r: Option<(T, u8)>)
        requires
            self.wf(prefix, room),
            prefix <= room,
        ensures
            r == self.find_spec(window, prefix),
            r matches Some(e) ==> e.1 <= room,
        decreases self,
    {
        match self {
            Node::Value(val, len) => Some((*val, *len)),
            Node::LeafLut(lut) => {
                let i = index_of(window, prefix, lut.width);
                match lut.data[i] {
                    Some(e) => Some((e.0, prefix + e.1)),
                    None => None,
                }
            },
            Node::PrefixLut(lut) => {
                let i = index_of(window, prefix, lut.width);
                match &lut.data[i] {
                    Some(node) => match node.find(
                        shift_window(window, prefix),
                        lut.width,
                        Ghost((room - prefix) as u8),
                    ) {
                        Some(e) => Some((e.0, prefix + e.1)),
                        None => None,
                    },
                    None => None,
                }
            },
        }
    }
}


/// The length of the longest pattern.
pub open spec fn max_len<T>(pats: Seq<(T, Bits)>) -> nat
    decreases pats.len(),
{
    if pats.len() == 0 {
        0
    } else {
        let rest = max_len(pats.drop_last());
        if pats.last().1.len > rest {
            pats.last().1.len as nat
        } else {
            rest
        }
    }
}

/// The number of bits by which the longest pattern goes beyond the first
/// `prefix` bits.
pub open spec fn spread<T>(pats: Seq<(T, Bits)>, prefix: u8) -> nat {
    if max_len(pats) > prefix {
        (max_len(pats) - prefix) as nat
    } else {
        0
    }
}

/// A pattern belongs to the slot `index` of a table of `width` bits if the
/// bits of the index start with it, or it with them.
pub open spec fn touches(pattern: Bits, index: int, width: u8) -> bool {
    pattern@.is_prefix_of(index_bits(index, width)) || index_bits(index, width).is_prefix_of(
        pattern@,
    )
}

/// The patterns that belong to the slot `index` of a table of `width`
/// bits behind the first `prefix` bits: in their order, each without its
/// first `prefix` bits.
pub open spec fn slot<T>(pats: Seq<(T, Bits)>, prefix: u8, width: u8, index: int) -> Seq<
    (T, Bits),
>
    decreases pats.len(),
{
    if pats.len() == 0 {
        Seq::empty()
    } else {
        let rest = slot(pats.drop_last(), prefix, width, index);
        let e = pats.last();
        if touches(e.1.stripped(prefix), index, width) {
            rest.push((e.0, e.1.stripped(prefix)))
        } else {
            rest
        }
    }
}

/// What a table of values holds in the slot `index`: the value of the
/// last pattern that belongs there, and the number of its bits in the
/// table.
pub open spec fn leaf_entry<T>(pats: Seq<(T, Bits)>, prefix: u8, width: u8, index: int) -> Option<
    (T, u8),
> {
    let s = slot(pats, prefix, width, index);
    if s.len() == 0 {
        None
    } else {
        Some((s.last().0, s.last().1.len))
    }
}

/// `lut` is the table of values of `width` bits for the patterns.
pub open spec fn leaf_built<T>(lut: LeafLut<T>, pats: Seq<(T, Bits)>, prefix: u8, width: u8)
    -> bool {
    &&& lut.width == width
    &&& lut.data@.len() == pow2(width as nat)
    &&& forall|i: int|
        0 <= i < lut.data@.len() ==> #[trigger] lut.data@[i] == leaf_entry(pats, prefix, width, i)
}

/// `lut` is a table of tables for the patterns: each slot holds the table
/// that is built for the patterns that belong to it.
pub open spec fn candidate<T>(lut: PrefixLut<T>, pats: Seq<(T, Bits)>, prefix: u8) -> bool
    decreases spread(pats, prefix), 0nat,
{
    &&& 1 <= lut.width < spread(pats, prefix)
    &&& lut.data@.len() == pow2(lut.width as nat)
    &&& forall|i: int|
        0 <= i < lut.data@.len() ==> spread(
            #[trigger] slot(pats, prefix, lut.width, i),
            lut.width,
        ) < spread(pats, prefix) && built(
            lut.data@[i],
            slot(pats, prefix, lut.width, i),
            lut.width,
        )
}

/// `lut` costs less than `other`, or as much with no more bits.
pub open spec fn preferred<T>(lut: PrefixLut<T>, other: PrefixLut<T>) -> bool {
    lut.cost_spec() < other.cost_spec() || (lut.cost_spec() == other.cost_spec() && lut.width
        <= other.width)
}

/// `node` is what is built for the patterns behind their first `prefix`
/// bits: nothing where there is no pattern; the value where there is one;
/// a table of values where the patterns go at most 8 bits further; else the
/// table of tables that is preferred among those of at least 4 bits.
pub open spec fn built<T>(node: Option<Node<T>>, pats: Seq<(T, Bits)>, prefix: u8) -> bool
    decreases spread(pats, prefix), 1nat,
{
    if pats.len() == 0 {
        node is None
    } else if pats.len() == 1 {
        node == Some(Node::Value(pats[0].0, pats[0].1.len))
    } else if spread(pats, prefix) <= 8 {
        node matches Some(Node::LeafLut(lut)) && leaf_built(
            lut,
            pats,
            prefix,
            spread(pats, prefix) as u8,
        )
    } else {
        &&& node matches Some(Node::PrefixLut(lut))
        &&& candidate(lut, pats, prefix)
        &&& 4 <= lut.width
        &&& forall|other: PrefixLut<T>|
            4 <= other.width && candidate(other, pats, prefix) ==> #[trigger] preferred(
                lut,
                other,
            )
    }
}

/// The patterns in `pats` are canonical.
pub open spec fn canonical_all<T>(pats: Seq<(T, Bits)>) -> bool {
    forall|i: int| 0 <= i < pats.len() ==> (#[trigger] pats[i]).1.canonical()
}

/// No pattern is the start of another.
pub open spec fn no_prefix<T>(pats: Seq<(T, Bits)>) -> bool {
    forall|i: int, j: int|
        0 <= i < pats.len() && 0 <= j < pats.len() && i != j ==> !(
        #[trigger] pats[i]).1@.is_prefix_of((#[trigger] pats[j]).1@)
}

/// The patterns can stand behind `prefix` bits: they are canonical, none
/// is the start of another, and where there are several, each has at least
/// `prefix` bits, and they agree in these.
pub open spec fn level_ok<T>(pats: Seq<(T, Bits)>, prefix: u8) -> bool {
    &&& canonical_all(pats)
    &&& no_prefix(pats)
    &&& pats.len() > 1 ==> forall|i: int|
        0 <= i < pats.len() ==> prefix <= (#[trigger] pats[i]).1.len
    &&& pats.len() > 1 ==> forall|i: int, j: int|
        0 <= i < pats.len() && 0 <= j < pats.len() ==> (#[trigger] pats[i]).1@.take(
            prefix as int,
        ) == (#[trigger] pats[j]).1@.take(prefix as int)
}

/// The longest pattern is at least as long as each.
pub proof fn lemma_max_len<T>(pats: Seq<(T, Bits)>, i: int)
    requires
        0 <= i < pats.len(),
    ensures
        pats[i].1.len <= max_len(pats),
    decreases pats.len(),
{
    if i < pats.len() - 1 {
        lemma_max_len(pats.drop_last(), i);
    }
}

/// The longest pattern is one of the patterns.
pub proof fn lemma_max_len_attained<T>(pats: Seq<(T, Bits)>) -> (i: int)
    requires
        pats.len() > 0,
    ensures
        0 <= i < pats.len(),
        pats[i].1.len == max_len(pats),
    decreases pats.len(),
{
    if pats.len() == 1 {
        assert(max_len(pats.drop_last()) == 0);
        0
    } else if pats.last().1.len > max_len(pats.drop_last()) {
        pats.len() - 1
    } else {
        lemma_max_len_attained(pats.drop_last())
    }
}

/// Every entry of a slot is one of the patterns, without its first
/// `prefix` bits, and touches the slot.
pub proof fn lemma_slot_entry<T>(
    pats: Seq<(T, Bits)>,
    prefix: u8,
    width: u8,
    index: int,
    k: int,
) -> (i: int)
    requires
        0 <= k < slot(pats, prefix, width, index).len(),
    ensures
        0 <= i < pats.len(),
        slot(pats, prefix, width, index)[k] == (pats[i].0, pats[i].1.stripped(prefix)),
        touches(pats[i].1.stripped(prefix), index, width),
        k + 1 < slot(pats, prefix, width, index).len() ==> i + 1 < pats.len(),
    decreases pats.len(),
{
    let rest = slot(pats.drop_last(), prefix, width, index);
    let e = pats.last();
    if touches(e.1.stripped(prefix), index, width) && k == rest.len() {
        pats.len() - 1
    } else {
        lemma_slot_entry(pats.drop_last(), prefix, width, index, k)
    }
}

/// The entries of a slot stand in the order of the patterns.
pub proof fn lemma_slot_order<T>(
    pats: Seq<(T, Bits)>,
    prefix: u8,
    width: u8,
    index: int,
    k: int,
    l: int,
) -> (r: (int, int))
    requires
        0 <= k < l < slot(pats, prefix, width, index).len(),
    ensures
        0 <= r.0 < r.1 < pats.len(),
        slot(pats, prefix, width, index)[k] == (pats[r.0].0, pats[r.0].1.stripped(prefix)),
        slot(pats, prefix, width, index)[l] == (pats[r.1].0, pats[r.1].1.stripped(prefix)),
        touches(pats[r.0].1.stripped(prefix), index, width),
        touches(pats[r.1].1.stripped(prefix), index, width),
    decreases pats.len(),
{
    let rest = slot(pats.drop_last(), prefix, width, index);
    let e = pats.last();
    if touches(e.1.stripped(prefix), index, width) && l == rest.len() {
        let i = lemma_slot_entry(pats.drop_last(), prefix, width, index, k);
        (i, pats.len() - 1)
    } else {
        lemma_slot_order(pats.drop_last(), prefix, width, index, k, l)
    }
}

/// A pattern that touches a slot is an entry of it.
pub proof fn lemma_slot_holds<T>(pats: Seq<(T, Bits)>, prefix: u8, width: u8, index: int, i: int)
    -> (k: int)
    requires
        0 <= i < pats.len(),
        touches(pats[i].1.stripped(prefix), index, width),
    ensures
        0 <= k < slot(pats, prefix, width, index).len(),
        slot(pats, prefix, width, index)[k] == (pats[i].0, pats[i].1.stripped(prefix)),
    decreases pats.len(),
{
    let rest = slot(pats.drop_last(), prefix, width, index);
    if i == pats.len() - 1 {
        rest.len() as int
    } else {
        lemma_slot_holds(pats.drop_last(), prefix, width, index, i)
    }
}

/// What comes of a longer list of patterns in a slot: the entry of the
/// last pattern is appended if it touches the slot.
pub proof fn lemma_slot_push<T>(pats: Seq<(T, Bits)>, n: int, prefix: u8, width: u8, index: int)
    requires
        0 <= n < pats.len(),
    ensures
        slot(pats.take(n + 1), prefix, width, index) == if touches(
            pats[n].1.stripped(prefix),
            index,
            width,
        ) {
            slot(pats.take(n), prefix, width, index).push((pats[n].0, pats[n].1.stripped(prefix)))
        } else {
            slot(pats.take(n), prefix, width, index)
        },
{
    assert(pats.take(n + 1).drop_last() =~= pats.take(n));
}


/// Without its first `prefix` bits, a pattern is the rest of its bits.
proof fn lemma_split(pattern: Bits, prefix: u8)
    requires
        prefix <= pattern.len <= 16,
    ensures
        pattern@ == pattern@.take(prefix as int) + pattern.stripped(prefix)@,
        pattern.stripped(prefix)@.len() == pattern.len - prefix,
{
    lemma_stripped(pattern, prefix);
    assert(pattern@ =~= pattern@.take(prefix as int) + pattern@.skip(prefix as int));
}

/// The patterns of a slot are shorter than the patterns they come from by
/// `prefix` bits.
proof fn lemma_slot_max_len<T>(pats: Seq<(T, Bits)>, prefix: u8, width: u8, index: int)
    requires
        forall|i: int| 0 <= i < pats.len() ==> prefix <= (#[trigger] pats[i]).1.len <= 16,
    ensures
        max_len(slot(pats, prefix, width, index)) + prefix <= max_len(pats) || slot(
            pats,
            prefix,
            width,
            index,
        ).len() == 0,
{
    let s = slot(pats, prefix, width, index);
    if s.len() > 0 {
        let k = lemma_max_len_attained(s);
        let i = lemma_slot_entry(pats, prefix, width, index, k);
        lemma_max_len(pats, i);
        lemma_stripped(pats[i].1, prefix);
    }
}

/// The patterns of a slot of a table behind `prefix` bits can stand behind
/// the `width` bits of the table, and go less far beyond them than the
/// patterns do beyond `prefix`.
pub proof fn lemma_slot_level<T>(pats: Seq<(T, Bits)>, prefix: u8, width: u8, index: int)
    requires
        level_ok(pats, prefix),
        pats.len() > 1,
        1 <= width,
    ensures
        level_ok(slot(pats, prefix, width, index), width),
        width < spread(pats, prefix) ==> spread(slot(pats, prefix, width, index), width) < spread(
            pats,
            prefix,
        ),
        forall|k: int|
            0 <= k < slot(pats, prefix, width, index).len() ==> (#[trigger] slot(
                pats,
                prefix,
                width,
                index,
            )[k]).1.len + prefix <= max_len(pats),
{
    let s = slot(pats, prefix, width, index);
    let kb = Bits { data: index as u16, len: width };
    let k = index_bits(index, width);
    assert(k.len() == width);
    assert forall|a: int| 0 <= a < pats.len() implies prefix <= (#[trigger] pats[a]).1.len
        <= 16 by {}
    lemma_slot_max_len(pats, prefix, width, index);
    assert forall|a: int| 0 <= a < s.len() implies (#[trigger] s[a]).1.canonical() && s[a].1.len
        + prefix <= max_len(pats) by {
        let i = lemma_slot_entry(pats, prefix, width, index, a);
        lemma_stripped(pats[i].1, prefix);
        lemma_max_len(pats, i);
    }
    assert forall|a: int, b: int| 0 <= a < s.len() && 0 <= b < s.len() && a != b implies !(
    #[trigger] s[a]).1@.is_prefix_of((#[trigger] s[b]).1@) by {
        let (i, j) = if a < b {
            lemma_slot_order(pats, prefix, width, index, a, b)
        } else {
            let r = lemma_slot_order(pats, prefix, width, index, b, a);
            (r.1, r.0)
        };
        lemma_split(pats[i].1, prefix);
        lemma_split(pats[j].1, prefix);
        if s[a].1@.is_prefix_of(s[b].1@) {
            let common = pats[i].1@.take(prefix as int);
            assert(pats[j].1@.take(prefix as int) == common);
            assert(pats[i].1@ =~= pats[j].1@.take(pats[i].1@.len() as int));
            assert(pats[i].1@.is_prefix_of(pats[j].1@));
        }
    }
    if s.len() > 1 {
        assert forall|a: int| 0 <= a < s.len() implies width <= (#[trigger] s[a]).1.len by {
            if s[a].1.len < width {
                let b = if a == 0 {
                    1int
                } else {
                    0int
                };
                let i = lemma_slot_entry(pats, prefix, width, index, a);
                let j = lemma_slot_entry(pats, prefix, width, index, b);
                let x = s[a].1@;
                let y = s[b].1@;
                assert(x.len() == s[a].1.len);
                assert(x.is_prefix_of(k));
                if y.is_prefix_of(k) {
                    if x.len() <= y.len() {
                        assert(x =~= y.take(x.len() as int));
                    } else {
                        assert(y =~= x.take(y.len() as int));
                    }
                } else {
                    assert(k.is_prefix_of(y));
                    assert(x =~= y.take(x.len() as int));
                }
                assert(x.is_prefix_of(y) || y.is_prefix_of(x));
            }
        }
        assert forall|a: int, b: int| 0 <= a < s.len() && 0 <= b < s.len() implies (
        #[trigger] s[a]).1@.take(width as int) == (#[trigger] s[b]).1@.take(width as int) by {
            let i = lemma_slot_entry(pats, prefix, width, index, a);
            let j = lemma_slot_entry(pats, prefix, width, index, b);
            assert(s[a].1@.len() == s[a].1.len);
            assert(s[b].1@.len() == s[b].1.len);
            assert(s[a].1@.take(width as int) =~= k);
            assert(s[b].1@.take(width as int) =~= k);
        }
    }
}

/// The length of the longest pattern.
fn longest<T: Copy>(patterns: &[(T, Bits)]) -> (r: u8)
    ensures
        r == max_len(patterns@),
{
    let mut best: u8 = 0;
    let mut i: usize = 0;
    while i < patterns.len()
        invariant
            i <= patterns@.len(),
            best == max_len(patterns@.take(i as int)),
        decreases patterns@.len() - i,
    {
        proof {
            assert(patterns@.take(i + 1).drop_last() =~= patterns@.take(i as int));
        }
        let e = patterns[i];
        if e.1.len > best {
            best = e.1.len;
        }
        i = i + 1;
    }
    proof {
        assert(patterns@.take(i as int) =~= patterns@);
    }
    best
}

impl<T: Copy> LeafLut<T> {
    /// Builds the table of values of `width` bits for patterns of which
    /// each goes at most `width` bits beyond its first `prefix` bits: the
    /// slots whose index starts with a pattern, taken without its first
    /// `prefix` bits, hold its value and the number of bits that are left
    /// of it.
    pub fn build(patterns: &[(T, Bits)], prefix: u8, width: u8) -> (r: Self)
        requires
            patterns@.len() > 1,
            1 <= width,
            prefix + width <= 16,
            forall|i: int|
                0 <= i < patterns@.len() ==> prefix <= (#[trigger] patterns@[i]).1.len <= prefix
                    + width,
        ensures
            leaf_built(r, patterns@, prefix, width),
    {
        let size = slots(width);
        let mut data: Vec<Option<(T, u8)>> = Vec::new();
        let mut n: usize = 0;
        while n < size
            invariant
                n <= size,
                data@.len() == n,
                forall|i: int| 0 <= i < n ==> #[trigger] data@[i] == leaf_entry(
                    patterns@.take(0),
                    prefix,
                    width,
                    i,
                ),
            decreases size - n,
        {
            data.push(None);
            n = n + 1;
        }
        let mut k: usize = 0;
        while k < patterns.len()
            invariant
                k <= patterns@.len(),
                1 <= width,
                prefix + width <= 16,
                size == pow2(width as nat),
                size <= 0x10000,
                data@.len() == size,
                forall|i: int|
                    0 <= i < patterns@.len() ==> prefix <= (#[trigger] patterns@[i]).1.len
                        <= prefix + width,
                forall|i: int| 0 <= i < size ==> #[trigger] data@[i] == leaf_entry(
                    patterns@.take(k as int),
                    prefix,
                    width,
                    i,
                ),
            decreases patterns@.len() - k,
        {
            let e = patterns[k];
            let pat = e.1.strip_prefix(prefix);
            let (start, end) = pat.prefix_range(width);
            let ghost before = data@;
            proof {
                assert forall|i: int| 0 <= i < size implies (touches(pat, i, width) <==> start
                    <= i < end) by {
                    let c = Bits { data: i as u16, len: width };
                    lemma_canonical(c);
                    assert(c@.len() == width && pat@.len() == pat.len);
                    if c@.is_prefix_of(pat@) {
                        assert(pat@ =~= c@);
                    }
                }
                assert forall|i: int| 0 <= i < size implies #[trigger] leaf_entry(
                    patterns@.take(k + 1),
                    prefix,
                    width,
                    i,
                ) == if start <= i < end {
                    Some((e.0, pat.len))
                } else {
                    before[i]
                } by {
                    lemma_slot_push(patterns@, k as int, prefix, width, i);
                }
                assert forall|c: Bits| c.len == width && c.canonical() && pat@.is_prefix_of(
                    #[trigger] c@,
                ) implies c.data < size by {
                    lemma_canonical(c);
                }
            }
            let mut idx = start;
            while idx < end
                invariant
                    start <= idx <= end,
                    end <= size,
                    data@.len() == size,
                    forall|i: int|
                        0 <= i < size ==> #[trigger] data@[i] == if start <= i < idx {
                            Some((e.0, pat.len))
                        } else {
                            before[i]
                        },
                decreases end - idx,
            {
                data[idx as usize] = Some((e.0, pat.len));
                idx = idx + 1;
            }
            k = k + 1;
        }
        proof {
            assert(patterns@.take(k as int) =~= patterns@);
        }
        LeafLut { width, data }
    }
}


impl<T> PrefixLut<T> {
    /// The table and the tables below it have a slot for each index.
    pub open spec fn sized(&self) -> bool
        decreases self,
    {
        &&& self.width <= 16
        &&& self.data@.len() == pow2(self.width as nat)
        &&& forall|i: int|
            0 <= i < self.data@.len() ==> (#[trigger] self.data@[i] matches Some(node)
                ==> node.sized())
    }
}

impl<T> Node<T> {
    /// The table and the tables below it have a slot for each index.
    pub open spec fn sized(&self) -> bool
        decreases self,
    {
        match self {
            Node::Value(_, _) => true,
            Node::LeafLut(lut) => lut.width <= 16 && lut.data@.len() == pow2(lut.width as nat),
            Node::PrefixLut(lut) => lut.sized(),
        }
    }
}

/// The cost of what a slot holds: nothing for an empty slot.
pub open spec fn slot_cost<T>(entry: Option<Node<T>>) -> nat {
    match entry {
        Some(node) => node.cost_spec(),
        None => 0,
    }
}

/// No look-up costs more than one unit.
pub proof fn lemma_cost_bound<T>(node: Node<T>)
    requires
        node.sized(),
    ensures
        node.cost_spec() <= COST_UNIT,
    decreases node,
{
    match node {
        Node::PrefixLut(lut) => {
            lemma_cost_sum_bound(lut.data@, lut.data@.len());
            vstd::arithmetic::power2::lemma_pow2_pos(lut.width as nat);
            let n = lut.data@.len() as int;
            let sum = cost_sum(lut.data@, lut.data@.len()) as int;
            let unit = COST_UNIT as int;
            assert(sum / n <= unit) by (nonlinear_arith)
                requires
                    0 <= sum <= n * unit,
                    n > 0,
            ;
        },
        _ => {},
    }
}

proof fn lemma_cost_sum_bound<T>(entries: Seq<Option<Node<T>>>, n: nat)
    requires
        n <= entries.len(),
        forall|i: int|
            0 <= i < entries.len() ==> (#[trigger] entries[i] matches Some(node) ==> node.sized()),
    ensures
        cost_sum(entries, n) <= n * COST_UNIT,
    decreases entries, n,
{
    if n > 0 {
        lemma_cost_sum_bound(entries, (n - 1) as nat);
        match entries[n - 1] {
            Some(node) => {
                lemma_cost_bound(node);
            },
            None => {},
        }
        assert(n * COST_UNIT == (n - 1) * COST_UNIT + COST_UNIT) by (nonlinear_arith);
    }
}

/// Tables whose slots cost the same cost the same in sum.
proof fn lemma_cost_sum_same<T>(a: Seq<Option<Node<T>>>, b: Seq<Option<Node<T>>>, n: nat)
    requires
        n <= a.len(),
        n <= b.len(),
        forall|i: int| 0 <= i < n ==> slot_cost(a[i]) == slot_cost(b[i]),
    ensures
        cost_sum(a, n) == cost_sum(b, n),
    decreases n,
{
    if n > 0 {
        lemma_cost_sum_same(a, b, (n - 1) as nat);
    }
}

/// What is built for the same patterns costs the same.
pub proof fn lemma_built_cost<T>(
    a: Option<Node<T>>,
    b: Option<Node<T>>,
    pats: Seq<(T, Bits)>,
    prefix: u8,
)
    requires
        built(a, pats, prefix),
        built(b, pats, prefix),
    ensures
        slot_cost(a) == slot_cost(b),
{
    if pats.len() > 1 && spread(pats, prefix) > 8 {
        let p = a->Some_0->PrefixLut_0;
        let q = b->Some_0->PrefixLut_0;
        assert(preferred(p, q));
        assert(preferred(q, p));
    }
}

/// Two tables of tables of the same width for the same patterns cost the
/// same.
pub proof fn lemma_candidate_cost<T>(
    p: PrefixLut<T>,
    q: PrefixLut<T>,
    pats: Seq<(T, Bits)>,
    prefix: u8,
)
    requires
        candidate(p, pats, prefix),
        candidate(q, pats, prefix),
        p.width == q.width,
    ensures
        p.cost_spec() == q.cost_spec(),
{
    assert forall|i: int| 0 <= i < p.data@.len() implies slot_cost(p.data@[i]) == slot_cost(
        q.data@[i],
    ) by {
        lemma_built_cost(p.data@[i], q.data@[i], slot(pats, prefix, p.width, i), p.width);
    }
    lemma_cost_sum_same(p.data@, q.data@, p.data@.len());
}

impl<T: Copy> PrefixLut<T> {
    /// The number of slots of the table and of all tables below it, or
    /// the greatest number there is if it is greater.
    pub fn size(&self) -> (r: usize)
        ensures
            r == if self.size_spec() <= usize::MAX {
                self.size_spec()
            } else {
                usize::MAX as nat
            },
        decreases self,
    {
        let mut sum: usize = 0;
        let mut i: usize = 0;
        while i < self.data.len()
            invariant
                i <= self.data@.len(),
                sum == if size_sum(self.data@, i as nat) <= usize::MAX {
                    size_sum(self.data@, i as nat)
                } else {
                    usize::MAX as nat
                },
            decreases self.data@.len() - i,
        {
            let n = match &self.data[i] {
                Some(node) => node.size(),
                None => 0,
            };
            sum = if sum > usize::MAX - n {
                usize::MAX
            } else {
                sum + n
            };
            i = i + 1;
        }
        if sum > usize::MAX - self.data.len() {
            usize::MAX
        } else {
            sum + self.data.len()
        }
    }

    /// The expected cost of a look-up in the table.
    pub fn cost(&self) -> (r: u64)
        requires
            self.sized(),
        ensures
            r == self.cost_spec(),
            r <= COST_UNIT,
        decreases self,
    {
        let mut sum: u64 = 0;
        let mut i: usize = 0;
        proof {
            lemma2_to64();
            if self.width < 16 {
                lemma_pow2_strictly_increases(self.width as nat, 16);
            }
        }
        while i < self.data.len()
            invariant
                i <= self.data@.len(),
                self.data@.len() <= 0x10000,
                self.sized(),
                sum == cost_sum(self.data@, i as nat),
                sum <= i * COST_UNIT,
            decreases self.data@.len() - i,
        {
            let c = match &self.data[i] {
                Some(node) => node.cost(),
                None => 0,
            };
            proof {
                assert((i + 1) * COST_UNIT == i * COST_UNIT + COST_UNIT) by (nonlinear_arith);
                assert(i * COST_UNIT <= 0x10000 * COST_UNIT) by (nonlinear_arith)
                    requires
                        i <= 0x10000,
                ;
            }
            sum = sum + c;
            i = i + 1;
        }
        proof {
            lemma_cost_bound(Node::PrefixLut(*self));
        }
        sum / (self.data.len() as u64)
    }
}

impl<T: Copy> Node<T> {
    /// The number of slots of the table and of all tables below it, or
    /// the greatest number there is if it is greater. A value counts as one.
    pub fn size(&self) -> (r: usize)
        ensures
            r == if self.size_spec() <= usize::MAX {
                self.size_spec()
            } else {
                usize::MAX as nat
            },
        decreases self,
    {
        match self {
            Node::Value(_, _) => 1,
            Node::LeafLut(lut) => lut.data.len(),
            Node::PrefixLut(lut) => lut.size(),
        }
    }

    /// The expected cost of a look-up in the table: nothing for a value,
    /// one unit for a table of values, and for a table of tables the mean
    /// of the costs of what its slots hold.
    pub fn cost(&self) -> (r: u64)
        requires
            self.sized(),
        ensures
            r == self.cost_spec(),
            r <= COST_UNIT,
        decreases self,
    {
        match self {
            Node::Value(_, _) => 0,
            Node::LeafLut(_) => COST_UNIT,
            Node::PrefixLut(lut) => lut.cost(),
        }
    }
}


/// What is in a slot, as a sequence.
pub open spec fn slot_views<T>(slots: Seq<Vec<(T, Bits)>>, index: int) -> Seq<(T, Bits)> {
    slots[index]@
}

/// Several patterns that can stand behind `prefix` bits go beyond them.
proof fn lemma_spread_positive<T>(pats: Seq<(T, Bits)>, prefix: u8)
    requires
        level_ok(pats, prefix),
        pats.len() > 1,
    ensures
        spread(pats, prefix) >= 1,
        max_len(pats) <= 16,
{
    let m = lemma_max_len_attained(pats);
    if max_len(pats) <= prefix {
        lemma_max_len(pats, 0);
        lemma_max_len(pats, 1);
        let a = pats[0].1@;
        let b = pats[1].1@;
        assert(a.len() == pats[0].1.len && b.len() == pats[1].1.len);
        assert(a =~= a.take(prefix as int));
        assert(b =~= b.take(prefix as int));
        assert(a.is_prefix_of(b));
    }
}

impl<T: Copy> PrefixLut<T> {
    /// Builds the table of tables of `width` bits for the patterns: each
    /// pattern, taken without its first `prefix` bits, goes to the slots
    /// that it belongs to, and each slot then holds what is built for its
    /// patterns.
    pub fn build_width(patterns: &[(T, Bits)], width: u8, prefix: u8) -> (r: Self)
        requires
            level_ok(patterns@, prefix),
            patterns@.len() > 1,
            1 <= width < spread(patterns@, prefix),
        ensures
            r.width == width,
            candidate(r, patterns@, prefix),
            r.sized(),
        decreases spread(patterns@, prefix), 0nat,
    {
        proof {
            lemma_spread_positive(patterns@, prefix);
        }
        let size = slots(width);
        let mut slots: Vec<Vec<(T, Bits)>> = Vec::new();
        let mut n: usize = 0;
        while n < size
            invariant
                n <= size,
                slots@.len() == n,
                forall|i: int| 0 <= i < n ==> #[trigger] slot_views(slots@, i) == slot(
                    patterns@.take(0),
                    prefix,
                    width,
                    i,
                ),
            decreases size - n,
        {
            let ghost prior = slots@;
            slots.push(Vec::new());
            proof {
                assert forall|i: int| 0 <= i < n + 1 implies #[trigger] slot_views(slots@, i)
                    == slot(patterns@.take(0), prefix, width, i) by {
                    if i < n {
                        assert(slot_views(prior, i) == slot(patterns@.take(0), prefix, width, i));
                    } else {
                        assert(slot_views(slots@, i) =~= Seq::<(T, Bits)>::empty());
                        assert(patterns@.take(0).len() == 0);
                    }
                }
            }
            n = n + 1;
        }
        let mut k: usize = 0;
        while k < patterns.len()
            invariant
                k <= patterns@.len(),
                level_ok(patterns@, prefix),
                patterns@.len() > 1,
                1 <= width < spread(patterns@, prefix),
                max_len(patterns@) <= 16,
                size == pow2(width as nat),
                size <= 0x10000,
                slots@.len() == size,
                forall|i: int| 0 <= i < size ==> #[trigger] slot_views(slots@, i) == slot(
                    patterns@.take(k as int),
                    prefix,
                    width,
                    i,
                ),
            decreases patterns@.len() - k,
        {
            let e = patterns[k];
            proof {
                lemma_max_len(patterns@, k as int);
                assert(patterns@[k as int].1.canonical());
            }
            let bits = e.1.strip_prefix(prefix);
            let ghost before = slots@;
            proof {
                assert forall|i: int| 0 <= i < size implies #[trigger] slot(
                    patterns@.take(k + 1),
                    prefix,
                    width,
                    i,
                ) == if touches(bits, i, width) {
                    slot_views(before, i).push((e.0, bits))
                } else {
                    slot_views(before, i)
                } by {
                    lemma_slot_push(patterns@, k as int, prefix, width, i);
                }
            }
            if bits.len >= width {
                let at = bits.prefix(width) as usize;
                proof {
                    let a = Bits { data: at as u16, len: width };
                    lemma_canonical(a);
                    assert(a@.len() == width && bits@.len() == bits.len);
                    assert forall|i: int| 0 <= i < size implies (touches(bits, i, width) <==> i
                        == at) by {
                        let c = Bits { data: i as u16, len: width };
                        lemma_canonical(c);
                        assert(c@.len() == width);
                        if touches(bits, i, width) {
                            assert(c@ =~= bits@.take(width as int));
                            lemma_bits_determined(c, a);
                        }
                    }
                }
                slots[at].push((e.0, bits));
                proof {
                    assert forall|i: int| 0 <= i < size implies #[trigger] slot_views(slots@, i)
                        == slot(patterns@.take(k + 1), prefix, width, i) by {
                        assert(slot_views(before, i) == slot(
                            patterns@.take(k as int),
                            prefix,
                            width,
                            i,
                        ));
                    }
                }
            } else {
                let (start, end) = bits.prefix_range(width);
                proof {
                    assert forall|i: int| 0 <= i < size implies (touches(bits, i, width)
                        <==> start <= i < end) by {
                        let c = Bits { data: i as u16, len: width };
                        lemma_canonical(c);
                        assert(c@.len() == width && bits@.len() == bits.len);
                    }
                }
                let mut idx = start;
                while idx < end
                    invariant
                        start <= idx <= end,
                        end <= size,
                        slots@.len() == size,
                        forall|i: int|
                            0 <= i < size ==> #[trigger] slot_views(slots@, i) == if start <= i
                                < idx {
                                slot_views(before, i).push((e.0, bits))
                            } else {
                                slot_views(before, i)
                            },
                    decreases end - idx,
                {
                    let ghost prior = slots@;
                    slots[idx as usize].push((e.0, bits));
                    proof {
                        assert forall|i: int| 0 <= i < size implies #[trigger] slot_views(
                            slots@,
                            i,
                        ) == if start <= i < idx + 1 {
                            slot_views(before, i).push((e.0, bits))
                        } else {
                            slot_views(before, i)
                        } by {
                            assert(slot_views(prior, i) == if start <= i < idx {
                                slot_views(before, i).push((e.0, bits))
                            } else {
                                slot_views(before, i)
                            });
                        }
                    }
                    idx = idx + 1;
                }
                proof {
                    assert forall|i: int| 0 <= i < size implies #[trigger] slot_views(slots@, i)
                        == slot(patterns@.take(k + 1), prefix, width, i) by {
                        assert(slot_views(before, i) == slot(
                            patterns@.take(k as int),
                            prefix,
                            width,
                            i,
                        ));
                    }
                }
            }
            k = k + 1;
        }
        proof {
            assert(patterns@.take(k as int) =~= patterns@);
        }
        let mut data: Vec<Option<Node<T>>> = Vec::new();
        let mut j: usize = 0;
        while j < size
            invariant
                j <= size,
                level_ok(patterns@, prefix),
                patterns@.len() > 1,
                1 <= width < spread(patterns@, prefix),
                size == pow2(width as nat),
                slots@.len() == size,
                data@.len() == j,
                forall|i: int| 0 <= i < size ==> #[trigger] slot_views(slots@, i) == slot(
                    patterns@,
                    prefix,
                    width,
                    i,
                ),
                forall|i: int|
                    0 <= i < j ==> built(
                        #[trigger] data@[i],
                        slot(patterns@, prefix, width, i),
                        width,
                    ),
                forall|i: int|
                    0 <= i < j ==> (#[trigger] data@[i] matches Some(node) ==> node.sized()),
            decreases size - j,
        {
            proof {
                lemma_slot_level(patterns@, prefix, width, j as int);
                assert(slot_views(slots@, j as int) == slot(patterns@, prefix, width, j as int));
                assert(spread(slot(patterns@, prefix, width, j as int), width) < spread(
                    patterns@,
                    prefix,
                ));
            }
            let node = Node::build_prefix(slots[j].as_slice(), width);
            let ghost prior = data@;
            data.push(node);
            proof {
                assert forall|i: int| 0 <= i < j + 1 implies built(
                    #[trigger] data@[i],
                    slot(patterns@, prefix, width, i),
                    width,
                ) by {
                    if i < j {
                        assert(data@[i] == prior[i]);
                    }
                }
                assert forall|i: int| 0 <= i < j + 1 implies (#[trigger] data@[i] matches Some(
                    node,
                ) ==> node.sized()) by {
                    if i < j {
                        assert(data@[i] == prior[i]);
                    }
                }
            }
            j = j + 1;
        }
        let r = PrefixLut { width, data };
        proof {
            assert forall|i: int| 0 <= i < r.data@.len() implies spread(
                #[trigger] slot(patterns@, prefix, r.width, i),
                r.width,
            ) < spread(patterns@, prefix) && built(
                r.data@[i],
                slot(patterns@, prefix, r.width, i),
                r.width,
            ) by {
                lemma_slot_level(patterns@, prefix, width, i);
            }
        }
        r
    }

    /// Builds the table of tables for the patterns: of the widths from 4
    /// bits on that leave something to the tables below, the one whose
    /// table costs least, and of several such the least.
    pub fn build(patterns: &[(T, Bits)], prefix: u8) -> (r: Self)
        requires
            level_ok(patterns@, prefix),
            patterns@.len() > 1,
            spread(patterns@, prefix) > 4,
        ensures
            candidate(r, patterns@, prefix),
            4 <= r.width,
            forall|other: PrefixLut<T>|
                4 <= other.width && candidate(other, patterns@, prefix) ==> #[trigger] preferred(
                    r,
                    other,
                ),
            r.sized(),
        decreases spread(patterns@, prefix), 1nat,
    {
        proof {
            lemma_spread_positive(patterns@, prefix);
        }
        let max_width = longest(patterns) - prefix;
        let mut best = PrefixLut::build_width(patterns, 4, prefix);
        let mut best_cost = best.cost();
        let mut w: u8 = 5;
        proof {
            assert forall|other: PrefixLut<T>|
                4 <= other.width < 5 && candidate(
                    other,
                    patterns@,
                    prefix,
                ) implies #[trigger] preferred(best, other) by {
                lemma_candidate_cost(other, best, patterns@, prefix);
            }
        }
        while w < max_width
            invariant
                5 <= w <= max_width,
                max_width == spread(patterns@, prefix),
                level_ok(patterns@, prefix),
                patterns@.len() > 1,
                candidate(best, patterns@, prefix),
                4 <= best.width < w,
                best.sized(),
                best_cost == best.cost_spec(),
                forall|other: PrefixLut<T>|
                    4 <= other.width < w && candidate(other, patterns@, prefix)
                        ==> #[trigger] preferred(best, other),
            decreases max_width - w,
        {
            let lut = PrefixLut::build_width(patterns, w, prefix);
            let cost = lut.cost();
            let ghost old_best = best;
            let ghost latest = lut;
            if cost < best_cost {
                best_cost = cost;
                best = lut;
            }
            proof {
                assert forall|other: PrefixLut<T>|
                    4 <= other.width < w + 1 && candidate(
                        other,
                        patterns@,
                        prefix,
                    ) implies #[trigger] preferred(best, other) by {
                    if other.width == w {
                        lemma_candidate_cost(other, latest, patterns@, prefix);
                    } else {
                        assert(preferred(old_best, other));
                    }
                }
            }
            w = w + 1;
        }
        proof {
            assert forall|other: PrefixLut<T>|
                4 <= other.width && candidate(
                    other,
                    patterns@,
                    prefix,
                ) implies #[trigger] preferred(best, other) by {
                assert(other.width < max_width);
                assert(4 <= other.width < w);
            }
        }
        best
    }
}

impl<T: Copy> Node<T> {
    /// Builds the table for patterns that agree in their first `prefix`
    /// bits: nothing where there is no pattern; the value where there is
    /// one; a table of values where the patterns go at most 8 bits beyond
    /// `prefix`; else a table of tables.
    pub fn build_prefix(patterns: &[(T, Bits)], prefix: u8) -> (r: Option<Node<T>>)
        requires
            level_ok(patterns@, prefix),
        ensures
            built(r, patterns@, prefix),
            r matches Some(node) ==> node.sized(),
        decreases spread(patterns@, prefix), 2nat,
    {
        if patterns.len() == 0 {
            None
        } else if patterns.len() == 1 {
            let e = patterns[0];
            let r = Some(Node::Value(e.0, e.1.len));
            proof {
                assert(e == patterns@[0]);
                assert(built(r, patterns@, prefix));
            }
            r
        } else {
            proof {
                lemma_spread_positive(patterns@, prefix);
            }
            let width = longest(patterns) - prefix;
            if width > 8 {
                let lut = PrefixLut::build(patterns, prefix);
                let r = Some(Node::PrefixLut(lut));
                proof {
                    assert(built(r, patterns@, prefix));
                }
                r
            } else {
                proof {
                    assert forall|i: int| 0 <= i < patterns@.len() implies prefix <= (
                    #[trigger] patterns@[i]).1.len <= prefix + width by {
                        lemma_max_len(patterns@, i);
                    }
                    lemma2_to64();
                }
                let lut = LeafLut::build(patterns, prefix, width);
                let r = Some(Node::LeafLut(lut));
                proof {
                    assert(built(r, patterns@, prefix));
                }
                r
            }
        }
    }

    /// Builds the decoding table of a code book: of patterns that are
    /// canonical and of which none is the start of another.
    pub fn build(patterns: &[(T, Bits)]) -> (r: Option<Node<T>>)
        requires
            canonical_all(patterns@),
            no_prefix(patterns@),
        ensures
            built(r, patterns@, 0),
            r matches Some(node) ==> node.sized(),
    {
        proof {
            lemma_root_level(patterns@);
        }
        Node::build_prefix(patterns, 0)
    }
}


/// A pattern that a window starts with belongs to the slot that the window
/// gives.
proof fn lemma_touches_index(pattern: Bits, prefix: u8, width: u8, window: u16)
    requires
        pattern.canonical(),
        prefix <= pattern.len,
        1 <= width,
        prefix + width <= 16,
        pattern@.is_prefix_of(window_bits(window)),
    ensures
        touches(pattern.stripped(prefix), index_at(window, prefix, width) as int, width),
        pattern.stripped(prefix)@.is_prefix_of(window_bits(shifted(window, prefix))),
{
    lemma_stripped(pattern, prefix);
    lemma_index_at(window, prefix, width);
    lemma_shifted(window, prefix);
    let s = pattern.stripped(prefix)@;
    let w = window_bits(window);
    let k = index_bits(index_at(window, prefix, width) as int, width);
    assert(pattern@.len() == pattern.len);
    assert(w.len() == 16);
    assert(s =~= w.skip(prefix as int).take(s.len() as int));
    if s.len() <= width {
        assert(s =~= k.take(s.len() as int));
    } else {
        assert(k =~= s.take(width as int));
    }
    assert(s =~= window_bits(shifted(window, prefix)).take(s.len() as int));
}

/// What is built for patterns of at most `room` bits can be looked up in
/// windows of which `room` bits are left.
pub proof fn lemma_built_wf<T>(node: Node<T>, pats: Seq<(T, Bits)>, prefix: u8, room: u8)
    requires
        built(Some(node), pats, prefix),
        level_ok(pats, prefix),
        room <= 16,
        forall|i: int| 0 <= i < pats.len() ==> (#[trigger] pats[i]).1.len <= room,
    ensures
        node.wf(prefix, room),
    decreases spread(pats, prefix),
{
    if pats.len() > 1 {
        lemma_spread_positive(pats, prefix);
        let m = lemma_max_len_attained(pats);
        match node {
            Node::LeafLut(lut) => {
                let width = lut.width;
                assert forall|i: int| 0 <= i < lut.data@.len() implies (
                #[trigger] lut.data@[i] matches Some(e) ==> e.1 <= lut.width) by {
                    let s = slot(pats, prefix, width, i);
                    if s.len() > 0 {
                        lemma_slot_level(pats, prefix, width, i);
                        assert(s[s.len() - 1].1.len + prefix <= max_len(pats));
                    }
                }
            },
            Node::PrefixLut(lut) => {
                let width = lut.width;
                assert forall|i: int| 0 <= i < lut.data@.len() implies (
                #[trigger] lut.data@[i] matches Some(child) ==> child.wf(
                    width,
                    (room - prefix) as u8,
                )) by {
                    let s = slot(pats, prefix, width, i);
                    lemma_slot_level(pats, prefix, width, i);
                    if lut.data@[i] is Some {
                        assert forall|k: int| 0 <= k < s.len() implies (#[trigger] s[k]).1.len
                            <= room - prefix by {}
                        lemma_built_wf(
                            lut.data@[i]->Some_0,
                            s,
                            width,
                            (room - prefix) as u8,
                        );
                    }
                }
            },
            _ => {},
        }
    }
}

/// What is built for a prefix-free set of patterns finds, for a window that
/// starts with one of the patterns, the value and the length of that
/// pattern.
pub proof fn lemma_built_finds<T>(
    node: Node<T>,
    pats: Seq<(T, Bits)>,
    prefix: u8,
    window: u16,
    i: int,
)
    requires
        built(Some(node), pats, prefix),
        level_ok(pats, prefix),
        0 <= i < pats.len(),
        pats[i].1@.is_prefix_of(window_bits(window)),
    ensures
        node.find_spec(window, prefix) == Some((pats[i].0, pats[i].1.len)),
    decreases spread(pats, prefix),
{
    if pats.len() > 1 {
        lemma_spread_positive(pats, prefix);
        lemma_max_len(pats, i);
        let m = lemma_max_len_attained(pats);
        let width = match node {
            Node::LeafLut(lut) => lut.width,
            Node::PrefixLut(lut) => lut.width,
            _ => 0u8,
        };
        let at = index_at(window, prefix, width) as int;
        let s = slot(pats, prefix, width, at);
        lemma_index_at(window, prefix, width);
        lemma_touches_index(pats[i].1, prefix, width, window);
        lemma_stripped(pats[i].1, prefix);
        let k = lemma_slot_holds(pats, prefix, width, at, i);
        lemma_slot_level(pats, prefix, width, at);
        match node {
            Node::LeafLut(lut) => {
                // Every entry of the slot is the start of the bits of the
                // index, so there is one entry only.
                if s.len() > 1 {
                    let a = s[0].1@;
                    let b = s[1].1@;
                    let bits = index_bits(at, width);
                    let ia = lemma_slot_entry(pats, prefix, width, at, 0);
                    let ib = lemma_slot_entry(pats, prefix, width, at, 1);
                    assert(s[0].1.len + prefix <= max_len(pats));
                    assert(s[1].1.len + prefix <= max_len(pats));
                    assert(a.len() == s[0].1.len && b.len() == s[1].1.len);
                    assert(bits.len() == width);
                    assert(a.is_prefix_of(bits)) by {
                        if bits.is_prefix_of(a) {
                            assert(a =~= bits);
                        }
                    }
                    assert(b.is_prefix_of(bits)) by {
                        if bits.is_prefix_of(b) {
                            assert(b =~= bits);
                        }
                    }
                    if a.len() <= b.len() {
                        assert(a =~= b.take(a.len() as int));
                    } else {
                        assert(b =~= a.take(b.len() as int));
                    }
                    assert(a.is_prefix_of(b) || b.is_prefix_of(a));
                }
                assert(lut.data@[at] == leaf_entry(pats, prefix, width, at));
            },
            Node::PrefixLut(lut) => {
                let child = lut.data@[at];
                assert(built(child, s, width));
                lemma_built_finds(child->Some_0, s, width, shifted(window, prefix), k);
            },
            _ => {},
        }
    }
}

impl<T: Copy> Node<T> {
    /// Looks the window up in the decoding table of a code book: the value
    /// and the length of the code that the table holds for it.
    pub fn lookup(&self, window: u16) -> (r: Option<(T, u8)>)
        requires
            self.wf(0, 16),
        ensures
            r == self.find_spec(window, 0),
            r matches Some(e) ==> e.1 <= 16,
    {
        self.find(window, 0, Ghost(16u8))
    }
}

/// Canonical patterns of which none is the start of another can stand at
/// the root of a decoding table.
pub proof fn lemma_root_level<T>(pats: Seq<(T, Bits)>)
    requires
        canonical_all(pats),
        no_prefix(pats),
    ensures
        level_ok(pats, 0),
{
    assert forall|a: int, b: int| 0 <= a < pats.len() && 0 <= b < pats.len() implies (
    #[trigger] pats[a]).1@.take(0) == (#[trigger] pats[b]).1@.take(0) by {
        assert(pats[a].1@.take(0) =~= pats[b].1@.take(0));
    }
}

/// The decoding table of a prefix-free code book is complete: for every
/// window that starts with a pattern of the book, it holds the value and
/// the length of that pattern.
pub proof fn lemma_table_complete<T>(node: Node<T>, pats: Seq<(T, Bits)>, window: u16, i: int)
    requires
        canonical_all(pats),
        no_prefix(pats),
        built(Some(node), pats, 0),
        0 <= i < pats.len(),
        pats[i].1@.is_prefix_of(window_bits(window)),
    ensures
        node.wf(0, 16),
        node.find_spec(window, 0) == Some((pats[i].0, pats[i].1.len)),
{
    lemma_root_level(pats);
    lemma_built_wf(node, pats, 0, 16);
    lemma_built_finds(node, pats, 0, window, i);
}

} // verus!
