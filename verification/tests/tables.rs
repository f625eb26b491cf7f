use fax::lut::{LeafLut, Node, PrefixLut, COST_UNIT};
use fax::maps::{black, mode, white};
use fax::Bits;

fn bits(text: &str) -> Bits {
    let mut data = 0u16;
    for c in text.chars() {
        data = data << 1 | (c == '1') as u16;
    }
    Bits { data, len: text.len() as u8 }
}

fn book(which: u8) -> Vec<(u16, Bits)> {
    match which {
        0 => (0..104).map(|i| white::entry(i)).collect(),
        1 => (0..104).map(|i| black::entry(i)).collect(),
        _ => (0..11).map(|i| (i as u16, mode::entry(i).1)).collect(),
    }
}

/// The code that a window starts with, found by going through the book.
fn scan(book: &[(u16, Bits)], window: u16) -> Option<(u16, u8)> {
    book.iter()
        .find(|(_, b)| window >> (16 - b.len) == b.data)
        .map(|(v, b)| (*v, b.len))
}

#[test]
fn table_finds_every_code_of_every_book() {
    for which in 0..3 {
        let book = book(which);
        let root = Node::build(&book).unwrap();
        for window in 0..=u16::MAX {
            if let Some(found) = scan(&book, window) {
                assert_eq!(root.lookup(window), Some(found));
            }
        }
    }
}

#[test]
fn table_of_no_pattern_is_absent() {
    assert!(Node::<u16>::build(&[]).is_none());
    assert!(Node::<u16>::build_prefix(&[], 3).is_none());
}

#[test]
fn table_of_one_pattern_is_a_value() {
    let root = Node::build(&[(7u16, bits("0101"))]).unwrap();
    assert!(matches!(root, Node::Value(7, 4)));
    assert_eq!(root.lookup(0x5000), Some((7, 4)));
    assert_eq!(root.cost(), 0);
    assert_eq!(root.size(), 1);
}

#[test]
fn short_patterns_give_a_table_of_values() {
    let book = [(1u16, bits("0")), (2, bits("10")), (3, bits("110")), (4, bits("111"))];
    let root = Node::build(&book).unwrap();
    match &root {
        Node::LeafLut(lut) => {
            assert_eq!(lut.width, 3);
            assert_eq!(
                lut.data,
                vec![
                    Some((1, 1)),
                    Some((1, 1)),
                    Some((1, 1)),
                    Some((1, 1)),
                    Some((2, 2)),
                    Some((2, 2)),
                    Some((3, 3)),
                    Some((4, 3)),
                ]
            );
        }
        _ => panic!("a table of values is expected"),
    }
    assert_eq!(root.cost(), COST_UNIT);
    assert_eq!(root.size(), 8);
    assert_eq!(root.lookup(0b1011_0000_0000_0000), Some((2, 2)));
}

#[test]
fn empty_slots_stay_empty() {
    let book = [(1u16, bits("00")), (2, bits("011"))];
    let lut = LeafLut::build(&book, 0, 3);
    assert_eq!(
        lut.data,
        vec![Some((1, 2)), Some((1, 2)), None, Some((2, 3)), None, None, None, None]
    );
    let root = Node::build(&book).unwrap();
    assert_eq!(root.lookup(0x4000), None);
    assert_eq!(root.lookup(0x6000), Some((2, 3)));
}

#[test]
fn long_patterns_give_a_table_of_tables() {
    let book = book(1);
    let root = Node::build(&book).unwrap();
    match &root {
        Node::PrefixLut(lut) => {
            assert!(4 <= lut.width && lut.width < 13);
            assert_eq!(lut.data.len(), 1 << lut.width);
            // No other width from 4 on gives a table that costs less.
            for w in 4..13 {
                let other = PrefixLut::build_width(&book, w, 0);
                assert_eq!(other.width, w);
                assert!(lut.cost() <= other.cost());
                if w < lut.width {
                    assert!(lut.cost() < other.cost());
                }
            }
            assert_eq!(lut.size(), root.size());
            assert!(root.cost() <= COST_UNIT);
        }
        _ => panic!("a table of tables is expected"),
    }
}

#[test]
fn cost_is_the_mean_of_the_slots() {
    // Width 4 for patterns of 9 bits: the slot 0000 holds a table of values, the slot
    // 1000 a value, the others nothing.
    let book = [(1u16, bits("000000000")), (2, bits("000000001")), (3, bits("1000"))];
    let lut = PrefixLut::build_width(&book, 4, 0);
    assert_eq!(lut.cost(), COST_UNIT / 16);
    assert!(matches!(lut.data[0], Some(Node::LeafLut(_))));
    assert!(matches!(lut.data[8], Some(Node::Value(3, 4))));
    assert!(lut.data[1].is_none());
    assert_eq!(lut.size(), 16 + 32 + 1);
    let root = Node::PrefixLut(lut);
    assert_eq!(root.lookup(0b0000_0000_1000_0000), Some((2, 9)));
    assert_eq!(root.lookup(0b1000_1111_0000_0000), Some((3, 4)));
    assert_eq!(root.lookup(0b0100_0000_0000_0000), None);
}

#[test]
fn short_pattern_fills_the_slots_it_starts() {
    let book = [(1u16, bits("01")), (2, bits("0010000001")), (3, bits("0010000000"))];
    let lut = PrefixLut::build_width(&book, 4, 0);
    for k in 4..8 {
        assert!(matches!(lut.data[k], Some(Node::Value(1, 2))));
    }
    assert!(matches!(lut.data[2], Some(Node::LeafLut(_))));
    let root = Node::PrefixLut(lut);
    assert_eq!(root.lookup(0b0111_0000_0000_0000), Some((1, 2)));
    assert_eq!(root.lookup(0b0010_0000_0111_0000), Some((2, 10)));
}

#[test]
fn bits_operations() {
    let b = bits("10110");
    assert_eq!(b.concat(bits("01")), bits("1011001"));
    assert_eq!(Bits::empty().concat(b), b);
    assert_eq!(b.strip_prefix(2), bits("110"));
    assert_eq!(b.strip_prefix(5), Bits::empty());
    assert_eq!(b.prefix(3), 0b101);
    assert_eq!(b.prefix(0), 0);
    assert_eq!(b.prefix_range(8), (0b1011_0000, 0b1011_1000));
    assert_eq!(b.prefix_range(5), (0b10110, 0b10111));
    assert_eq!(Bits::empty().prefix_range(16), (0, 0x10000));
    assert_eq!(b.align_left(), 0b1011_0000_0000_0000);
    assert_eq!(Bits::empty().align_left(), 0);
    assert_eq!(b.common_prefix_len(bits("1010")), 3);
    assert_eq!(b.common_prefix_len(b), 16);
    assert_eq!(bits("0").common_prefix_len(bits("1")), 0);
}
