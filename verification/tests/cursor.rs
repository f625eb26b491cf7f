use fax::transitions::Transitions;
use fax::Color;

#[test]
fn next_and_peek_walk_the_line() {
    let edges = [3u16, 7, 12];
    let mut cursor = Transitions::new(&edges);
    assert_eq!(cursor.peek(), Some(3));
    assert_eq!(cursor.next(), Some(3));
    assert_eq!(cursor.peek(), Some(7));
    cursor.skip(1);
    assert_eq!(cursor.next(), Some(12));
    assert_eq!(cursor.next(), None);
    assert_eq!(cursor.peek(), None);
    cursor.skip(3);
    assert_eq!(cursor.peek(), None);
    assert_eq!(Transitions::new(&[]).peek(), None);
}

#[test]
fn next_color_at_the_start_of_a_row() {
    let edges = [0u16, 4, 9];
    let mut cursor = Transitions::new(&edges);
    // The first change to black is the first change, also where it lies at 0.
    assert_eq!(cursor.next_color(0, Color::Black, true), Some(0));
    assert_eq!(cursor.peek(), Some(4));
    let mut cursor = Transitions::new(&edges);
    assert_eq!(cursor.next_color(0, Color::White, true), Some(4));
    assert_eq!(cursor.peek(), Some(9));
    let mut cursor = Transitions::new(&[]);
    assert_eq!(cursor.next_color(0, Color::Black, true), None);
    assert_eq!(cursor.peek(), None);
    let one = [5u16];
    let mut cursor = Transitions::new(&one);
    assert_eq!(cursor.next_color(0, Color::White, true), None);
    assert_eq!(cursor.next(), None);
}

#[test]
fn next_color_finds_the_change_of_that_colour() {
    let edges = [2u16, 5, 9, 14];
    let mut cursor = Transitions::new(&edges);
    // Behind 2, the next change to white is at 5.
    assert_eq!(cursor.next_color(2, Color::White, false), Some(5));
    assert_eq!(cursor.peek(), Some(9));
    // Behind 5, the next change is at 9 and turns the line black.
    assert_eq!(cursor.next_color(5, Color::Black, false), Some(9));
    // The change at 14 turns the line white; there is none to black behind it.
    assert_eq!(cursor.next_color(9, Color::Black, false), None);
    assert_eq!(cursor.peek(), None);
    let mut cursor = Transitions::new(&edges);
    assert_eq!(cursor.next_color(1, Color::White, false), Some(5));
    let mut cursor = Transitions::new(&edges);
    assert_eq!(cursor.next_color(20, Color::White, false), None);
}

#[test]
fn seek_back_steps_over_what_lies_to_the_right() {
    let edges = [2u16, 5, 9, 14];
    let mut cursor = Transitions::new(&edges);
    cursor.skip(3);
    cursor.seek_back(5);
    assert_eq!(cursor.peek(), Some(9));
    cursor.seek_back(4);
    assert_eq!(cursor.peek(), Some(5));
    cursor.seek_back(0);
    assert_eq!(cursor.peek(), Some(2));
    cursor.seek_back(0);
    assert_eq!(cursor.peek(), Some(2));
}

#[test]
fn seek_back_from_beyond_the_end() {
    let edges = [2u16, 5, 9, 14];
    let mut cursor = Transitions::new(&edges);
    cursor.skip(10);
    // The cursor is first brought back onto the last change.
    cursor.seek_back(20);
    assert_eq!(cursor.peek(), Some(14));
    cursor.skip(10);
    cursor.seek_back(9);
    assert_eq!(cursor.peek(), Some(14));
    cursor.skip(10);
    cursor.seek_back(8);
    assert_eq!(cursor.peek(), Some(9));
    let mut cursor = Transitions::new(&[]);
    cursor.skip(2);
    cursor.seek_back(0);
    assert_eq!(cursor.peek(), None);
    assert_eq!(cursor.next(), None);
}
