//! A cursor over the colour changes of the reference line.
use vstd::prelude::*;
use crate::Color;

verus! {

/// The colour that the line takes at the change with index `i`: a line
/// starts white, so changes with an even index turn it black.
pub open spec fn color_at(i: int) -> Color {
    if i % 2 == 0 {
        Color::Black
    } else {
        Color::White
    }
}

/// The entry of `edges` at `i`, if there is one.
pub open spec fn edge(edges: Seq<u16>, i: int) -> Option<u16> {
    if 0 <= i < edges.len() {
        Some(edges[i])
    } else {
        None
    }
}

/// Where a cursor at `pos` comes to rest when it steps back over every entry
/// greater than `start`.
pub open spec fn rewind(edges: Seq<u16>, pos: int, start: u16) -> int
    decreases pos,
{
    if 0 < pos <= edges.len() && start < edges[pos - 1] {
        rewind(edges, pos - 1, start)
    } else {
        pos
    }
}

/// Where a cursor is after `seek_back`: it is first brought back onto the
/// last entry if it was beyond it, then steps back as `rewind` says.
pub open spec fn seek_back_pos(edges: Seq<u16>, pos: int, start: u16) -> int {
    if edges.len() == 0 {
        0
    } else if pos >= edges.len() {
        rewind(edges, edges.len() - 1, start)
    } else {
        rewind(edges, pos, start)
    }
}

/// The first index from `pos` on whose entry is greater than `start`, or
/// the end of `edges`.
pub open spec fn first_after(edges: Seq<u16>, pos: int, start: u16) -> int
    decreases edges.len() - pos,
{
    if 0 <= pos < edges.len() && edges[pos] <= start {
        first_after(edges, pos + 1, start)
    } else {
        pos
    }
}

/// The index of the change that `next_color` looks for: at the start of a
/// row the first change to `color`; later the first entry after `start`
/// from the cursor on, or the one behind it if that one turns the line to
/// the other colour.
pub open spec fn color_index(
    edges: Seq<u16>,
    pos: int,
    start: u16,
    color: Color,
    start_of_row: bool,
) -> int {
    if start_of_row {
        if color == Color::Black {
            0
        } else {
            1
        }
    } else {
        let q = first_after(edges, pos, start);
        if q < edges.len() && color_at(q) != color {
            q + 1
        } else {
            q
        }
    }
}

/// Where the cursor is after `next_color`: behind the change it found, if
/// it found one.
pub open spec fn color_pos(
    edges: Seq<u16>,
    pos: int,
    start: u16,
    color: Color,
    start_of_row: bool,
) -> int {
    let t = color_index(edges, pos, start, color, start_of_row);
    if start_of_row || t < edges.len() {
        t + 1
    } else {
        t
    }
}

/// `rewind` stops at the first entry, from the cursor back, that is not
/// greater than `start`.
pub proof fn lemma_rewind(edges: Seq<u16>, pos: int, start: u16)
    requires
        0 <= pos <= edges.len(),
    ensures
        0 <= rewind(edges, pos, start) <= pos,
        forall|j: int| rewind(edges, pos, start) <= j < pos ==> edges[j] > start,
        rewind(edges, pos, start) > 0 ==> edges[rewind(edges, pos, start) - 1] <= start,
    decreases pos,
{
    if 0 < pos && start < edges[pos - 1] {
        lemma_rewind(edges, pos - 1, start);
    }
}

/// `first_after` passes exactly the entries that are not greater than
/// `start`.
pub proof fn lemma_first_after(edges: Seq<u16>, pos: int, start: u16)
    requires
        0 <= pos,
    ensures
        pos <= first_after(edges, pos, start),
        pos <= edges.len() ==> first_after(edges, pos, start) <= edges.len(),
        forall|j: int| pos <= j < first_after(edges, pos, start) ==> edges[j] <= start,
        first_after(edges, pos, start) < edges.len() ==> edges[first_after(edges, pos, start)]
            > start,
    decreases edges.len() - pos,
{
    if pos < edges.len() && edges[pos] <= start {
        lemma_first_after(edges, pos + 1, start);
    }
}

/// A cursor over the positions at which the reference line changes colour.
pub struct Transitions<'a> {
    edges: &'a [u16],
    pos: usize,
}

impl<'a> Transitions<'a> {
    /// The positions of the colour changes.
    pub closed spec fn edges(&self) -> Seq<u16> {
        self.edges@
    }

    /// The index of the entry that the cursor is at.
    pub closed spec fn pos(&self) -> int {
        self.pos as int
    }

    /// A cursor at the first entry of `edges`.
    pub fn new(edges: &'a [u16]) -> (r: Transitions<'a>)
        ensures
            r.edges() == edges@,
            r.pos() == 0,
    {
        Transitions { edges, pos: 0 }
    }

    /// Steps back while the entry before the cursor is greater than
    /// `start`. A cursor beyond the last entry is first brought back onto
    /// it.
    pub fn seek_back(&mut self, start: u16)
        ensures
            final(self).edges() == old(self).edges(),
            final(self).pos() == seek_back_pos(old(self).edges(), old(self).pos(), start),
            0 <= final(self).pos() <= old(self).pos(),
            final(self).pos() > 0 ==> old(self).edges()[final(self).pos() - 1] <= start,
    {
        let n = self.edges.len();
        let top = if n == 0 { 0 } else { n - 1 };
        if self.pos > top {
            self.pos = top;
        }
        let ghost from = self.pos;
        proof {
            lemma_rewind(self.edges@, from as int, start);
        }
        while self.pos > 0 && start < self.edges[self.pos - 1]
            invariant
                self.edges == old(self).edges,
                self.pos <= from <= self.edges@.len(),
                rewind(self.edges@, self.pos as int, start) == rewind(
                    self.edges@,
                    from as int,
                    start,
                ),
            decreases self.pos,
        {
            self.pos = self.pos - 1;
        }
    }

    /// Finds the next change to `color` that lies after `start`, and moves
    /// the cursor behind it. At the start of a row it is the first change
    /// to `color`, wherever `start` is.
    pub fn next_color(&mut self, start: u16, color: Color, start_of_row: bool) -> (r: Option<u16>)
        ensures
            final(self).edges() == old(self).edges(),
            r == edge(
                old(self).edges(),
                color_index(old(self).edges(), old(self).pos(), start, color, start_of_row),
            ),
            final(self).pos() == color_pos(
                old(self).edges(),
                old(self).pos(),
                start,
                color,
                start_of_row,
            ),
            !start_of_row ==> final(self).pos() >= old(self).pos(),
    {
        if start_of_row {
            if color == Color::Black {
                self.pos = 1;
                return if 0 < self.edges.len() { Some(self.edges[0]) } else { None };
            } else {
                self.pos = 2;
                return if 1 < self.edges.len() { Some(self.edges[1]) } else { None };
            }
        }
        proof {
            lemma_first_after(self.edges@, self.pos as int, start);
        }
        while self.pos < self.edges.len() && self.edges[self.pos] <= start
            invariant
                self.edges == old(self).edges,
                self.pos >= old(self).pos,
                first_after(self.edges@, self.pos as int, start) == first_after(
                    self.edges@,
                    old(self).pos as int,
                    start,
                ),
            decreases self.edges@.len() - self.pos,
        {
            self.pos = self.pos + 1;
        }
        if self.pos < self.edges.len() && (self.pos % 2 == 0) != (color == Color::Black) {
            self.pos = self.pos + 1;
        }
        if self.pos < self.edges.len() {
            let val = self.edges[self.pos];
            self.pos = self.pos + 1;
            Some(val)
        } else {
            None
        }
    }

    /// The entry at the cursor, which moves on by one.
    pub fn next(&mut self) -> (r: Option<u16>)
        ensures
            final(self).edges() == old(self).edges(),
            r == edge(old(self).edges(), old(self).pos()),
            final(self).pos() == (if r is Some {
                old(self).pos() + 1
            } else {
                old(self).pos()
            }),
    {
        if self.pos < self.edges.len() {
            let val = self.edges[self.pos];
            self.pos = self.pos + 1;
            Some(val)
        } else {
            None
        }
    }

    /// The entry at the cursor.
    pub fn peek(&self) -> (r: Option<u16>)
        ensures
            r == edge(self.edges(), self.pos()),
            r is Some ==> self.pos() < usize::MAX,
    {
        if self.pos < self.edges.len() {
            Some(self.edges[self.pos])
        } else {
            None
        }
    }

    /// Moves the cursor on by `n` entries.
    pub fn skip(&mut self, n: usize)
        requires
            old(self).pos() + n <= usize::MAX,
        ensures
            final(self).edges() == old(self).edges(),
            final(self).pos() == old(self).pos() + n,
    {
        self.pos = self.pos + n;
    }
}

} // verus!
