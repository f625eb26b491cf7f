//! Encoding of lines of pels as Group 4 data.
use vstd::prelude::*;
use crate::bits::{byte_bits, zeros};
use crate::maps::{black, edfb_half, eol_bits, mode, white, Mode};
use crate::transitions::{color_index, color_pos, edge, seek_back_pos, Transitions};
use crate::writer::{padding, BitWriter, VecWriter};
use crate::Color;

verus! {

/// The distance between `a` and `b`.
pub fn absdiff(a: u16, b: u16) -> (r: u16)
    ensures
        r == if a > b {
            a - b
        } else {
            b - a
        },
{
    if a > b {
        a - b
    } else {
        b - a
    }
}

/// The code of the run length `n` in the book of `color`, for an `n` that
/// has a code of its own.
pub open spec fn run_code_bits(color: Color, n: int) -> Seq<bool> {
    match color {
        Color::Black => black::codes()[crate::maps::run_index(n)]@,
        Color::White => white::codes()[crate::maps::run_index(n)]@,
    }
}

/// The codes of a run of `n` pels of `color`: the make-up code of 2560 as
/// often as it fits, then the make-up code of the multiple of 64 that
/// remains, if any, then one terminating code.
pub open spec fn run_bits(color: Color, n: int) -> Seq<bool>
    decreases n,
{
    if n >= 2560 {
        run_code_bits(color, 2560) + run_bits(color, n - 2560)
    } else if n >= 64 {
        run_code_bits(color, n - n % 64) + run_code_bits(color, n % 64)
    } else {
        run_code_bits(color, n)
    }
}

fn write_code<W: BitWriter>(writer: &mut W, color: Color, n: u16) -> (r: Result<(), W::Error>)
    requires
        old(writer).wf(),
        crate::maps::is_run_value(n as int),
    ensures
        final(writer).wf(),
        final(writer).reliable() == old(writer).reliable(),
        old(writer).reliable() ==> r is Ok,
        r is Ok ==> final(writer).written() == old(writer).written() + run_code_bits(
            color,
            n as int,
        ),
{
    let bits = match color {
        Color::White => white::encode(n),
        Color::Black => black::encode(n),
    };
    match bits {
        Some(b) => writer.write(b),
        None => Ok(()),
    }
}

/// Writes the codes of a run of `n` pels of `color`.
pub fn encode_color<W: BitWriter>(writer: &mut W, color: Color, n: u16) -> (r: Result<
    (),
    W::Error,
>)
    requires
        old(writer).wf(),
    ensures
        final(writer).wf(),
        final(writer).reliable() == old(writer).reliable(),
        old(writer).reliable() ==> r is Ok,
        r is Ok ==> final(writer).written() == old(writer).written() + run_bits(color, n as int),
{
    let mut n = n;
    let ghost total = n;
    let ghost sofar = Seq::<bool>::empty();
    proof {
        assert(writer.written() + sofar =~= writer.written());
    }
    while n >= 2560
        invariant
            writer.wf(),
            writer.reliable() == old(writer).reliable(),
            writer.written() == old(writer).written() + sofar,
            sofar + run_bits(color, n as int) == run_bits(color, total as int),
        decreases n,
    {
        let ghost before = writer.written();
        match write_code(writer, color, 2560) {
            Ok(()) => {},
            Err(e) => {
                return Err(e);
            },
        }
        proof {
            let code = run_code_bits(color, 2560);
            assert(sofar + run_bits(color, n as int) =~= (sofar + code) + run_bits(
                color,
                n - 2560,
            ));
            assert(old(writer).written() + sofar + code =~= old(writer).written() + (sofar
                + code));
            sofar = sofar + code;
        }
        n = n - 2560;
    }
    if n >= 64 {
        let d = n - n % 64;
        match write_code(writer, color, d) {
            Ok(()) => {},
            Err(e) => {
                return Err(e);
            },
        }
        proof {
            let code = run_code_bits(color, d as int);
            assert(sofar + run_bits(color, n as int) =~= (sofar + code) + run_code_bits(
                color,
                (n % 64) as int,
            ));
            assert(old(writer).written() + sofar + code =~= old(writer).written() + (sofar
                + code));
            sofar = sofar + code;
        }
        n = n - d;
    }
    match write_code(writer, color, n) {
        Ok(()) => {
            proof {
                let code = run_code_bits(color, n as int);
                assert(old(writer).written() + sofar + code =~= old(writer).written() + (sofar
                    + code));
            }
            Ok(())
        },
        Err(e) => Err(e),
    }
}

/// The colour of the pel before `i`; the pel before the first is white.
pub open spec fn pel_before(pels: Seq<Color>, i: int) -> Color {
    if i == 0 {
        Color::White
    } else {
        pels[i - 1]
    }
}

/// The positions among the first `n` pels at which the colour changes.
pub open spec fn changes(pels: Seq<Color>, n: nat) -> Seq<u16>
    decreases n,
{
    if n == 0 {
        Seq::empty()
    } else {
        let before = changes(pels, (n - 1) as nat);
        if pels[n - 1] != pel_before(pels, n - 1) {
            before.push((n - 1) as u16)
        } else {
            before
        }
    }
}

/// The positions in `line` increase, and all lie below `bound`.
pub open spec fn increasing(line: Seq<u16>, bound: int) -> bool {
    &&& forall|i: int, j: int| 0 <= i < j < line.len() ==> line[i] < line[j]
    &&& forall|i: int| 0 <= i < line.len() ==> line[i] < bound
}

/// The colour changes of a line are in increasing order and within the
/// line.
pub proof fn lemma_changes_increasing(pels: Seq<Color>, n: nat)
    requires
        n <= pels.len(),
        n <= u16::MAX,
    ensures
        increasing(changes(pels, n), n as int),
        changes(pels, n).len() <= n,
    decreases n,
{
    if n > 0 {
        lemma_changes_increasing(pels, (n - 1) as nat);
    }
}

/// The state of the encoder within a line.
pub struct Cursor {
    /// The position up to which the line is encoded.
    pub a0: int,
    /// The colour to the right of `a0`.
    pub color: Color,
    /// No mode has been written yet.
    pub start_of_line: bool,
    /// The number of colour changes of the line that are encoded.
    pub taken: int,
    /// The cursor in the reference line.
    pub pos: int,
}

/// The state at the start of a line.
pub open spec fn cursor_start() -> Cursor {
    Cursor { a0: 0, color: Color::White, start_of_line: true, taken: 0, pos: 0 }
}

/// The colour change with index `i` of `line`, or the width where the line
/// has no more.
pub open spec fn change_or(line: Seq<u16>, i: int, width: u16) -> int {
    match edge(line, i) {
        Some(a) => a as int,
        None => width as int,
    }
}

/// The next colour change `a1` of the line that is being encoded.
pub open spec fn next_a1(line: Seq<u16>, width: u16, st: Cursor) -> int {
    change_or(line, st.taken, width)
}

/// Where the cursor in the reference line is after the encoder has stepped
/// back to `a0` and looked for `b1`.
pub open spec fn b1_pos(reference: Seq<u16>, st: Cursor) -> int {
    color_pos(
        reference,
        seek_back_pos(reference, st.pos, st.a0 as u16),
        st.a0 as u16,
        st.color.flip(),
        st.start_of_line,
    )
}

/// The change `b1` of the reference line: the next to the other colour
/// after `a0`, or the width where there is none.
pub open spec fn find_b1(reference: Seq<u16>, width: u16, st: Cursor) -> int {
    change_or(
        reference,
        color_index(
            reference,
            seek_back_pos(reference, st.pos, st.a0 as u16),
            st.a0 as u16,
            st.color.flip(),
            st.start_of_line,
        ),
        width,
    )
}

/// The change `b2` of the reference line, the one behind `b1`.
pub open spec fn find_b2(reference: Seq<u16>, st: Cursor) -> Option<u16> {
    edge(reference, b1_pos(reference, st))
}

/// The mode that the encoder chooses: pass where `b2` lies before `a1`;
/// else vertical where `a1` is at most three pels from `b1`; else
/// horizontal.
pub open spec fn choose_mode(reference: Seq<u16>, line: Seq<u16>, width: u16, st: Cursor) -> Mode {
    let a1 = next_a1(line, width, st);
    let b1 = find_b1(reference, width, st);
    match find_b2(reference, st) {
        Some(b2) if b2 < a1 => Mode::Pass,
        _ => if -3 <= a1 - b1 <= 3 {
            Mode::Vertical((a1 - b1) as i8)
        } else {
            Mode::Horizontal
        },
    }
}

/// The bits that the encoder writes for the mode it chooses.
pub open spec fn step_bits(reference: Seq<u16>, line: Seq<u16>, width: u16, st: Cursor) -> Seq<
    bool,
> {
    let m = choose_mode(reference, line, width, st);
    let code = mode::encode_spec(m).unwrap()@;
    match m {
        Mode::Horizontal => {
            let a1 = next_a1(line, width, st);
            let a2 = change_or(line, st.taken + 1, width);
            code + run_bits(st.color, a1 - st.a0) + run_bits(st.color.flip(), a2 - a1)
        },
        _ => code,
    }
}

/// The state of the encoder after the mode it chooses.
pub open spec fn step_next(reference: Seq<u16>, line: Seq<u16>, width: u16, st: Cursor) -> Cursor {
    let spot = b1_pos(reference, st);
    match choose_mode(reference, line, width, st) {
        Mode::Pass => Cursor {
            a0: find_b2(reference, st).unwrap() as int,
            start_of_line: false,
            pos: spot + 1,
            ..st
        },
        Mode::Horizontal => Cursor {
            a0: change_or(line, st.taken + 1, width),
            start_of_line: false,
            taken: st.taken + 2,
            pos: spot,
            ..st
        },
        _ => Cursor {
            a0: next_a1(line, width, st),
            color: st.color.flip(),
            start_of_line: false,
            taken: st.taken + 1,
            pos: spot,
        },
    }
}

/// The encoder comes closer to the end of the line with each mode: `a0`
/// moves to the right, or stays while a colour change is taken.
pub open spec fn closer(line: Seq<u16>, width: u16, st: Cursor, next: Cursor) -> bool {
    &&& st.a0 <= next.a0 <= width
    &&& st.taken <= next.taken
    &&& st.a0 < next.a0 || st.taken < next.taken <= line.len()
}

/// The bits of the rest of a line, from the state `st` on: mode by mode
/// until `a0` has reached the width.
pub open spec fn line_bits_from(reference: Seq<u16>, line: Seq<u16>, width: u16, st: Cursor) -> Seq<
    bool,
>
    decreases width - st.a0, line.len() - st.taken,
{
    let next = step_next(reference, line, width, st);
    if st.a0 >= width || !closer(line, width, st, next) {
        Seq::empty()
    } else {
        step_bits(reference, line, width, st) + line_bits_from(reference, line, width, next)
    }
}

/// The bits of a line with the colour changes `line`, encoded against the
/// reference line `reference`.
pub open spec fn line_bits(reference: Seq<u16>, line: Seq<u16>, width: u16) -> Seq<bool> {
    line_bits_from(reference, line, width, cursor_start())
}

/// Where `a1` is at most three pels from `b1`, the encoder does not choose
/// the horizontal mode: it chooses the vertical mode, unless it passes.
pub proof fn lemma_vertical_preferred(
    reference: Seq<u16>,
    line: Seq<u16>,
    width: u16,
    st: Cursor,
)
    requires
        -3 <= next_a1(line, width, st) - find_b1(reference, width, st) <= 3,
    ensures
        choose_mode(reference, line, width, st) != Mode::Horizontal,
        choose_mode(reference, line, width, st) != Mode::Pass ==> choose_mode(
            reference,
            line,
            width,
            st,
        ) == Mode::Vertical(
            (next_a1(line, width, st) - find_b1(reference, width, st)) as i8,
        ),
{
}


/// In an increasing reference line, the change `b2` lies to the right of
/// `a0`.
pub proof fn lemma_b2_after_a0(reference: Seq<u16>, st: Cursor)
    requires
        increasing(reference, 0x10000),
        0 <= st.a0 <= u16::MAX,
        0 <= st.pos,
        st.start_of_line ==> st.a0 == 0,
        find_b2(reference, st) is Some,
    ensures
        find_b2(reference, st).unwrap() > st.a0,
{
    let start_pos = seek_back_pos(reference, st.pos, st.a0 as u16);
    let t = color_index(reference, start_pos, st.a0 as u16, st.color.flip(), st.start_of_line);
    assert(find_b2(reference, st) == edge(reference, t + 1));
    if st.start_of_line {
        assert(reference[0] < reference[t + 1]);
    } else {
        if reference.len() > 0 {
            if st.pos >= reference.len() {
                crate::transitions::lemma_rewind(reference, reference.len() - 1, st.a0 as u16);
            } else {
                crate::transitions::lemma_rewind(reference, st.pos, st.a0 as u16);
            }
        }
        crate::transitions::lemma_first_after(reference, start_pos, st.a0 as u16);
        let q = crate::transitions::first_after(reference, start_pos, st.a0 as u16);
        assert(reference[q] < reference[t + 1]);
    }
}

/// Writes the mode that the encoder chooses in the state that the
/// arguments hold, and returns `a0`, the colour and the number of colour
/// changes taken as they are after it.
fn encode_step<W: BitWriter>(
    writer: &mut W,
    transitions: &mut Transitions<'_>,
    line: &[u16],
    width: u16,
    a0: u16,
    color: Color,
    start_of_line: bool,
    taken: usize,
) -> (r: Result<(u16, Color, usize), W::Error>)
    requires
        old(writer).wf(),
        increasing(old(transitions).edges(), 0x10000),
        increasing(line@, width as int),
        a0 < width,
        taken <= line@.len() <= width,
        taken < line@.len() ==> a0 <= line@[taken as int],
        start_of_line ==> a0 == 0,
    ensures
        final(writer).wf(),
        final(writer).reliable() == old(writer).reliable(),
        old(writer).reliable() ==> r is Ok,
        final(transitions).edges() == old(transitions).edges(),
        ({
            let st = Cursor {
                a0: a0 as int,
                color,
                start_of_line,
                taken: taken as int,
                pos: old(transitions).pos(),
            };
            let next = step_next(old(transitions).edges(), line@, width, st);
            &&& closer(line@, width, st, next)
            &&& !next.start_of_line
            &&& next.taken <= line@.len() + 2
            &&& next.a0 < width ==> next.taken <= line@.len()
            &&& next.taken < line@.len() ==> next.a0 <= line@[next.taken]
            &&& r matches Ok(state) ==> {
                &&& state.0 == next.a0
                &&& state.1 == next.color
                &&& state.2 == next.taken
                &&& final(transitions).pos() == next.pos
                &&& final(writer).written() == old(writer).written() + step_bits(
                    old(transitions).edges(),
                    line@,
                    width,
                    st,
                )
            }
        }),
{
    let ghost reference = transitions.edges();
    let ghost st = Cursor {
        a0: a0 as int,
        color,
        start_of_line,
        taken: taken as int,
        pos: transitions.pos(),
    };
    let a1 = if taken < line.len() { line[taken] } else { width };
    transitions.seek_back(a0);
    let b1 = match transitions.next_color(a0, color.invert(), start_of_line) {
        Some(b) => b,
        None => width,
    };
    let b2 = transitions.peek();
    proof {
        assert(a1 == next_a1(line@, width, st));
        assert(b1 == find_b1(reference, width, st));
        assert(b2 == find_b2(reference, st));
        if b2 is Some {
            lemma_b2_after_a0(reference, st);
        }
        mode::lemma_prefix_free();
    }
    let pass = match b2 {
        Some(b) => b < a1,
        None => false,
    };
    if pass {
        proof {
            assert(choose_mode(reference, line@, width, st) == Mode::Pass);
        }
        let bits = mode::encode(Mode::Pass).unwrap();
        match writer.write(bits) {
            Ok(()) => {},
            Err(e) => {
                return Err(e);
            },
        }
        transitions.skip(1);
        Ok((b2.unwrap(), color, taken))
    } else if absdiff(a1, b1) <= 3 {
        let delta = (a1 as i32 - b1 as i32) as i8;
        proof {
            assert(choose_mode(reference, line@, width, st) == Mode::Vertical(delta));
        }
        let bits = mode::encode(Mode::Vertical(delta)).unwrap();
        match writer.write(bits) {
            Ok(()) => {},
            Err(e) => {
                return Err(e);
            },
        }
        Ok((a1, color.invert(), taken + 1))
    } else {
        proof {
            assert(choose_mode(reference, line@, width, st) == Mode::Horizontal);
        }
        let a2 = if taken + 1 < line.len() { line[taken + 1] } else { width };
        let ghost before = writer.written();
        let bits = mode::encode(Mode::Horizontal).unwrap();
        match writer.write(bits) {
            Ok(()) => {},
            Err(e) => {
                return Err(e);
            },
        }
        match encode_color(writer, color, a1 - a0) {
            Ok(()) => {},
            Err(e) => {
                return Err(e);
            },
        }
        match encode_color(writer, color.invert(), a2 - a1) {
            Ok(()) => {},
            Err(e) => {
                return Err(e);
            },
        }
        proof {
            assert(a2 == change_or(line@, st.taken + 1, width));
            assert(writer.written() =~= before + step_bits(reference, line@, width, st));
        }
        Ok((a2, color, taken + 2))
    }
}

/// An encoder of Group 4 data, which takes one line at a time.
pub struct Encoder<W> {
    writer: W,
    reference: Vec<u16>,
    current: Vec<u16>,
}

impl<W: BitWriter> Encoder<W> {
    /// The encoder can be used.
    pub closed spec fn wf(&self) -> bool {
        &&& self.writer.wf()
        &&& increasing(self.reference@, 0x10000)
    }

    /// Every bit written so far.
    pub closed spec fn written(&self) -> Seq<bool> {
        self.writer.written()
    }

    /// The sink cannot fail.
    pub closed spec fn reliable(&self) -> bool {
        self.writer.reliable()
    }

    /// The colour changes of the line encoded last.
    pub closed spec fn reference(&self) -> Seq<u16> {
        self.reference@
    }

    /// An encoder that writes to `writer`. The line above the first is
    /// white.
    pub fn new(writer: W) -> (r: Self)
        requires
            writer.wf(),
        ensures
            r.wf(),
            r.written() == writer.written(),
            r.reliable() == writer.reliable(),
            r.reference() == Seq::<u16>::empty(),
    {
        Encoder { writer, reference: Vec::new(), current: Vec::new() }
    }

    /// Encodes a line of `width` pels. Where `pels` holds fewer, the last
    /// colour goes on to the end of the line.
    pub fn encode_line(&mut self, pels: &[Color], width: u16) -> (r: Result<(), W::Error>)
        requires
            old(self).wf(),
            pels@.len() <= width,
        ensures
            final(self).wf(),
            final(self).reliable() == old(self).reliable(),
            old(self).reliable() ==> r is Ok,
            r is Ok ==> {
                &&& final(self).reference() == changes(pels@, pels@.len())
                &&& final(self).written() == old(self).written() + line_bits(
                    old(self).reference(),
                    changes(pels@, pels@.len()),
                    width,
                )
            },
    {
        self.current.clear();
        let mut prev = Color::White;
        let mut i: usize = 0;
        while i < pels.len()
            invariant
                i <= pels@.len(),
                pels@.len() <= width,
                prev == pel_before(pels@, i as int),
                self.current@ == changes(pels@, i as nat),
                self.writer == old(self).writer,
                self.reference == old(self).reference,
            decreases pels@.len() - i,
        {
            if pels[i] != prev {
                self.current.push(i as u16);
            }
            prev = pels[i];
            i = i + 1;
        }
        let ghost reference = self.reference@;
        let ghost line = self.current@;
        proof {
            lemma_changes_increasing(pels@, pels@.len());
        }
        let mut transitions = Transitions::new(self.reference.as_slice());
        let mut a0: u16 = 0;
        let mut color = Color::White;
        let mut start_of_line = true;
        let mut taken: usize = 0;
        let ghost st = cursor_start();
        proof {
            assert(old(self).writer.written() + line_bits(reference, line, width) =~= old(
                self,
            ).writer.written() + line_bits_from(reference, line, width, st));
        }
        while a0 < width
            invariant
                self.writer.wf(),
                self.writer.reliable() == old(self).writer.reliable(),
                self.reference@ == reference,
                reference == old(self).reference@,
                increasing(reference, 0x10000),
                self.current@ == line,
                line == changes(pels@, pels@.len()),
                increasing(line, width as int),
                line.len() <= width,
                transitions.edges() == reference,
                st == (Cursor {
                    a0: a0 as int,
                    color,
                    start_of_line,
                    taken: taken as int,
                    pos: transitions.pos(),
                }),
                start_of_line ==> st == cursor_start(),
                taken <= line.len() + 2,
                a0 < width ==> taken <= line.len(),
                taken < line.len() ==> a0 <= line[taken as int],
                a0 <= width,
                self.writer.written() + line_bits_from(reference, line, width, st) == old(
                    self,
                ).writer.written() + line_bits(reference, line, width),
            decreases width - a0, line.len() + 2 - taken,
        {
            let ghost prior = st;
            let ghost before = self.writer.written();
            let ghost next = step_next(reference, line, width, prior);
            match encode_step(
                &mut self.writer,
                &mut transitions,
                self.current.as_slice(),
                width,
                a0,
                color,
                start_of_line,
                taken,
            ) {
                Ok(state) => {
                    a0 = state.0;
                    color = state.1;
                    taken = state.2;
                },
                Err(e) => {
                    return Err(e);
                },
            }
            start_of_line = false;
            proof {
                st = next;
                let bits = step_bits(reference, line, width, prior);
                assert(before + (bits + line_bits_from(reference, line, width, next)) =~= (before
                    + bits) + line_bits_from(reference, line, width, next));
            }
        }
        proof {
            assert(self.writer.written() + Seq::<bool>::empty() =~= self.writer.written());
        }
        core::mem::swap(&mut self.reference, &mut self.current);
        Ok(())
    }

    /// Writes the end-of-block code, which is the end-of-line marker twice,
    /// and gives the writer back.
    pub fn finish(self) -> (r: Result<W, W::Error>)
        requires
            self.wf(),
        ensures
            self.reliable() ==> r is Ok,
            r matches Ok(w) ==> {
                &&& w.wf()
                &&& w.reliable() == self.reliable()
                &&& w.written() == self.written() + eol_bits()@ + eol_bits()@
            },
    {
        let mut writer = self.writer;
        match writer.write(edfb_half()) {
            Ok(()) => {},
            Err(e) => {
                return Err(e);
            },
        }
        match writer.write(edfb_half()) {
            Ok(()) => {},
            Err(e) => {
                return Err(e);
            },
        }
        Ok(writer)
    }
}


/// The bits of the lines of an image, each encoded against the line before
/// it, the first against `reference`.
pub open spec fn image_bits(lines: Seq<Seq<u16>>, width: u16, reference: Seq<u16>) -> Seq<bool>
    decreases lines.len(),
{
    if lines.len() == 0 {
        Seq::empty()
    } else {
        line_bits(reference, lines[0], width) + image_bits(lines.drop_first(), width, lines[0])
    }
}

/// The end-of-block code: the end-of-line marker twice.
pub open spec fn end_of_block() -> Seq<bool> {
    eol_bits()@ + eol_bits()@
}

/// The colour changes of each line of an image.
pub open spec fn image_changes(image: Seq<Seq<Color>>) -> Seq<Seq<u16>> {
    Seq::new(image.len(), |k: int| changes(image[k], image[k].len()))
}

/// The bits of an image: those of its lines, each encoded against the line
/// above it, the first against a white line, then the end-of-block code.
pub open spec fn encoded(image: Seq<Seq<Color>>, width: u16) -> Seq<bool> {
    image_bits(image_changes(image), width, Seq::empty()) + end_of_block()
}

/// The lines of an image as sequences.
pub open spec fn pel_lines(image: Seq<Vec<Color>>) -> Seq<Seq<Color>> {
    Seq::new(image.len(), |k: int| image[k]@)
}

/// The line that the line behind the lines `lines` is encoded against.
pub open spec fn last_line(lines: Seq<Seq<u16>>, reference: Seq<u16>) -> Seq<u16> {
    if lines.len() == 0 {
        reference
    } else {
        lines.last()
    }
}

/// The bits of an image with one more line: those of the image, then those
/// of the line, encoded against the last line of the image.
pub proof fn lemma_image_bits_push(
    lines: Seq<Seq<u16>>,
    line: Seq<u16>,
    width: u16,
    reference: Seq<u16>,
)
    ensures
        image_bits(lines.push(line), width, reference) == image_bits(lines, width, reference)
            + line_bits(last_line(lines, reference), line, width),
    decreases lines.len(),
{
    let more = lines.push(line);
    if lines.len() == 0 {
        assert(more.drop_first() =~= Seq::<Seq<u16>>::empty());
        assert(image_bits(more.drop_first(), width, line) =~= Seq::<bool>::empty());
        assert(image_bits(more, width, reference) =~= line_bits(reference, line, width));
        assert(image_bits(lines, width, reference) + line_bits(reference, line, width)
            =~= line_bits(reference, line, width));
    } else {
        assert(more.drop_first() =~= lines.drop_first().push(line));
        lemma_image_bits_push(lines.drop_first(), line, width, lines[0]);
        assert(last_line(lines.drop_first(), lines[0]) == last_line(lines, reference));
        assert(image_bits(more, width, reference) =~= image_bits(lines, width, reference)
            + line_bits(last_line(lines, reference), line, width));
    }
}

/// Encodes an image of lines of `width` pels as Group 4 data: the lines,
/// then the end-of-block code, then zeros up to the end of the last byte.
pub fn encode_g4(image: &[Vec<Color>], width: u16) -> (r: Vec<u8>)
    requires
        forall|k: int| 0 <= k < image@.len() ==> (#[trigger] image@[k])@.len() <= width,
    ensures
        byte_bits(r@) == encoded(pel_lines(image@), width) + zeros(
            padding(encoded(pel_lines(image@), width).len()),
        ),
{
    let mut encoder = Encoder::new(VecWriter::new());
    let ghost all = image_changes(pel_lines(image@));
    let mut k: usize = 0;
    proof {
        assert(all.take(0) =~= Seq::<Seq<u16>>::empty());
    }
    while k < image.len()
        invariant
            k <= image@.len(),
            all == image_changes(pel_lines(image@)),
            forall|j: int| 0 <= j < image@.len() ==> (#[trigger] image@[j])@.len() <= width,
            encoder.wf(),
            encoder.reliable(),
            encoder.written() == image_bits(all.take(k as int), width, Seq::empty()),
            encoder.reference() == last_line(all.take(k as int), Seq::empty()),
        decreases image@.len() - k,
    {
        proof {
            lemma_image_bits_push(all.take(k as int), all[k as int], width, Seq::empty());
            assert(all.take(k as int).push(all[k as int]) =~= all.take(k + 1));
            assert(all[k as int] == changes(image@[k as int]@, image@[k as int]@.len()));
        }
        match encoder.encode_line(image[k].as_slice(), width) {
            Ok(()) => {},
            Err(_) => {},
        }
        k = k + 1;
    }
    proof {
        assert(all.take(k as int) =~= all);
    }
    match encoder.finish() {
        Ok(writer) => writer.finish(),
        Err(_) => Vec::new(),
    }
}

} // verus!
