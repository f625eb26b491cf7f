//! Decoding of Group 3 and Group 4 data into lines of colour changes.
use vstd::prelude::*;
use vstd::string::StringExecFns;
use crate::bits::{lemma_bits_determined, Bits};
use crate::maps::{
    black, eol, eol_bits, lemma_eol_canonical, mode, run_decode_spec, white, Mode, Tables,
};
use crate::reader::{BitReader, ByteReader};
use crate::transitions::{color_index, color_pos, edge, seek_back_pos, Transitions};
use crate::Color;

verus! {

/// What a decoder says after a step.
#[derive(PartialEq, Eq, Debug, Copy, Clone, Structural)]
pub enum DecodeStatus {
    /// A line was decoded, and more may follow.
    Incomplete,
    /// The end of the data was reached.
    End,
}

/// Why decoding stopped.
#[derive(Debug)]
pub enum DecodeError<E> {
    /// The source of the data failed.
    Reader(E),
    /// The data is not what the format allows.
    Invalid,
    /// The data uses an extension of the format.
    Unsupported,
}

impl<E> DecodeError<E> {
    /// What the error says of itself, whichever it is.
    pub fn to_string(&self) -> (r: String)
        ensures
            r@ == "Decode Error"@,
    {
        String::from_str("Decode Error")
    }
}

/// The run length whose code a stream starts with, in the book of `color`,
/// and the length of that code.
pub open spec fn run_code(color: Color, stream: Seq<bool>) -> Option<(u16, nat)> {
    run_decode_spec(color, stream)
}

/// A run length read from a stream, and the number of bits read.
pub struct Run {
    /// The run length, unless the stream did not hold one.
    pub value: Option<u16>,
    /// The number of bits read, also where no run length was found.
    pub used: nat,
}

/// Reads a run length from `stream`: make-up codes as long as they come,
/// then one terminating code; the run length is their sum, added to `sum`.
/// There is none where a code is missing or the sum is beyond 65535.
pub open spec fn run_from(color: Color, stream: Seq<bool>, sum: int) -> Run
    decreases stream.len(),
{
    match run_code(color, stream) {
        None => Run { value: None, used: 0 },
        Some((n, len)) => {
            if sum + n > u16::MAX {
                Run { value: None, used: len }
            } else if n < 64 || len == 0 || len > stream.len() {
                Run { value: Some((sum + n) as u16), used: len }
            } else {
                let rest = run_from(color, stream.skip(len as int), sum + n);
                Run { value: rest.value, used: len + rest.used }
            }
        },
    }
}

/// The run length that `stream` starts with.
pub open spec fn run_spec(color: Color, stream: Seq<bool>) -> Run {
    run_from(color, stream, 0)
}

/// A run never reads more than the stream holds.
pub proof fn lemma_run_used(color: Color, stream: Seq<bool>, sum: int)
    ensures
        run_from(color, stream, sum).used <= stream.len(),
        run_from(color, stream, sum).value is Some ==> run_from(color, stream, sum).used >= 1,
    decreases stream.len(),
{
    black::lemma_prefix_free();
    white::lemma_prefix_free();
    match run_code(color, stream) {
        None => {},
        Some((n, len)) => {
            let codes = if color == Color::Black {
                black::codes()
            } else {
                white::codes()
            };
            let i = crate::maps::lookup(codes, stream).unwrap();
            assert(crate::maps::matching(codes, stream, i));
            assert(codes[i]@.len() == len);
            if sum + n > u16::MAX {
            } else if n < 64 || len == 0 || len > stream.len() {
            } else {
                lemma_run_used(color, stream.skip(len as int), sum + n);
            }
        },
    }
}

fn run_code_of<R: BitReader>(tables: Option<&Tables>, color: Color, reader: &mut R) -> (r: Option<
    u16,
>)
    requires
        old(reader).wf(),
        tables matches Some(t) ==> t.wf(),
    ensures
        final(reader).wf(),
        final(reader).reliable() == old(reader).reliable(),
        match r {
            Some(v) => {
                &&& run_code(color, old(reader).stream()) matches Some((val, len))
                &&& v == val
                &&& 1 <= len <= 13
                &&& len <= old(reader).stream().len()
                &&& final(reader).stream() == old(reader).stream().skip(len as int)
            },
            None => !old(reader).reliable() || (run_code(color, old(reader).stream()) is None
                && final(reader).stream() == old(reader).stream()),
        },
{
    proof {
        lemma_run_used(color, reader.stream(), 0);
    }
    match tables {
        Some(t) => t.decode_run(color, reader),
        None => match color {
            Color::Black => black::decode(reader),
            Color::White => white::decode(reader),
        },
    }
}

/// Reads a run length: make-up codes as long as they come, then one
/// terminating code. Where no run length is found, the codes read so far
/// stay consumed.
pub fn with_markup<R: BitReader>(color: Color, reader: &mut R) -> (r: Option<u16>)
    requires
        old(reader).wf(),
    ensures
        final(reader).wf(),
        final(reader).reliable() == old(reader).reliable(),
        r is Some || old(reader).reliable() ==> {
            &&& r == run_spec(color, old(reader).stream()).value
            &&& final(reader).stream() == old(reader).stream().skip(
                run_spec(color, old(reader).stream()).used as int,
            )
        },
{
    read_run(None, color, reader)
}

/// Reads a run length, the codes looked up in `tables` where there are
/// any.
fn read_run<R: BitReader>(tables: Option<&Tables>, color: Color, reader: &mut R) -> (r: Option<
    u16,
>)
    requires
        old(reader).wf(),
        tables matches Some(t) ==> t.wf(),
    ensures
        final(reader).wf(),
        final(reader).reliable() == old(reader).reliable(),
        r is Some || old(reader).reliable() ==> {
            &&& r == run_spec(color, old(reader).stream()).value
            &&& final(reader).stream() == old(reader).stream().skip(
                run_spec(color, old(reader).stream()).used as int,
            )
        },
{
    let mut sum: u16 = 0;
    let ghost start = reader.stream();
    let ghost used: nat = 0;
    loop
        invariant
            reader.wf(),
            reader.reliable() == old(reader).reliable(),
            start == old(reader).stream(),
            used <= start.len(),
            reader.stream() == start.skip(used as int),
            run_spec(color, start).value == run_from(color, reader.stream(), sum as int).value,
            run_spec(color, start).used == used + run_from(
                color,
                reader.stream(),
                sum as int,
            ).used,
            tables matches Some(t) ==> t.wf(),
        decreases reader.stream().len(),
    {
        let ghost before = reader.stream();
        match run_code_of(tables, color, reader) {
            Some(n) => {
                proof {
                    let len = run_code(color, before).unwrap().1;
                    assert(start.skip(used as int).skip(len as int) =~= start.skip(
                        (used + len) as int,
                    ));
                }
                if n > u16::MAX - sum {
                    proof {
                        let len = run_code(color, before).unwrap().1;
                        assert(before.skip(len as int) =~= start.skip(
                            run_spec(color, start).used as int,
                        ));
                    }
                    return None;
                }
                sum = sum + n;
                if n < 64 {
                    return Some(sum);
                }
                proof {
                    used = used + run_code(color, before).unwrap().1;
                }
            },
            None => {
                proof {
                    if old(reader).reliable() {
                        assert(run_from(color, before, sum as int).used == 0);
                    }
                }
                return None;
            },
        }
    }
}

/// Reads a run length of the colour `current`.
pub fn colored<R: BitReader>(current: Color, reader: &mut R) -> (r: Option<u16>)
    requires
        old(reader).wf(),
    ensures
        final(reader).wf(),
        final(reader).reliable() == old(reader).reliable(),
        r is Some || old(reader).reliable() ==> {
            &&& r == run_spec(current, old(reader).stream()).value
            &&& final(reader).stream() == old(reader).stream().skip(
                run_spec(current, old(reader).stream()).used as int,
            )
        },
{
    with_markup(current, reader)
}


/// The colour of the run that ends at the change with index `i`.
pub open spec fn run_color(i: int) -> Color {
    if i % 2 == 0 {
        Color::White
    } else {
        Color::Black
    }
}

/// The length of the run that ends at the change with index `i`: the
/// distance from the change before it, or from the left margin. A change
/// that does not lie to the right of the one before it ends an empty run.
pub open spec fn run_len(line: Seq<u16>, i: int) -> nat {
    let last = if i == 0 {
        0
    } else {
        line[i - 1] as int
    };
    if line[i] > last {
        (line[i] - last) as nat
    } else {
        0
    }
}

/// The pels of the runs that end at the first `n` changes of a line.
pub open spec fn expand(line: Seq<u16>, n: nat) -> Seq<Color>
    decreases n,
{
    if n == 0 {
        Seq::empty()
    } else {
        expand(line, (n - 1) as nat) + Seq::new(
            run_len(line, n - 1),
            |x: int| run_color(n - 1),
        )
    }
}

/// The `width` pels of a line: its runs, then the colour that the last
/// change left to the end of the line.
pub open spec fn pels_spec(line: Seq<u16>, width: u16) -> Seq<Color> {
    let runs = expand(line, line.len());
    Seq::new(
        width as nat,
        |x: int|
            if x < runs.len() {
                runs[x]
            } else {
                run_color(line.len() as int)
            },
    )
}

/// The runs of more changes start with the runs of fewer.
pub proof fn lemma_expand_prefix(line: Seq<u16>, m: nat, n: nat)
    requires
        m <= n,
    ensures
        expand(line, m).is_prefix_of(expand(line, n)),
    decreases n,
{
    if m < n {
        lemma_expand_prefix(line, m, (n - 1) as nat);
        let a = expand(line, m);
        let b = expand(line, (n - 1) as nat);
        let c = expand(line, n);
        assert(b =~= c.take(b.len() as int));
        assert(a =~= c.take(a.len() as int));
    } else {
        assert(expand(line, m) =~= expand(line, n).take(expand(line, m).len() as int));
    }
}

/// Turns the colour changes of a line into its pels: exactly `width` of
/// them, the first run white.
pub fn pels(line: &[u16], width: u16) -> (r: Vec<Color>)
    ensures
        r@.len() == width,
        r@ == pels_spec(line@, width),
{
    let mut out: Vec<Color> = Vec::new();
    let mut color = Color::White;
    let mut last: u16 = 0;
    let mut i: usize = 0;
    while i < line.len() && out.len() < width as usize
        invariant
            i <= line@.len(),
            out@.len() <= width,
            color == run_color(i as int),
            last == (if i == 0 {
                0
            } else {
                line@[i - 1]
            }),
            out@.is_prefix_of(expand(line@, i as nat)),
            out@.len() < width ==> out@ == expand(line@, i as nat),
        decreases line@.len() - i,
    {
        let p = line[i];
        let n = if p > last { p - last } else { 0 };
        let mut k: u16 = 0;
        let ghost base = out@;
        let ghost run = Seq::new(run_len(line@, i as int), |x: int| run_color(i as int));
        proof {
            assert(expand(line@, (i + 1) as nat) == expand(line@, i as nat) + run);
        }
        while k < n && out.len() < width as usize
            invariant
                k <= n,
                n == run_len(line@, i as int),
                out@.len() <= width,
                color == run_color(i as int),
                run == Seq::new(run_len(line@, i as int), |x: int| run_color(i as int)),
                base.is_prefix_of(expand(line@, i as nat)),
                out@.len() < width || k > 0 ==> base == expand(line@, i as nat),
                out@ == base + run.take(k as int),
            decreases n - k,
        {
            out.push(color);
            proof {
                assert(run.take(k as int).push(color) =~= run.take(k + 1));
                assert(out@ =~= base + run.take(k + 1));
            }
            k = k + 1;
        }
        proof {
            let next = expand(line@, (i + 1) as nat);
            if base == expand(line@, i as nat) {
                assert(out@ =~= next.take(out@.len() as int));
                if k == n {
                    assert(run.take(k as int) =~= run);
                }
            } else {
                assert(k == 0);
                assert(out@ =~= base);
                lemma_expand_prefix(line@, i as nat, (i + 1) as nat);
                assert(out@ =~= next.take(out@.len() as int));
            }
        }
        color = color.invert();
        last = p;
        i = i + 1;
    }
    let pad = if line.len() % 2 == 1 { Color::Black } else { Color::White };
    let ghost runs = expand(line@, line@.len());
    let ghost base = out@;
    proof {
        lemma_expand_prefix(line@, i as nat, line@.len());
        assert(base =~= runs.take(base.len() as int));
    }
    while out.len() < width as usize
        invariant
            out@.len() <= width,
            base.len() <= out@.len(),
            base.is_prefix_of(runs),
            base.len() < width ==> base == runs,
            pad == run_color(line@.len() as int),
            out@ == base + Seq::new((out@.len() - base.len()) as nat, |x: int| pad),
        decreases width - out@.len(),
    {
        let ghost before = out@;
        out.push(pad);
        proof {
            assert(out@ =~= base + Seq::new((out@.len() - base.len()) as nat, |x: int| pad));
        }
    }
    proof {
        assert(out@ =~= pels_spec(line@, width));
    }
    out
}

/// A line of an image: the positions of its colour changes, and its width.
pub struct Line<'a> {
    pub transitions: &'a [u16],
    pub width: u16,
}

impl<'a> Line<'a> {
    /// The pels of the line.
    pub fn pels(&self) -> (r: Vec<Color>)
        ensures
            r@.len() == self.width,
            r@ == pels_spec(self.transitions@, self.width),
    {
        pels(self.transitions, self.width)
    }
}


/// How the decoding of a line ends.
pub enum Outcome {
    /// With a line.
    Incomplete,
    /// With the end of the data.
    End,
    /// With data that the format does not allow.
    Invalid,
    /// With an extension of the format.
    Unsupported,
}

/// What the decoding of a line gives: how it ends and, where it ends with
/// a line or with the end of the data, the line's colour changes and the
/// number of bits read.
pub struct Decoded {
    pub outcome: Outcome,
    pub line: Seq<u16>,
    pub used: nat,
}

/// Decoding that ends with an error.
pub open spec fn failed(outcome: Outcome) -> Decoded {
    Decoded { outcome, line: Seq::empty(), used: 0 }
}

/// The state of the Group 4 decoder within a line.
pub struct Progress {
    /// The cursor in the reference line.
    pub pos: int,
    /// The position up to which the line is decoded.
    pub a0: int,
    /// The colour to the right of `a0`.
    pub color: Color,
    /// No mode has been decoded yet.
    pub start_of_row: bool,
    /// The colour changes found so far.
    pub line: Seq<u16>,
    /// The number of bits read so far.
    pub used: nat,
}

/// What one mode does to the state of the decoder: it goes on, or the
/// decoding of the line ends.
pub enum Step {
    Next(Progress),
    Done(Decoded),
}

/// The state at the start of a line.
pub open spec fn line_start() -> Progress {
    Progress {
        pos: 0,
        a0: 0,
        color: Color::White,
        start_of_row: true,
        line: Seq::empty(),
        used: 0,
    }
}

/// A pass mode: the decoder moves to the change `b2` of the reference line,
/// the one behind the next change to the other colour. The data is invalid
/// where the reference line has no such change.
pub open spec fn pass_step(reference: Seq<u16>, st: Progress, used: nat) -> Step {
    let first = st.start_of_row && st.color == Color::White;
    let found = first || edge(
        reference,
        color_index(reference, st.pos, st.a0 as u16, st.color.flip(), false),
    ) is Some;
    let spot = if first {
        st.pos + 1
    } else {
        color_pos(reference, st.pos, st.a0 as u16, st.color.flip(), false)
    };
    if !found {
        Step::Done(failed(Outcome::Invalid))
    } else {
        match edge(reference, spot) {
            Some(b2) => Step::Next(
                Progress { pos: spot + 1, a0: b2 as int, start_of_row: false, used, ..st },
            ),
            None => Step::Next(Progress { pos: spot, start_of_row: false, used, ..st }),
        }
    }
}

/// The change `b1` of the reference line that a vertical mode refers to,
/// or the width where the reference line has none.
pub open spec fn vertical_b1(reference: Seq<u16>, width: u16, st: Progress) -> int {
    match edge(
        reference,
        color_index(reference, st.pos, st.a0 as u16, st.color.flip(), st.start_of_row),
    ) {
        Some(b) => b as int,
        None => width as int,
    }
}

/// A vertical mode: the line changes colour `delta` pels from `b1`. Where
/// that is not within the line, the line ends.
pub open spec fn vertical_step(
    reference: Seq<u16>,
    width: u16,
    st: Progress,
    delta: int,
    used: nat,
) -> Step {
    let a1 = vertical_b1(reference, width, st) + delta;
    let spot = color_pos(reference, st.pos, st.a0 as u16, st.color.flip(), st.start_of_row);
    if a1 < 0 || a1 >= width {
        Step::Done(Decoded { outcome: Outcome::Incomplete, line: st.line, used })
    } else {
        Step::Next(
            Progress {
                pos: if delta < 0 {
                    seek_back_pos(reference, spot, a1 as u16)
                } else {
                    spot
                },
                a0: a1,
                color: st.color.flip(),
                start_of_row: false,
                line: st.line.push(a1 as u16),
                used,
            },
        )
    }
}

/// A horizontal mode: two run lengths follow, the first of the current
/// colour; the line changes colour behind each. Where the second run
/// reaches the end of the line, the line ends. The data is invalid where a
/// run length is missing or leads beyond 65535.
pub open spec fn horizontal_step(rest: Seq<bool>, width: u16, st: Progress, used: nat) -> Step {
    let first = run_spec(st.color, rest);
    let second = run_spec(st.color.flip(), rest.skip(first.used as int));
    if first.value is None || second.value is None {
        Step::Done(failed(Outcome::Invalid))
    } else {
        let a1 = st.a0 + first.value.unwrap();
        let a2 = a1 + second.value.unwrap();
        let used2 = used + first.used + second.used;
        if a2 > u16::MAX {
            Step::Done(failed(Outcome::Invalid))
        } else if a2 >= width {
            Step::Done(
                Decoded {
                    outcome: Outcome::Incomplete,
                    line: st.line.push(a1 as u16),
                    used: used2,
                },
            )
        } else {
            Step::Next(
                Progress {
                    a0: a2,
                    start_of_row: false,
                    line: st.line.push(a1 as u16).push(a2 as u16),
                    used: used2,
                    ..st
                },
            )
        }
    }
}

/// Decodes one mode from `stream` and follows it.
#[verifier::opaque]
pub open spec fn g4_step(stream: Seq<bool>, reference: Seq<u16>, width: u16, st: Progress)
    -> Step {
    match mode::decode_spec(stream) {
        None => Step::Done(failed(Outcome::Invalid)),
        Some((m, len)) => {
            let rest = stream.skip(len as int);
            let used = st.used + len;
            match m {
                Mode::Pass => pass_step(reference, st, used),
                Mode::Vertical(delta) => vertical_step(reference, width, st, delta as int, used),
                Mode::Horizontal => horizontal_step(rest, width, st, used),
                Mode::Extension => if rest.len() < 3 {
                    Step::Done(failed(Outcome::Invalid))
                } else {
                    Step::Done(failed(Outcome::Unsupported))
                },
                Mode::EOF => Step::Done(
                    Decoded { outcome: Outcome::End, line: Seq::empty(), used },
                ),
            }
        },
    }
}

/// Decodes the rest of a line of Group 4 data, from the state `st` on,
/// against the reference line `reference`: mode by mode, until one ends the
/// line or `a0` has reached the width. `stream` is the data from the start
/// of the line on.
pub open spec fn g4_steps(stream: Seq<bool>, reference: Seq<u16>, width: u16, st: Progress)
    -> Decoded
    decreases stream.len() - st.used,
{
    if !st.start_of_row && st.a0 >= width {
        Decoded { outcome: Outcome::Incomplete, line: st.line, used: st.used }
    } else if st.used > stream.len() {
        failed(Outcome::Invalid)
    } else {
        let step = g4_step(stream.skip(st.used as int), reference, width, st);
        if step is Next && st.used < step->Next_0.used <= stream.len() {
            g4_steps(stream, reference, width, step->Next_0)
        } else if step is Done {
            step->Done_0
        } else {
            failed(Outcome::Invalid)
        }
    }
}

/// Decodes one line of Group 4 data from `stream`.
pub open spec fn g4_line(stream: Seq<bool>, reference: Seq<u16>, width: u16) -> Decoded {
    g4_steps(stream, reference, width, line_start())
}

/// The code of a mode is at least one bit long and lies within the stream.
pub proof fn lemma_mode_len(stream: Seq<bool>)
    ensures
        mode::decode_spec(stream) matches Some((m, len)) ==> 1 <= len <= stream.len(),
{
    mode::lemma_prefix_free();
    if mode::decode_spec(stream) is Some {
        let i = crate::maps::lookup(mode::codes(), stream).unwrap();
        assert(crate::maps::matching(mode::codes(), stream, i));
        assert(mode::codes()[i]@.len() == mode::codes()[i].len);
    }
}

/// A decoder of Group 4 data that gives one line at a time.
pub struct Group4Decoder<R> {
    reader: R,
    tables: Tables,
    reference: Vec<u16>,
    current: Vec<u16>,
    width: u16,
}

impl<R: BitReader> Group4Decoder<R> {
    /// The decoder can be used.
    pub closed spec fn wf(&self) -> bool {
        self.reader.wf() && self.tables.wf()
    }

    /// The data that has not been decoded yet.
    pub closed spec fn stream(&self) -> Seq<bool> {
        self.reader.stream()
    }

    /// The source of the data cannot fail.
    pub closed spec fn reliable(&self) -> bool {
        self.reader.reliable()
    }

    /// The colour changes of the line decoded last.
    pub closed spec fn reference(&self) -> Seq<u16> {
        self.reference@
    }

    /// The width of the image.
    pub closed spec fn width(&self) -> u16 {
        self.width
    }

    /// A decoder of lines of `width` pels at the start of `reader`. The line
    /// above the first is white.
    pub fn new(reader: R, width: u16) -> (r: Result<Self, R::Error>)
        requires
            reader.wf(),
        ensures
            r matches Ok(d) && d.wf() && d.stream() == reader.stream() && d.reliable()
                == reader.reliable() && d.reference() == Seq::<u16>::empty() && d.width()
                == width,
    {
        Ok(
            Group4Decoder {
                reader,
                tables: Tables::new(),
                reference: Vec::new(),
                current: Vec::new(),
                width,
            },
        )
    }

    /// Decodes the next line. After `Incomplete`, `transition` gives its
    /// colour changes, and it is the reference line of the line that
    /// follows. After `End` no line was decoded. Data that ends where a
    /// mode is due is invalid. Where the source of the data can fail, the
    /// result is owed only as far as it did not.
    #[verifier::rlimit(60)]
    pub fn advance(&mut self) -> (r: Result<DecodeStatus, DecodeError<R::Error>>)
        requires
            old(self).wf(),
        ensures
            final(self).wf(),
            final(self).width() == old(self).width(),
            final(self).reliable() == old(self).reliable(),
            old(self).reliable() && r is Ok ==> final(self).stream().len() < old(
                self,
            ).stream().len(),
            r matches Err(DecodeError::Reader(_)) ==> !old(self).reliable(),
            old(self).reliable() ==> ({
                let d = g4_line(old(self).stream(), old(self).reference(), old(self).width());
                match d.outcome {
                    Outcome::Incomplete => {
                        &&& r matches Ok(DecodeStatus::Incomplete)
                        &&& final(self).reference() == d.line
                        &&& 0 < d.used <= old(self).stream().len()
                        &&& final(self).stream() == old(self).stream().skip(d.used as int)
                    },
                    Outcome::End => {
                        &&& r matches Ok(DecodeStatus::End)
                        &&& final(self).reference() == old(self).reference()
                        &&& final(self).stream() == old(self).stream().skip(d.used as int)
                    },
                    Outcome::Invalid => r matches Err(DecodeError::Invalid),
                    Outcome::Unsupported => r matches Err(DecodeError::Unsupported),
                }
            }),
    {
        self.current.clear();
        let mut transitions = Transitions::new(self.reference.as_slice());
        let mut a0: u16 = 0;
        let mut color = Color::White;
        let mut start_of_row = true;
        let width = self.width;
        let ghost start = self.reader.stream();
        let ghost reference = self.reference@;
        let ghost st = line_start();
        let ghost done = failed(Outcome::Invalid);
        loop
            invariant_except_break
                st.used <= start.len(),
                self.reader.stream() == start.skip(st.used as int),
                start_of_row ==> st == line_start(),
                !start_of_row ==> st.used > 0 && st.a0 < width,
                st.pos == transitions.pos(),
                st.a0 == a0,
                st.color == color,
                st.start_of_row == start_of_row,
                st.line == self.current@,
                g4_steps(start, reference, width, st) == g4_line(start, reference, width),
            invariant
                self.reader.wf(),
                self.tables.wf(),
                self.reader.reliable() == old(self).reader.reliable(),
                self.width == width,
                width == old(self).width,
                self.reference@ == reference,
                reference == old(self).reference@,
                transitions.edges() == reference,
                start == old(self).reader.stream(),
            ensures
                done == g4_line(start, reference, width),
                done.outcome is Incomplete,
                done.line == self.current@,
                0 < done.used <= start.len(),
                self.reader.stream() == start.skip(done.used as int),
            decreases self.reader.stream().len(),
        {
            let ghost before = self.reader.stream();
            let ghost prev = st;
            proof {
                reveal(g4_step);
                lemma_mode_len(before);
                let step = g4_step(before, reference, width, prev);
                assert(g4_steps(start, reference, width, prev) == if step is Next
                    && prev.used < step->Next_0.used <= start.len() {
                    g4_steps(start, reference, width, step->Next_0)
                } else if step is Done {
                    step->Done_0
                } else {
                    failed(Outcome::Invalid)
                });
            }
            let m = match self.tables.decode_mode(&mut self.reader) {
                Some(m) => m,
                None => {
                    return Err(DecodeError::Invalid);
                },
            };
            let ghost len = mode::decode_spec(before).unwrap().1;
            let ghost rest = before.skip(len as int);
            let ghost used = prev.used + len;
            proof {
                assert(start.skip(prev.used as int).skip(len as int) =~= start.skip(used as int));
            }
            match m {
                Mode::Pass => {
                    if start_of_row && color == Color::White {
                        transitions.skip(1);
                    } else {
                        match transitions.next_color(a0, color.invert(), false) {
                            Some(_) => {},
                            None => {
                                return Err(DecodeError::Invalid);
                            },
                        }
                    }
                    match transitions.next() {
                        Some(b2) => {
                            a0 = b2;
                        },
                        None => {},
                    }
                    proof {
                        st = pass_step(reference, prev, used)->Next_0;
                    }
                },
                Mode::Vertical(delta) => {
                    let b1 = match transitions.next_color(a0, color.invert(), start_of_row) {
                        Some(b) => b,
                        None => width,
                    };
                    let a1 = b1 as i32 + delta as i32;
                    if a1 < 0 || a1 >= width as i32 {
                        proof {
                            done = Decoded {
                                outcome: Outcome::Incomplete,
                                line: prev.line,
                                used,
                            };
                        }
                        break ;
                    }
                    let a1 = a1 as u16;
                    self.current.push(a1);
                    color = color.invert();
                    a0 = a1;
                    if delta < 0 {
                        transitions.seek_back(a0);
                    }
                    proof {
                        st = vertical_step(reference, width, prev, delta as int, used)->Next_0;
                    }
                },
                Mode::Horizontal => {
                    let ghost first = run_spec(color, rest);
                    let ghost second = run_spec(color.flip(), rest.skip(first.used as int));
                    proof {
                        lemma_run_used(color, rest, 0);
                        lemma_run_used(color.flip(), rest.skip(first.used as int), 0);
                    }
                    let a0a1 = match read_run(Some(&self.tables), color, &mut self.reader) {
                        Some(n) => n,
                        None => {
                            return Err(DecodeError::Invalid);
                        },
                    };
                    let a1a2 = match read_run(
                        Some(&self.tables),
                        color.invert(),
                        &mut self.reader,
                    ) {
                        Some(n) => n,
                        None => {
                            return Err(DecodeError::Invalid);
                        },
                    };
                    if a0a1 > u16::MAX - a0 || a1a2 > u16::MAX - a0 - a0a1 {
                        return Err(DecodeError::Invalid);
                    }
                    let a1 = a0 + a0a1;
                    let a2 = a1 + a1a2;
                    let ghost used2 = used + first.used + second.used;
                    proof {
                        assert(start.skip(used as int).skip(first.used as int).skip(
                            second.used as int,
                        ) =~= start.skip(used2 as int));
                    }
                    self.current.push(a1);
                    if a2 >= width {
                        proof {
                            done = Decoded {
                                outcome: Outcome::Incomplete,
                                line: prev.line.push(a1),
                                used: used2,
                            };
                        }
                        break ;
                    }
                    self.current.push(a2);
                    a0 = a2;
                    proof {
                        st = horizontal_step(rest, width, prev, used)->Next_0;
                    }
                },
                Mode::Extension => {
                    match self.reader.peek(3) {
                        Some(_) => {
                            let _ = self.reader.consume(3);
                        },
                        None => {
                            return Err(DecodeError::Invalid);
                        },
                    }
                    return Err(DecodeError::Unsupported);
                },
                Mode::EOF => {
                    return Ok(DecodeStatus::End);
                },
            }
            start_of_row = false;
            if a0 >= width {
                proof {
                    done = Decoded { outcome: Outcome::Incomplete, line: st.line, used: st.used };
                }
                break ;
            }
        }
        core::mem::swap(&mut self.reference, &mut self.current);
        self.current.clear();
        Ok(DecodeStatus::Incomplete)
    }

    /// The colour changes of the line decoded last.
    pub fn transition(&self) -> (r: &[u16])
        ensures
            r@ == self.reference(),
    {
        self.reference.as_slice()
    }

    /// The line decoded last.
    pub fn line(&self) -> (r: Line<'_>)
        ensures
            r.transitions@ == self.reference(),
            r.width == self.width(),
    {
        Line { transitions: self.reference.as_slice(), width: self.width }
    }
}


/// The number of end-of-line markers that `stream` starts with, counted up
/// to `max`.
pub open spec fn count_eols(stream: Seq<bool>, max: nat) -> nat
    decreases max,
{
    if max > 0 && eol_bits()@.is_prefix_of(stream) {
        1 + count_eols(stream.skip(12), (max - 1) as nat)
    } else {
        0
    }
}

/// The end of a line of Group 3 data: one end-of-line marker, without
/// which the data is invalid. Five more markers behind it end the data.
pub open spec fn g3_tail(stream: Seq<bool>, line: Seq<u16>, used: nat) -> Decoded {
    let rest = stream.skip(used as int);
    if used > stream.len() || !eol_bits()@.is_prefix_of(rest) {
        failed(Outcome::Invalid)
    } else {
        let k = count_eols(rest.skip(12), 5);
        Decoded {
            outcome: if k == 5 {
                Outcome::End
            } else {
                Outcome::Incomplete
            },
            line,
            used: used + 12 + 12 * k,
        }
    }
}

/// Decodes the rest of a line of Group 3 data: run lengths of alternating
/// colour as long as they come, each ending with a colour change, then the
/// end of the line. `stream` is the data from the start of the line on, of
/// which `used` bits are read. The data is invalid where the runs lead
/// beyond 65535.
pub open spec fn g3_runs(stream: Seq<bool>, a0: int, color: Color, line: Seq<u16>, used: nat)
    -> Decoded
    decreases stream.len() - used,
{
    if used > stream.len() {
        failed(Outcome::Invalid)
    } else {
        let run = run_spec(color, stream.skip(used as int));
        match run.value {
            Some(p) => if a0 + p <= u16::MAX && 0 < run.used && used + run.used <= stream.len() {
                g3_runs(
                    stream,
                    a0 + p,
                    color.flip(),
                    line.push((a0 + p) as u16),
                    used + run.used,
                )
            } else {
                failed(Outcome::Invalid)
            },
            None => g3_tail(stream, line, used + run.used),
        }
    }
}

/// Decodes one line of Group 3 data from `stream`.
pub open spec fn g3_line(stream: Seq<bool>) -> Decoded {
    g3_runs(stream, 0, Color::White, Seq::empty(), 0)
}

/// A decoder of Group 3 data that gives one line at a time.
pub struct Group3Decoder<R> {
    reader: R,
    tables: Tables,
    current: Vec<u16>,
}

impl<R: BitReader> Group3Decoder<R> {
    /// The decoder can be used.
    pub closed spec fn wf(&self) -> bool {
        self.reader.wf() && self.tables.wf()
    }

    /// The data that has not been decoded yet.
    pub closed spec fn stream(&self) -> Seq<bool> {
        self.reader.stream()
    }

    /// The source of the data cannot fail.
    pub closed spec fn reliable(&self) -> bool {
        self.reader.reliable()
    }

    /// The colour changes of the line decoded last.
    pub closed spec fn line(&self) -> Seq<u16> {
        self.current@
    }

    /// A decoder at the start of `reader`, which has to start with an
    /// end-of-line marker.
    pub fn new(reader: R) -> (r: Result<Self, DecodeError<R::Error>>)
        requires
            reader.wf(),
        ensures
            match r {
                Ok(d) => {
                    &&& d.wf()
                    &&& d.reliable() == reader.reliable()
                    &&& eol_bits()@.is_prefix_of(reader.stream())
                    &&& d.stream() == reader.stream().skip(12)
                    &&& d.line() == Seq::<u16>::empty()
                },
                Err(e) => e is Invalid && (reader.reliable() ==> !eol_bits()@.is_prefix_of(
                    reader.stream(),
                )),
            },
    {
        let mut reader = reader;
        proof {
            lemma_eol_canonical();
        }
        match reader.expect(eol()) {
            Ok(()) => Ok(Group3Decoder { reader, tables: Tables::new(), current: Vec::new() }),
            Err(_) => Err(DecodeError::Invalid),
        }
    }

    /// Decodes the next line, of which `transitions` then gives the colour
    /// changes. `End` says that the line was the last.
    pub fn advance(&mut self) -> (r: Result<DecodeStatus, DecodeError<R::Error>>)
        requires
            old(self).wf(),
        ensures
            final(self).wf(),
            final(self).reliable() == old(self).reliable(),
            old(self).reliable() && r is Ok ==> final(self).stream().len() < old(
                self,
            ).stream().len(),
            r matches Err(DecodeError::Reader(_)) ==> !old(self).reliable(),
            !(r matches Err(DecodeError::Unsupported)),
            old(self).reliable() ==> ({
                let d = g3_line(old(self).stream());
                match d.outcome {
                    Outcome::Incomplete => {
                        &&& r matches Ok(DecodeStatus::Incomplete)
                        &&& final(self).line() == d.line
                        &&& 0 < d.used <= old(self).stream().len()
                        &&& final(self).stream() == old(self).stream().skip(d.used as int)
                    },
                    Outcome::End => {
                        &&& r matches Ok(DecodeStatus::End)
                        &&& final(self).line() == d.line
                        &&& final(self).stream() == old(self).stream().skip(d.used as int)
                    },
                    Outcome::Invalid => r matches Err(DecodeError::Invalid),
                    Outcome::Unsupported => false,
                }
            }),
    {
        self.current.clear();
        let mut a0: u16 = 0;
        let mut color = Color::White;
        let ghost start = self.reader.stream();
        let ghost used: nat = 0;
        let ghost exact = true;
        loop
            invariant_except_break
                exact,
                g3_runs(start, a0 as int, color, self.current@, used) == g3_line(start),
            invariant
                self.reader.wf(),
                self.tables.wf(),
                self.reader.reliable() == old(self).reader.reliable(),
                start == old(self).reader.stream(),
                used <= start.len(),
                exact ==> self.reader.stream() == start.skip(used as int),
            ensures
                exact ==> g3_tail(start, self.current@, used) == g3_line(start),
                !exact ==> !old(self).reader.reliable(),
            decreases self.reader.stream().len(),
        {
            let ghost before = self.reader.stream();
            let ghost run = run_spec(color, before);
            proof {
                lemma_run_used(color, before, 0);
            }
            match read_run(Some(&self.tables), color, &mut self.reader) {
                Some(p) => {
                    if p > u16::MAX - a0 {
                        return Err(DecodeError::Invalid);
                    }
                    a0 = a0 + p;
                    self.current.push(a0);
                    color = color.invert();
                    proof {
                        assert(start.skip(used as int).skip(run.used as int) =~= start.skip(
                            (used + run.used) as int,
                        ));
                        used = used + run.used;
                    }
                },
                None => {
                    proof {
                        if old(self).reader.reliable() {
                            assert(start.skip(used as int).skip(run.used as int) =~= start.skip(
                                (used + run.used) as int,
                            ));
                            used = used + run.used;
                        } else {
                            exact = false;
                        }
                    }
                    break ;
                },
            }
        }
        let ghost rest = self.reader.stream();
        proof {
            lemma_eol_canonical();
        }
        match self.reader.expect(eol()) {
            Ok(()) => {},
            Err(_) => {
                return Err(DecodeError::Invalid);
            },
        }
        let mut k: u8 = 0;
        while k < 5
            invariant
                k <= 5,
                self.reader.wf(),
                self.tables.wf(),
                self.reader.reliable() == old(self).reader.reliable(),
                12 + 12 * k <= rest.len(),
                start == old(self).reader.stream(),
                eol_bits()@.is_prefix_of(rest),
                exact ==> g3_tail(start, self.current@, used) == g3_line(start),
                !exact ==> !old(self).reader.reliable(),
                exact ==> rest == start.skip(used as int),
                used <= start.len(),
                self.reader.stream() == rest.skip(12 + 12 * k),
                count_eols(rest.skip(12), 5) == k + count_eols(
                    self.reader.stream(),
                    (5 - k) as nat,
                ),
            decreases 5 - k,
        {
            let ghost here = self.reader.stream();
            match self.reader.peek(12) {
                Some(v) => {
                    proof {
                        lemma_eol_canonical();
                        let seen = Bits { data: v, len: 12 };
                        if seen@ == eol_bits()@ {
                            lemma_bits_determined(seen, eol_bits());
                        }
                        assert(eol_bits()@.is_prefix_of(here) <==> v == 1);
                    }
                    if v != 1 {
                        return Ok(DecodeStatus::Incomplete);
                    }
                    match self.reader.consume(12) {
                        Ok(()) => {},
                        Err(e) => {
                            return Err(DecodeError::Reader(e));
                        },
                    }
                    proof {
                        assert(rest.skip(12 + 12 * k).skip(12) =~= rest.skip(12 + 12 * (k + 1)));
                    }
                },
                None => {
                    return Ok(DecodeStatus::Incomplete);
                },
            }
            k = k + 1;
        }
        Ok(DecodeStatus::End)
    }

    /// The colour changes of the line decoded last.
    pub fn transitions(&self) -> (r: &[u16])
        ensures
            r@ == self.line(),
    {
        self.current.as_slice()
    }
}

/// The lines as sequences.
pub open spec fn views(lines: Seq<Vec<u16>>) -> Seq<Seq<u16>> {
    Seq::new(lines.len(), |i: int| lines[i]@)
}

/// What decoding gives: the lines decoded, and whether decoding ended well.
pub struct Lines {
    pub lines: Seq<Seq<u16>>,
    pub ok: bool,
}

/// Decodes lines of Group 3 data until the one that `End` comes with, which
/// is left out. Decoding fails at the first line that is invalid.
pub open spec fn g3_lines(stream: Seq<bool>) -> Lines
    decreases stream.len(),
{
    let d = g3_line(stream);
    match d.outcome {
        Outcome::Incomplete => if 0 < d.used <= stream.len() {
            let rest = g3_lines(stream.skip(d.used as int));
            Lines { lines: seq![d.line] + rest.lines, ok: rest.ok }
        } else {
            Lines { lines: Seq::empty(), ok: false }
        },
        Outcome::End => Lines { lines: Seq::empty(), ok: true },
        _ => Lines { lines: Seq::empty(), ok: false },
    }
}

/// Decodes Group 3 data: an end-of-line marker, then lines.
pub open spec fn g3_spec(stream: Seq<bool>) -> Lines {
    if eol_bits()@.is_prefix_of(stream) {
        g3_lines(stream.skip(12))
    } else {
        Lines { lines: Seq::empty(), ok: false }
    }
}

/// Decodes at most `max` lines of Group 4 data, each against the line
/// before it. Decoding ends well after `max` lines or at an end-of-block
/// code, and fails at the first line that is invalid.
pub open spec fn g4_lines(stream: Seq<bool>, reference: Seq<u16>, width: u16, max: nat) -> Lines
    decreases max,
{
    if max == 0 {
        Lines { lines: Seq::empty(), ok: true }
    } else {
        let d = g4_line(stream, reference, width);
        match d.outcome {
            Outcome::Incomplete => {
                let rest = g4_lines(stream.skip(d.used as int), d.line, width, (max - 1) as nat);
                Lines { lines: seq![d.line] + rest.lines, ok: rest.ok }
            },
            Outcome::End => Lines { lines: Seq::empty(), ok: true },
            _ => Lines { lines: Seq::empty(), ok: false },
        }
    }
}

fn copy_line(line: &[u16]) -> (r: Vec<u16>)
    ensures
        r@ == line@,
{
    let mut out: Vec<u16> = Vec::new();
    let mut i: usize = 0;
    while i < line.len()
        invariant
            i <= line@.len(),
            out@ == line@.take(i as int),
        decreases line@.len() - i,
    {
        out.push(line[i]);
        proof {
            assert(line@.take(i as int).push(line@[i as int]) =~= line@.take(i + 1));
        }
        i = i + 1;
    }
    proof {
        assert(line@.take(i as int) =~= line@);
    }
    out
}

/// Decodes a Group 3 image. The colour changes of each line are appended
/// to `lines`, those of the last line before the end of the data excepted.
/// `None` says that the data was invalid; the lines decoded before that
/// stay in `lines`.
pub fn decode_g3(input: &[u8], lines: &mut Vec<Vec<u16>>) -> (r: Option<()>)
    ensures
        views(final(lines)@) == views(old(lines)@) + g3_spec(crate::bits::byte_bits(input@)).lines,
        r is Some <==> g3_spec(crate::bits::byte_bits(input@)).ok,
{
    let reader = ByteReader::new(input);
    let ghost all = reader.stream();
    let mut decoder = match Group3Decoder::new(reader) {
        Ok(d) => d,
        Err(_) => {
            proof {
                assert(views(lines@) =~= views(old(lines)@) + Seq::<Seq<u16>>::empty());
            }
            return None;
        },
    };
    let ghost total = g3_spec(all);
    loop
        invariant
            decoder.wf(),
            decoder.reliable(),
            total == g3_spec(crate::bits::byte_bits(input@)),
            views(lines@) + g3_lines(decoder.stream()).lines == views(old(lines)@) + total.lines,
            g3_lines(decoder.stream()).ok == total.ok,
        decreases decoder.stream().len(),
    {
        let ghost before = decoder.stream();
        let ghost d = g3_line(before);
        match decoder.advance() {
            Ok(DecodeStatus::End) => {
                proof {
                    assert(views(lines@) + Seq::<Seq<u16>>::empty() =~= views(lines@));
                }
                return Some(());
            },
            Ok(DecodeStatus::Incomplete) => {
                let line = copy_line(decoder.transitions());
                let ghost prior = lines@;
                lines.push(line);
                proof {
                    let rest = g3_lines(decoder.stream());
                    assert(views(lines@) =~= views(prior).push(d.line));
                    assert(views(prior).push(d.line) + rest.lines =~= views(prior) + (seq![
                        d.line,
                    ] + rest.lines));
                }
            },
            Err(_) => {
                proof {
                    assert(views(lines@) + Seq::<Seq<u16>>::empty() =~= views(lines@));
                }
                return None;
            },
        }
    }
}

/// Decodes a Group 4 image of lines of `width` pels. The colour changes of
/// each line are appended to `lines`. With a `height`, at most that many
/// lines are decoded; without one, decoding goes on to the end-of-block
/// code, for 65535 lines at most. `None` says that the data was invalid,
/// as is data that ends within a line or, where more lines are asked for,
/// without an end-of-block code; the lines decoded before that stay in
/// `lines`.
pub fn decode_g4(input: &[u8], width: u16, height: Option<u16>, lines: &mut Vec<Vec<u16>>) -> (r:
    Option<()>)
    ensures
        views(final(lines)@) == views(old(lines)@) + g4_lines(
            crate::bits::byte_bits(input@),
            Seq::empty(),
            width,
            match height {
                Some(h) => h as nat,
                None => u16::MAX as nat,
            },
        ).lines,
        r is Some <==> g4_lines(
            crate::bits::byte_bits(input@),
            Seq::empty(),
            width,
            match height {
                Some(h) => h as nat,
                None => u16::MAX as nat,
            },
        ).ok,
{
    let reader = ByteReader::new(input);
    let max = match height {
        Some(h) => h,
        None => u16::MAX,
    };
    let ghost total = g4_lines(reader.stream(), Seq::empty(), width, max as nat);
    let mut decoder = match Group4Decoder::new(reader, width) {
        Ok(d) => d,
        Err(_) => {
            return None;
        },
    };
    let mut y: u16 = 0;
    while y < max
        invariant
            y <= max,
            decoder.wf(),
            decoder.reliable(),
            decoder.width() == width,
            total == g4_lines(
                crate::bits::byte_bits(input@),
                Seq::empty(),
                width,
                match height {
                    Some(h) => h as nat,
                    None => u16::MAX as nat,
                },
            ),
            views(lines@) + g4_lines(
                decoder.stream(),
                decoder.reference(),
                width,
                (max - y) as nat,
            ).lines == views(old(lines)@) + total.lines,
            g4_lines(decoder.stream(), decoder.reference(), width, (max - y) as nat).ok
                == total.ok,
        decreases max - y,
    {
        let ghost before = decoder.stream();
        let ghost d = g4_line(before, decoder.reference(), width);
        match decoder.advance() {
            Ok(DecodeStatus::End) => {
                proof {
                    assert(views(lines@) + Seq::<Seq<u16>>::empty() =~= views(lines@));
                }
                return Some(());
            },
            Ok(DecodeStatus::Incomplete) => {
                let line = copy_line(decoder.transition());
                let ghost prior = lines@;
                lines.push(line);
                proof {
                    let rest = g4_lines(
                        decoder.stream(),
                        decoder.reference(),
                        width,
                        (max - y - 1) as nat,
                    );
                    assert(views(lines@) =~= views(prior).push(d.line));
                    assert(views(prior).push(d.line) + rest.lines =~= views(prior) + (seq![
                        d.line,
                    ] + rest.lines));
                }
            },
            Err(_) => {
                proof {
                    assert(views(lines@) + Seq::<Seq<u16>>::empty() =~= views(lines@));
                }
                return None;
            },
        }
        y = y + 1;
    }
    proof {
        assert(views(lines@) + Seq::<Seq<u16>>::empty() =~= views(lines@));
    }
    Some(())
}

} // verus!
