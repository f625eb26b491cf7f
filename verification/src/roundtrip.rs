//! What is encoded can be decoded: the laws that tie the encoder to the
//! decoder.
use vstd::prelude::*;
use crate::decoder::{
    expand, g4_line, g4_lines, g4_step, g4_steps, horizontal_step, line_start, pass_step,
    pels_spec, run_code, run_color, run_from, run_len, run_spec, vertical_b1, vertical_step,
    Decoded, Outcome, Progress, Run, Step,
};
use crate::encoder::{
    b1_pos, change_or, changes, choose_mode, closer, cursor_start, encoded, end_of_block,
    find_b1, find_b2, image_bits, image_changes, increasing, lemma_b2_after_a0,
    lemma_changes_increasing, line_bits, line_bits_from, next_a1, run_bits, run_code_bits,
    step_bits, step_next, Cursor,
};
use crate::maps::{black, eol_bits, is_run_value, mode, run_index, white, Mode};
use crate::transitions::{
    color_index, color_pos, edge, first_after, lemma_first_after, lemma_rewind,
    seek_back_pos,
};
use crate::Color;

verus! {

/// The code of a run length is at least one bit long, and a stream that
/// starts with it is decoded to the run length.
pub proof fn lemma_run_code(color: Color, val: u16, rest: Seq<bool>)
    requires
        is_run_value(val as int),
    ensures
        1 <= run_code_bits(color, val as int).len() <= 13,
        run_code(color, run_code_bits(color, val as int) + rest) == Some(
            (val, run_code_bits(color, val as int).len()),
        ),
{
    black::lemma_prefix_free();
    white::lemma_prefix_free();
    let i = run_index(val as int);
    match color {
        Color::Black => {
            assert(black::codes()[i]@.len() == black::codes()[i].len);
            black::lemma_decode_encode(val, rest);
        },
        Color::White => {
            assert(white::codes()[i]@.len() == white::codes()[i].len);
            white::lemma_decode_encode(val, rest);
        },
    }
}

/// The codes of a run, followed by anything, are decoded to the length of
/// the run, and the decoder stops behind them.
pub proof fn lemma_run_from(color: Color, n: int, rest: Seq<bool>, sum: int)
    requires
        0 <= n,
        0 <= sum,
        sum + n <= u16::MAX,
    ensures
        run_from(color, run_bits(color, n) + rest, sum) == (Run {
            value: Some((sum + n) as u16),
            used: run_bits(color, n).len(),
        }),
    decreases n,
{
    if n >= 2560 {
        let code = run_code_bits(color, 2560);
        let tail = run_bits(color, n - 2560) + rest;
        lemma_run_code(color, 2560, tail);
        assert(run_bits(color, n) + rest =~= code + tail);
        assert((code + tail).skip(code.len() as int) =~= tail);
        lemma_run_from(color, n - 2560, rest, sum + 2560);
        assert(run_from(color, tail, sum + 2560) == (Run {
            value: Some((sum + n) as u16),
            used: run_bits(color, n - 2560).len(),
        }));
        assert(run_bits(color, n).len() == code.len() + run_bits(color, n - 2560).len());
    } else if n >= 64 {
        let d = n - n % 64;
        let code = run_code_bits(color, d);
        let last = run_code_bits(color, n % 64);
        let tail = last + rest;
        lemma_run_code(color, d as u16, tail);
        lemma_run_code(color, (n % 64) as u16, rest);
        assert(run_bits(color, n) + rest =~= code + tail);
        assert((code + tail).skip(code.len() as int) =~= tail);
        assert(run_from(color, tail, sum + d) == (Run {
            value: Some((sum + n) as u16),
            used: last.len(),
        }));
        assert(run_bits(color, n).len() == code.len() + last.len());
    } else {
        lemma_run_code(color, n as u16, rest);
    }
}

/// A run of any length up to 65535 pels survives encoding and decoding.
pub proof fn lemma_run_round_trip(color: Color, n: u16, rest: Seq<bool>)
    ensures
        run_spec(color, run_bits(color, n as int) + rest) == (Run {
            value: Some(n),
            used: run_bits(color, n as int).len(),
        }),
{
    lemma_run_from(color, n as int, rest, 0);
}


/// The reference line of the decoder is that of the encoder, or that with
/// the width behind it: a change at the width, which the decoder notes
/// where a run ends the line, shows in no pel.
pub open spec fn follows(theirs: Seq<u16>, ours: Seq<u16>, width: u16) -> bool {
    theirs == ours || theirs == ours.push(width)
}

/// Every change before the cursor lies at or before `a0`.
pub open spec fn behind(edges: Seq<u16>, pos: int, a0: int) -> bool {
    0 <= pos && forall|j: int| 0 <= j < pos && j < edges.len() ==> #[trigger] edges[j] <= a0
}

/// The decoder is where the encoder is: at the same position with the same
/// colour, and its cursor in the reference line has passed no change that
/// lies to the right of `a0`.
pub open spec fn synced(edges: Seq<u16>, enc: Cursor, dec: Progress) -> bool {
    &&& enc.a0 == dec.a0
    &&& enc.color == dec.color
    &&& enc.start_of_line == dec.start_of_row
    &&& 0 <= enc.pos
    &&& 0 <= enc.a0
    &&& enc.start_of_line ==> enc.a0 == 0 && enc.color == Color::White && dec.pos == 0
    &&& !enc.start_of_line ==> behind(edges, dec.pos, enc.a0)
}

/// A scan that starts behind changes that do not lie to the right of `a0`
/// finds what a scan from the first change finds.
proof fn lemma_scan_from(edges: Seq<u16>, pos: int, a0: u16)
    requires
        behind(edges, pos, a0 as int),
        pos <= edges.len(),
    ensures
        first_after(edges, pos, a0) == first_after(edges, 0, a0),
    decreases pos,
{
    if pos > 0 {
        lemma_scan_from(edges, pos - 1, a0);
        assert(edges[pos - 1] <= a0);
    }
}

/// In an increasing line, the encoder's scan starts behind changes that do
/// not lie to the right of `a0`.
proof fn lemma_seek_back_behind(edges: Seq<u16>, pos: int, a0: u16, bound: int)
    requires
        increasing(edges, bound),
        0 <= pos,
    ensures
        behind(edges, seek_back_pos(edges, pos, a0), a0 as int),
        seek_back_pos(edges, pos, a0) <= edges.len(),
{
    let p = seek_back_pos(edges, pos, a0);
    if edges.len() > 0 {
        if pos >= edges.len() {
            lemma_rewind(edges, edges.len() - 1, a0);
        } else {
            lemma_rewind(edges, pos, a0);
        }
        assert forall|j: int| 0 <= j < p && j < edges.len() implies #[trigger] edges[j]
            <= a0 by {
            if j < p - 1 {
                assert(edges[j] < edges[p - 1]);
            }
        }
    }
}

/// The line of the decoder is in increasing order too, up to the width.
proof fn lemma_follows_increasing(theirs: Seq<u16>, ours: Seq<u16>, width: u16)
    requires
        follows(theirs, ours, width),
        increasing(ours, width as int),
    ensures
        increasing(theirs, width + 1),
        forall|j: int| 0 <= j < ours.len() ==> theirs[j] == ours[j],
        ours.len() <= theirs.len() <= ours.len() + 1,
        theirs.len() > ours.len() ==> theirs[ours.len() as int] == width,
{
}

/// The index of the first change to the right of `a0`, in the reference
/// line of the encoder and in that of the decoder.
proof fn lemma_first_same(theirs: Seq<u16>, ours: Seq<u16>, width: u16, a0: u16)
    requires
        follows(theirs, ours, width),
        increasing(ours, width as int),
        a0 < width,
    ensures
        first_after(theirs, 0, a0) == first_after(ours, 0, a0),
        0 <= first_after(ours, 0, a0) <= ours.len(),
        forall|j: int| 0 <= j < first_after(ours, 0, a0) ==> #[trigger] ours[j] <= a0,
        first_after(ours, 0, a0) < ours.len() ==> ours[first_after(ours, 0, a0)] > a0,
{
    lemma_first_after(ours, 0, a0);
    lemma_first_after(theirs, 0, a0);
    lemma_follows_increasing(theirs, ours, width);
    let q = first_after(ours, 0, a0);
    let r = first_after(theirs, 0, a0);
    if r < q {
        assert(theirs[r] > a0);
        assert(ours[r] <= a0);
    }
    if q < r {
        if q < ours.len() {
            assert(theirs[q] <= a0);
        } else {
            assert(theirs[q] <= a0);
        }
    }
}

/// The decoder finds the `b1` that the encoder found, and where that is a
/// change of the reference line, its cursor stands behind it.
pub proof fn lemma_same_b1(
    theirs: Seq<u16>,
    ours: Seq<u16>,
    width: u16,
    enc: Cursor,
    dec: Progress,
)
    requires
        follows(theirs, ours, width),
        increasing(ours, width as int),
        synced(theirs, enc, dec),
        enc.a0 < width,
    ensures
        vertical_b1(theirs, width, dec) == find_b1(ours, width, enc),
        find_b1(ours, width, enc) <= width,
        !enc.start_of_line ==> enc.a0 < find_b1(ours, width, enc),
        0 <= b1_pos(ours, enc),
        ({
            let t = color_index(
                theirs,
                dec.pos,
                dec.a0 as u16,
                dec.color.flip(),
                dec.start_of_row,
            );
            let spot = color_pos(
                theirs,
                dec.pos,
                dec.a0 as u16,
                dec.color.flip(),
                dec.start_of_row,
            );
            &&& 0 <= t
            &&& 0 <= spot
            &&& find_b1(ours, width, enc) < width ==> {
                &&& t == color_index(
                    ours,
                    seek_back_pos(ours, enc.pos, enc.a0 as u16),
                    enc.a0 as u16,
                    enc.color.flip(),
                    enc.start_of_line,
                )
                &&& t < ours.len()
                &&& ours[t] == find_b1(ours, width, enc)
                &&& spot == t + 1
                &&& b1_pos(ours, enc) == t + 1
            }
        }),
{
    lemma_follows_increasing(theirs, ours, width);
    let a0 = enc.a0 as u16;
    if !enc.start_of_line {
        let start_pos = seek_back_pos(ours, enc.pos, a0);
        lemma_seek_back_behind(ours, enc.pos, a0, width as int);
        lemma_first_after(ours, start_pos, a0);
        lemma_scan_from(ours, start_pos, a0);
        lemma_first_same(theirs, ours, width, a0);
        let q = first_after(ours, 0, a0);
        lemma_first_after(theirs, dec.pos, a0);
        if dec.pos <= theirs.len() {
            lemma_scan_from(theirs, dec.pos, a0);
        } else {
            // The cursor is beyond the line, and so is every change at or
            // before `a0`.
            assert(first_after(theirs, dec.pos, a0) == dec.pos);
            if q < theirs.len() {
                lemma_first_after(theirs, 0, a0);
                assert(theirs[q] <= a0);
            }
        }
    }
}


/// The encoder is within a line, and the decoder is where the encoder is.
#[verifier::opaque]
pub open spec fn stepping(
    theirs: Seq<u16>,
    ours: Seq<u16>,
    line: Seq<u16>,
    width: u16,
    enc: Cursor,
    dec: Progress,
) -> bool {
    &&& follows(theirs, ours, width)
    &&& increasing(ours, width as int)
    &&& increasing(line, width as int)
    &&& synced(theirs, enc, dec)
    &&& enc.a0 < width
    &&& 0 <= enc.taken <= line.len()
    &&& enc.taken < line.len() ==> enc.a0 <= line[enc.taken]
    &&& enc.start_of_line ==> enc.taken == 0
    &&& dec.line == line.take(enc.taken)
}

/// What the decoder makes of the bits of one mode of the encoder: it goes
/// on where the encoder goes on, in step with it, and ends the line where
/// the encoder ends it, with the colour changes of the line, to which the
/// width is added where a run ends the line at the width.
pub open spec fn in_step(
    theirs: Seq<u16>,
    ours: Seq<u16>,
    line: Seq<u16>,
    width: u16,
    enc: Cursor,
    dec: Progress,
    tail: Seq<bool>,
) -> bool {
    let bits = step_bits(ours, line, width, enc);
    let next = step_next(ours, line, width, enc);
    &&& closer(line, width, enc, next)
    &&& bits.len() >= 1
    &&& match g4_step(bits + tail, theirs, width, dec) {
        Step::Next(after) => {
            &&& stepping(theirs, ours, line, width, next, after)
            &&& !after.start_of_row
            &&& after.used == dec.used + bits.len()
        },
        Step::Done(d) => {
            &&& next.a0 >= width
            &&& d.outcome is Incomplete
            &&& d.used == dec.used + bits.len()
            &&& follows(d.line, line, width)
        },
    }
}

/// The code of a mode, followed by anything, is decoded to the mode.
proof fn lemma_mode_code(m: Mode, rest: Seq<bool>)
    requires
        mode::encode_spec(m) is Some,
    ensures
        mode::encode_spec(m).unwrap()@.len() >= 1,
        mode::decode_spec(mode::encode_spec(m).unwrap()@ + rest) == Some(
            (m, mode::encode_spec(m).unwrap()@.len()),
        ),
        (mode::encode_spec(m).unwrap()@ + rest).skip(
            mode::encode_spec(m).unwrap()@.len() as int,
        ) == rest,
{
    mode::lemma_prefix_free();
    mode::lemma_decode_encode(m, rest);
    let code = mode::encode_spec(m).unwrap();
    assert(code@.len() == code.len);
    assert((code@ + rest).skip(code@.len() as int) =~= rest);
}

/// The decoder follows a pass mode of the encoder.
proof fn lemma_step_pass(
    theirs: Seq<u16>,
    ours: Seq<u16>,
    line: Seq<u16>,
    width: u16,
    enc: Cursor,
    dec: Progress,
    tail: Seq<bool>,
)
    requires
        stepping(theirs, ours, line, width, enc, dec),
        choose_mode(ours, line, width, enc) == Mode::Pass,
    ensures
        in_step(theirs, ours, line, width, enc, dec, tail),
{
    reveal(stepping);
    reveal(g4_step);
    let bits = step_bits(ours, line, width, enc);
    let next = step_next(ours, line, width, enc);
    lemma_mode_code(Mode::Pass, tail);
    lemma_same_b1(theirs, ours, width, enc, dec);
    lemma_follows_increasing(theirs, ours, width);
    let b2 = find_b2(ours, enc).unwrap();
    lemma_b2_after_a0(ours, enc);
    let spot = b1_pos(ours, enc);
    assert(edge(ours, spot) == Some(b2));
    assert(0 <= spot < ours.len());
    let used = dec.used + bits.len();
    let step = pass_step(theirs, dec, used);
    assert(g4_step(bits + tail, theirs, width, dec) == step);
    if enc.start_of_line {
        assert(spot == 1);
    } else {
        assert(find_b1(ours, width, enc) < width) by {
            let t = color_index(
                ours,
                seek_back_pos(ours, enc.pos, enc.a0 as u16),
                enc.a0 as u16,
                enc.color.flip(),
                false,
            );
            assert(t < ours.len());
        }
    }
    let after = step->Next_0;
    assert(step is Next);
    assert(after.a0 == b2);
    assert(after.pos == spot + 1);
    assert(behind(theirs, spot + 1, b2 as int)) by {
        assert forall|j: int| 0 <= j < spot + 1 && j < theirs.len() implies #[trigger] theirs[j]
            <= b2 by {
            if j < spot {
                assert(theirs[j] < theirs[spot]);
            }
        }
    }
}

/// The decoder follows a vertical mode of the encoder.
proof fn lemma_step_vertical(
    theirs: Seq<u16>,
    ours: Seq<u16>,
    line: Seq<u16>,
    width: u16,
    enc: Cursor,
    dec: Progress,
    tail: Seq<bool>,
)
    requires
        stepping(theirs, ours, line, width, enc, dec),
        choose_mode(ours, line, width, enc) is Vertical,
    ensures
        in_step(theirs, ours, line, width, enc, dec, tail),
{
    reveal(stepping);
    reveal(g4_step);
    let bits = step_bits(ours, line, width, enc);
    let next = step_next(ours, line, width, enc);
    let a1 = next_a1(line, width, enc);
    let b1 = find_b1(ours, width, enc);
    let delta = (a1 - b1) as i8;
    let m = Mode::Vertical(delta);
    assert(choose_mode(ours, line, width, enc) == m);
    lemma_mode_code(m, tail);
    lemma_same_b1(theirs, ours, width, enc, dec);
    lemma_follows_increasing(theirs, ours, width);
    let used = dec.used + bits.len();
    let step = vertical_step(theirs, width, dec, delta as int, used);
    assert(g4_step(bits + tail, theirs, width, dec) == step);
    assert(vertical_b1(theirs, width, dec) + delta == a1);
    if a1 < width {
        assert(enc.taken < line.len());
        assert(a1 == line[enc.taken]);
        let after = step->Next_0;
        assert(after.line =~= line.take(enc.taken + 1));
        let spot = color_pos(theirs, dec.pos, dec.a0 as u16, dec.color.flip(), dec.start_of_row);
        if delta < 0 {
            lemma_seek_back_behind(theirs, spot, a1 as u16, width + 1);
        } else {
            let t = color_index(
                theirs,
                dec.pos,
                dec.a0 as u16,
                dec.color.flip(),
                dec.start_of_row,
            );
            assert(b1 < width);
            assert(spot == t + 1);
            assert forall|j: int| 0 <= j < spot && j < theirs.len() implies #[trigger] theirs[j]
                <= a1 by {
                if j < t {
                    assert(theirs[j] < theirs[t]);
                }
            }
        }
        if enc.taken + 1 < line.len() {
            assert(line[enc.taken] < line[enc.taken + 1]);
        }
    } else {
        assert(enc.taken == line.len());
        assert(dec.line =~= line);
    }
}

/// What the decoder reads behind the code of a horizontal mode: the two
/// runs that the encoder wrote.
proof fn lemma_two_runs(color: Color, n: u16, m: u16, tail: Seq<bool>)
    ensures
        ({
            let first = run_bits(color, n as int);
            let second = run_bits(color.flip(), m as int);
            let rest = first + (second + tail);
            &&& run_spec(color, rest) == (Run { value: Some(n), used: first.len() })
            &&& run_spec(color.flip(), rest.skip(first.len() as int)) == (Run {
                value: Some(m),
                used: second.len(),
            })
        }),
{
    let first = run_bits(color, n as int);
    let second = run_bits(color.flip(), m as int);
    let rest = first + (second + tail);
    lemma_run_round_trip(color, n, second + tail);
    lemma_run_round_trip(color.flip(), m, tail);
    assert(rest.skip(first.len() as int) =~= second + tail);
}

/// The decoder follows a horizontal mode of the encoder.
#[verifier::rlimit(40)]
proof fn lemma_step_horizontal(
    theirs: Seq<u16>,
    ours: Seq<u16>,
    line: Seq<u16>,
    width: u16,
    enc: Cursor,
    dec: Progress,
    tail: Seq<bool>,
)
    requires
        stepping(theirs, ours, line, width, enc, dec),
        choose_mode(ours, line, width, enc) == Mode::Horizontal,
    ensures
        in_step(theirs, ours, line, width, enc, dec, tail),
{
    reveal(stepping);
    reveal(g4_step);
    let bits = step_bits(ours, line, width, enc);
    let next = step_next(ours, line, width, enc);
    let a1 = next_a1(line, width, enc);
    let a2 = change_or(line, enc.taken + 1, width);
    let code = mode::encode_spec(Mode::Horizontal).unwrap()@;
    let first = run_bits(enc.color, a1 - enc.a0);
    let second = run_bits(enc.color.flip(), a2 - a1);
    let rest = first + (second + tail);
    assert(enc.a0 <= a1 <= a2 <= width) by {
        if enc.taken + 1 < line.len() {
            assert(line[enc.taken] < line[enc.taken + 1]);
        }
    }
    lemma_same_b1(theirs, ours, width, enc, dec);
    lemma_mode_code(Mode::Horizontal, rest);
    assert(bits == code + first + second);
    assert(bits + tail =~= code + rest);
    assert(bits.len() == code.len() + first.len() + second.len());
    lemma_two_runs(enc.color, (a1 - enc.a0) as u16, (a2 - a1) as u16, tail);
    let used = dec.used + code.len();
    let step = horizontal_step(rest, width, dec, used);
    assert(g4_step(bits + tail, theirs, width, dec) == step);
    let used2 = (used + first.len() + second.len()) as nat;
    if a2 < width {
        assert(enc.taken + 1 < line.len());
        assert(a1 == line[enc.taken] && a2 == line[enc.taken + 1]);
        let after = Progress {
            a0: a2,
            start_of_row: false,
            line: dec.line.push(a1 as u16).push(a2 as u16),
            used: used2,
            ..dec
        };
        assert(step == Step::Next(after));
        assert(after.line =~= line.take(enc.taken + 2));
        if enc.taken + 2 < line.len() {
            assert(line[enc.taken + 1] < line[enc.taken + 2]);
        }
        assert(next.a0 == a2 && next.taken == enc.taken + 2 && next.color == enc.color);
        assert(behind(theirs, after.pos, a2));
    } else {
        let d = Decoded {
            outcome: Outcome::Incomplete,
            line: dec.line.push(a1 as u16),
            used: used2,
        };
        assert(step == Step::Done(d));
        if a1 < width {
            assert(d.line =~= line);
        } else {
            assert(d.line =~= line.push(width));
        }
    }
}

/// The decoder follows each mode of the encoder.
pub proof fn lemma_step(
    theirs: Seq<u16>,
    ours: Seq<u16>,
    line: Seq<u16>,
    width: u16,
    enc: Cursor,
    dec: Progress,
    tail: Seq<bool>,
)
    requires
        stepping(theirs, ours, line, width, enc, dec),
    ensures
        in_step(theirs, ours, line, width, enc, dec, tail),
{
    match choose_mode(ours, line, width, enc) {
        Mode::Pass => lemma_step_pass(theirs, ours, line, width, enc, dec, tail),
        Mode::Horizontal => lemma_step_horizontal(theirs, ours, line, width, enc, dec, tail),
        _ => lemma_step_vertical(theirs, ours, line, width, enc, dec, tail),
    }
}


/// Where the encoder is within a line, so is the decoder.
proof fn lemma_stepping_within(
    theirs: Seq<u16>,
    ours: Seq<u16>,
    line: Seq<u16>,
    width: u16,
    enc: Cursor,
    dec: Progress,
)
    requires
        stepping(theirs, ours, line, width, enc, dec),
    ensures
        dec.a0 == enc.a0,
        0 <= enc.a0 < width,
        0 <= enc.taken <= line.len(),
{
    reveal(stepping);
    reveal(g4_step);
}

/// What the rest of a line is decoded to, after one mode.
proof fn lemma_steps_unfold(stream: Seq<bool>, theirs: Seq<u16>, width: u16, dec: Progress)
    requires
        dec.a0 < width,
        dec.used <= stream.len(),
    ensures
        g4_steps(stream, theirs, width, dec) == match g4_step(
            stream.skip(dec.used as int),
            theirs,
            width,
            dec,
        ) {
            Step::Next(after) => if dec.used < after.used <= stream.len() {
                g4_steps(stream, theirs, width, after)
            } else {
                crate::decoder::failed(Outcome::Invalid)
            },
            Step::Done(d) => d,
        },
{
}

/// The bits of the rest of a line: those of one mode, then the others.
proof fn lemma_bits_unfold(ours: Seq<u16>, line: Seq<u16>, width: u16, enc: Cursor)
    requires
        enc.a0 < width,
        closer(line, width, enc, step_next(ours, line, width, enc)),
    ensures
        line_bits_from(ours, line, width, enc) == step_bits(ours, line, width, enc)
            + line_bits_from(ours, line, width, step_next(ours, line, width, enc)),
        step_next(ours, line, width, enc).a0 >= width ==> line_bits_from(
            ours,
            line,
            width,
            step_next(ours, line, width, enc),
        ) == Seq::<bool>::empty(),
{
}

/// The decoder follows the encoder to the end of the line.
proof fn lemma_line_from(
    theirs: Seq<u16>,
    ours: Seq<u16>,
    line: Seq<u16>,
    width: u16,
    enc: Cursor,
    dec: Progress,
    stream: Seq<bool>,
    tail: Seq<bool>,
)
    requires
        stepping(theirs, ours, line, width, enc, dec),
        dec.used <= stream.len(),
        stream.skip(dec.used as int) == line_bits_from(ours, line, width, enc) + tail,
    ensures
        g4_steps(stream, theirs, width, dec).outcome is Incomplete,
        follows(g4_steps(stream, theirs, width, dec).line, line, width),
        g4_steps(stream, theirs, width, dec).used == dec.used + line_bits_from(
            ours,
            line,
            width,
            enc,
        ).len(),
    decreases width - enc.a0, line.len() - enc.taken,
{
    let bits = step_bits(ours, line, width, enc);
    let next = step_next(ours, line, width, enc);
    let more = line_bits_from(ours, line, width, next);
    let here = stream.skip(dec.used as int);
    lemma_stepping_within(theirs, ours, line, width, enc, dec);
    lemma_step(theirs, ours, line, width, enc, dec, more + tail);
    lemma_bits_unfold(ours, line, width, enc);
    lemma_steps_unfold(stream, theirs, width, dec);
    assert(here == bits + more + tail);
    assert(here =~= bits + (more + tail));
    assert(here.len() == stream.len() - dec.used);
    assert(here.len() == bits.len() + more.len() + tail.len());
    let step = g4_step(here, theirs, width, dec);
    match step {
        Step::Next(after) => {
            lemma_stepping_within(theirs, ours, line, width, next, after);
            assert(after.used == dec.used + bits.len());
            assert(here.skip(bits.len() as int) =~= more + tail);
            assert(here.skip(bits.len() as int) =~= stream.skip(after.used as int));
            lemma_line_from(theirs, ours, line, width, next, after, stream, tail);
        },
        Step::Done(d) => {},
    }
}

/// A line survives encoding and decoding: from the bits of a line, followed
/// by anything, the decoder gets the colour changes of the line, to which
/// the width is added where a run ends the line at the width; and it stops
/// behind the bits of the line.
pub proof fn lemma_line_round_trip(
    theirs: Seq<u16>,
    ours: Seq<u16>,
    line: Seq<u16>,
    width: u16,
    tail: Seq<bool>,
)
    requires
        width >= 1,
        follows(theirs, ours, width),
        increasing(ours, width as int),
        increasing(line, width as int),
    ensures
        g4_line(line_bits(ours, line, width) + tail, theirs, width).outcome is Incomplete,
        follows(g4_line(line_bits(ours, line, width) + tail, theirs, width).line, line, width),
        g4_line(line_bits(ours, line, width) + tail, theirs, width).used == line_bits(
            ours,
            line,
            width,
        ).len(),
        line_bits(ours, line, width).len() >= 1,
{
    reveal(stepping);
    reveal(g4_step);
    let stream = line_bits(ours, line, width) + tail;
    let enc = cursor_start();
    let dec = line_start();
    assert(dec.line =~= line.take(0));
    assert(stream.skip(0) =~= stream);
    lemma_line_from(theirs, ours, line, width, enc, dec, stream, tail);
    lemma_step(
        theirs,
        ours,
        line,
        width,
        enc,
        dec,
        line_bits_from(ours, line, width, step_next(ours, line, width, enc)) + tail,
    );
}

/// The end-of-block code, followed by anything, ends the decoding.
pub proof fn lemma_end_of_block(reference: Seq<u16>, width: u16, tail: Seq<bool>)
    ensures
        g4_line(end_of_block() + tail, reference, width).outcome is End,
{
    reveal(g4_step);
    mode::lemma_prefix_free();
    let rest = eol_bits()@ + tail;
    lemma_mode_code(Mode::EOF, rest);
    assert(mode::encode_spec(Mode::EOF).unwrap() == eol_bits());
    let stream = end_of_block() + tail;
    assert(stream =~= eol_bits()@ + rest);
    assert(stream.skip(0) =~= stream);
    let step = g4_step(stream, reference, width, line_start());
    assert(step is Done);
}

/// Every line of the image is in increasing order and within the width.
pub open spec fn lines_ok(lines: Seq<Seq<u16>>, width: u16) -> bool {
    forall|k: int| 0 <= k < lines.len() ==> increasing(#[trigger] lines[k], width as int)
}

/// An image survives encoding and decoding: from the bits of its lines and
/// the end-of-block code, followed by anything, the decoder gets as many
/// lines, each with the colour changes of the line that was encoded, to
/// which the width is added where a run ends the line at the width.
pub proof fn lemma_image_round_trip(
    lines: Seq<Seq<u16>>,
    width: u16,
    ours: Seq<u16>,
    theirs: Seq<u16>,
    tail: Seq<bool>,
    max: nat,
)
    requires
        width >= 1,
        lines_ok(lines, width),
        increasing(ours, width as int),
        follows(theirs, ours, width),
        lines.len() <= max,
    ensures
        ({
            let r = g4_lines(
                image_bits(lines, width, ours) + end_of_block() + tail,
                theirs,
                width,
                max,
            );
            &&& r.ok
            &&& r.lines.len() == lines.len()
            &&& forall|k: int|
                0 <= k < lines.len() ==> follows(#[trigger] r.lines[k], lines[k], width)
        }),
    decreases lines.len(),
{
    let stream = image_bits(lines, width, ours) + end_of_block() + tail;
    let r = g4_lines(stream, theirs, width, max);
    if lines.len() == 0 {
        assert(stream =~= end_of_block() + tail);
        if max > 0 {
            lemma_end_of_block(theirs, width, tail);
        }
    } else {
        let first = line_bits(ours, lines[0], width);
        let others = image_bits(lines.drop_first(), width, lines[0]);
        let rest = others + end_of_block() + tail;
        assert(stream =~= first + rest);
        lemma_line_round_trip(theirs, ours, lines[0], width, rest);
        let d = g4_line(stream, theirs, width);
        assert(stream.skip(d.used as int) =~= rest);
        assert(lines_ok(lines.drop_first(), width)) by {
            assert forall|k: int| 0 <= k < lines.drop_first().len() implies increasing(
                #[trigger] lines.drop_first()[k],
                width as int,
            ) by {
                assert(lines.drop_first()[k] == lines[k + 1]);
            }
        }
        lemma_image_round_trip(
            lines.drop_first(),
            width,
            lines[0],
            d.line,
            tail,
            (max - 1) as nat,
        );
        let after = g4_lines(rest, d.line, width, (max - 1) as nat);
        assert(r.lines == seq![d.line] + after.lines);
        assert forall|k: int| 0 <= k < lines.len() implies follows(
            #[trigger] r.lines[k],
            lines[k],
            width,
        ) by {
            if k > 0 {
                assert(r.lines[k] == after.lines[k - 1]);
                assert(lines.drop_first()[k - 1] == lines[k]);
            }
        }
    }
}


/// The number of changes among the first `n` of a line that lie at or
/// before `x`.
pub open spec fn count_le(line: Seq<u16>, n: nat, x: int) -> nat
    decreases n,
{
    if n == 0 {
        0
    } else {
        count_le(line, (n - 1) as nat, x) + if line[n - 1] <= x {
            1nat
        } else {
            0nat
        }
    }
}

/// In an increasing line, the changes at or before `x` are the first ones.
proof fn lemma_count_le(line: Seq<u16>, n: nat, x: int, bound: int)
    requires
        increasing(line, bound),
        n <= line.len(),
    ensures
        count_le(line, n, x) <= n,
        forall|i: int| 0 <= i < count_le(line, n, x) ==> #[trigger] line[i] <= x,
        forall|i: int| count_le(line, n, x) <= i < n ==> #[trigger] line[i] > x,
    decreases n,
{
    if n > 0 {
        lemma_count_le(line, (n - 1) as nat, x, bound);
        let c = count_le(line, (n - 1) as nat, x);
        if line[n - 1] <= x {
            assert(c == n - 1) by {
                if c < n - 1 {
                    assert(line[c as int] > x);
                    assert(line[c as int] < line[n - 1]);
                }
            }
        }
    }
}

/// The runs of an increasing line reach to its last change, and the pel at
/// `x` has the colour that the changes at or before `x` leave.
proof fn lemma_expand(line: Seq<u16>, n: nat, bound: int)
    requires
        increasing(line, bound),
        n <= line.len(),
    ensures
        expand(line, n).len() == if n == 0 {
            0
        } else {
            line[n - 1] as int
        },
        forall|x: int|
            0 <= x < expand(line, n).len() ==> #[trigger] expand(line, n)[x] == run_color(
                count_le(line, n, x) as int,
            ),
    decreases n,
{
    if n > 0 {
        lemma_expand(line, (n - 1) as nat, bound);
        let before = expand(line, (n - 1) as nat);
        let run = Seq::new(run_len(line, n - 1), |x: int| run_color(n - 1));
        assert(expand(line, n) == before + run);
        if n > 1 {
            assert(line[n - 2] < line[n - 1]);
        }
        assert forall|x: int| 0 <= x < expand(line, n).len() implies #[trigger] expand(line, n)[x]
            == run_color(count_le(line, n, x) as int) by {
            lemma_count_le(line, (n - 1) as nat, x, bound);
            if x < before.len() {
                assert(expand(line, n)[x] == before[x]);
            } else {
                assert(expand(line, n)[x] == run[x - before.len()]);
                let c = count_le(line, (n - 1) as nat, x);
                if c < n - 1 {
                    assert(line[c as int] > x);
                    assert(line[c as int] <= line[n - 2]);
                }
            }
        }
    }
}

/// The pel at `x` of an increasing line has the colour that the changes at
/// or before `x` leave: white after an even number of them.
pub proof fn lemma_pel_color(line: Seq<u16>, width: u16, x: int, bound: int)
    requires
        increasing(line, bound),
        0 <= x < width,
    ensures
        pels_spec(line, width)[x] == run_color(count_le(line, line.len(), x) as int),
{
    lemma_expand(line, line.len(), bound);
    lemma_count_le(line, line.len(), x, bound);
    let runs = expand(line, line.len());
    if x >= runs.len() {
        let c = count_le(line, line.len(), x);
        if c < line.len() {
            assert(line[c as int] > x);
            assert(line[c as int] <= line[line.len() - 1]);
        }
    }
}

/// A change at the width shows in no pel.
pub proof fn lemma_pels_follow(theirs: Seq<u16>, ours: Seq<u16>, width: u16)
    requires
        follows(theirs, ours, width),
        increasing(ours, width as int),
    ensures
        pels_spec(theirs, width) == pels_spec(ours, width),
{
    lemma_follows_increasing(theirs, ours, width);
    assert forall|x: int| 0 <= x < width implies pels_spec(theirs, width)[x] == pels_spec(
        ours,
        width,
    )[x] by {
        lemma_pel_color(theirs, width, x, width + 1);
        lemma_pel_color(ours, width, x, width as int);
        if theirs != ours {
            assert(theirs.len() == ours.len() + 1);
            assert(count_le(theirs, theirs.len(), x) == count_le(theirs, ours.len(), x));
            lemma_count_same(theirs, ours, ours.len(), x);
        }
    }
    assert(pels_spec(theirs, width) =~= pels_spec(ours, width));
}

proof fn lemma_count_same(a: Seq<u16>, b: Seq<u16>, n: nat, x: int)
    requires
        n <= a.len(),
        n <= b.len(),
        forall|i: int| 0 <= i < n ==> a[i] == b[i],
    ensures
        count_le(a, n, x) == count_le(b, n, x),
    decreases n,
{
    if n > 0 {
        lemma_count_same(a, b, (n - 1) as nat, x);
    }
}

/// Each pel has the colour that the colour changes up to it leave.
proof fn lemma_changes_color(pels: Seq<Color>, n: nat, x: int)
    requires
        n <= pels.len(),
        n <= u16::MAX,
        0 <= x < n,
    ensures
        pels[x] == run_color(count_le(changes(pels, n), changes(pels, n).len(), x) as int),
        pels[n - 1] == run_color(changes(pels, n).len() as int),
    decreases n,
{
    let now = changes(pels, n);
    let before = changes(pels, (n - 1) as nat);
    lemma_changes_increasing(pels, n);
    lemma_changes_increasing(pels, (n - 1) as nat);
    if n > 1 {
        lemma_changes_increasing(pels, (n - 1) as nat);
        lemma_changes_color(pels, (n - 1) as nat, if x < n - 1 {
            x
        } else {
            0
        });
    } else {
        assert(before.len() == 0);
    }
    assert(pels[n - 1] == run_color(now.len() as int));
    if x < n - 1 {
        lemma_count_same(now, before, before.len(), x);
        if now.len() > before.len() {
            assert(now[before.len() as int] == n - 1);
        }
    } else {
        lemma_count_le(now, now.len(), x, n as int);
        let c = count_le(now, now.len(), x);
        if c < now.len() {
            assert(now[c as int] > x);
        }
    }
}

/// The pels of the colour changes of a line are the pels of the line.
pub proof fn lemma_pels_of_changes(pels: Seq<Color>, width: u16)
    requires
        pels.len() == width,
    ensures
        pels_spec(changes(pels, pels.len()), width) == pels,
{
    let line = changes(pels, pels.len());
    lemma_changes_increasing(pels, pels.len());
    assert forall|x: int| 0 <= x < width implies pels_spec(line, width)[x] == pels[x] by {
        lemma_pel_color(line, width, x, width as int);
        lemma_changes_color(pels, pels.len(), x);
    }
    assert(pels_spec(line, width) =~= pels);
}

/// An image survives encoding and decoding. Of an image of lines of `width`
/// pels, the decoder gets every line back: it decodes the bits of the
/// image, followed by anything, to as many lines as the image has, and the
/// pels of each are the pels of the line that was encoded.
pub proof fn lemma_round_trip(image: Seq<Seq<Color>>, width: u16, tail: Seq<bool>, max: nat)
    requires
        width >= 1,
        forall|k: int| 0 <= k < image.len() ==> (#[trigger] image[k]).len() == width,
        image.len() <= max,
    ensures
        ({
            let r = g4_lines(encoded(image, width) + tail, Seq::empty(), width, max);
            &&& r.ok
            &&& r.lines.len() == image.len()
            &&& forall|k: int|
                0 <= k < image.len() ==> pels_spec(#[trigger] r.lines[k], width) == image[k]
        }),
{
    let lines = image_changes(image);
    assert(lines_ok(lines, width)) by {
        assert forall|k: int| 0 <= k < lines.len() implies increasing(
            #[trigger] lines[k],
            width as int,
        ) by {
            lemma_changes_increasing(image[k], image[k].len());
        }
    }
    lemma_image_round_trip(lines, width, Seq::empty(), Seq::empty(), tail, max);
    let r = g4_lines(encoded(image, width) + tail, Seq::empty(), width, max);
    assert forall|k: int| 0 <= k < image.len() implies pels_spec(#[trigger] r.lines[k], width)
        == image[k] by {
        lemma_changes_increasing(image[k], image[k].len());
        lemma_pels_follow(r.lines[k], lines[k], width);
        lemma_pels_of_changes(image[k], width);
    }
}

/// The colour changes that the decoder gets from the bits of an image are
/// in increasing order, and none lies beyond the width.
pub proof fn lemma_decoded_increasing(
    image: Seq<Seq<Color>>,
    width: u16,
    tail: Seq<bool>,
    max: nat,
)
    requires
        width >= 1,
        forall|k: int| 0 <= k < image.len() ==> (#[trigger] image[k]).len() == width,
        image.len() <= max,
    ensures
        ({
            let r = g4_lines(encoded(image, width) + tail, Seq::empty(), width, max);
            &&& r.lines.len() == image.len()
            &&& forall|k: int|
                0 <= k < image.len() ==> increasing(#[trigger] r.lines[k], width + 1)
            &&& forall|k: int|
                0 <= k < image.len() ==> follows(
                    #[trigger] r.lines[k],
                    changes(image[k], image[k].len()),
                    width,
                )
        }),
{
    let lines = image_changes(image);
    assert(lines_ok(lines, width)) by {
        assert forall|k: int| 0 <= k < lines.len() implies increasing(
            #[trigger] lines[k],
            width as int,
        ) by {
            lemma_changes_increasing(image[k], image[k].len());
        }
    }
    lemma_image_round_trip(lines, width, Seq::empty(), Seq::empty(), tail, max);
    let r = g4_lines(encoded(image, width) + tail, Seq::empty(), width, max);
    assert forall|k: int| 0 <= k < image.len() implies increasing(
        #[trigger] r.lines[k],
        width + 1,
    ) by {
        lemma_changes_increasing(image[k], image[k].len());
        lemma_follows_increasing(r.lines[k], lines[k], width);
    }
}

} // verus!
