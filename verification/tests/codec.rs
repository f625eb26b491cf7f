use fax::decoder::{
    decode_g3, decode_g4, pels, DecodeError, DecodeStatus, Group3Decoder, Group4Decoder, Line,
};
use fax::encoder::{absdiff, encode_color, Encoder};
use fax::maps::{black, edfb_half, eol, mode, white, Mode};
use fax::tiff::wrap;
use fax::{slice_bits, slice_reader, BitReader, BitWriter, Bits, Color, VecWriter};

fn line_from(text: &str) -> Vec<Color> {
    text.chars()
        .map(|c| if c == 'B' { Color::Black } else { Color::White })
        .collect()
}

fn encode_image(lines: &[Vec<Color>], width: u16) -> Vec<u8> {
    let mut encoder = Encoder::new(VecWriter::new());
    for line in lines {
        encoder.encode_line(line, width).unwrap();
    }
    encoder.finish().unwrap().finish()
}

fn decode_image(data: &[u8], width: u16, height: Option<u16>) -> Option<Vec<Vec<u16>>> {
    let mut lines = Vec::new();
    decode_g4(data, width, height, &mut lines).map(|_| lines)
}

fn round_trip(lines: &[Vec<Color>], width: u16) {
    let data = encode_image(lines, width);
    let decoded = decode_image(&data, width, Some(lines.len() as u16)).unwrap();
    assert_eq!(decoded.len(), lines.len());
    for (line, transitions) in lines.iter().zip(decoded.iter()) {
        assert_eq!(&pels(transitions, width), line);
    }
    let to_end = decode_image(&data, width, None).unwrap();
    assert_eq!(to_end, decoded);
}

#[test]
fn test_bits() {
    let mut bits = slice_reader(&[0b0000_1101, 0b1010_0000]);
    assert_eq!(black::decode(&mut bits), Some(42));
}

#[test]
fn reader_boundary_after_black_42() {
    let mut bits = slice_reader(&[0x0D, 0xA0]);
    assert_eq!(black::decode(&mut bits), Some(42));
    assert_eq!(bits.peek(4), Some(0));
    assert_eq!(bits.peek(5), None);
    assert_eq!(bits.bits_to_byte_boundary(), 4);
}

#[test]
fn empty_line_width_16() {
    let line = vec![Color::White; 16];
    let mut encoder = Encoder::new(VecWriter::new());
    encoder.encode_line(&line, 16).unwrap();
    let writer = encoder.finish().unwrap();
    let data = writer.finish();
    // Vertical(0) is one bit, the end-of-block code 24 bits.
    assert_eq!(data, vec![0b1000_0000, 0b0000_1000, 0b0000_0000, 0b1000_0000]);
    let decoded = decode_image(&data, 16, None).unwrap();
    assert_eq!(decoded, vec![Vec::<u16>::new()]);
    assert_eq!(pels(&decoded[0], 16), vec![Color::White; 16]);
}

#[test]
fn single_black_pixel_width_8() {
    let line = line_from("WWWWWBWW");
    let data = encode_image(&[line.clone()], 8);
    let decoded = decode_image(&data, 8, Some(1)).unwrap();
    assert_eq!(decoded, vec![vec![5u16, 6]]);
    assert_eq!(pels(&decoded[0], 8), line);
}

#[test]
fn alternating_pixels_width_4() {
    let line = line_from("WBWB");
    let data = encode_image(&[line.clone()], 4);
    let decoded = decode_image(&data, 4, Some(1)).unwrap();
    assert_eq!(decoded, vec![vec![1u16, 2, 3]]);
    assert_eq!(pels(&decoded[0], 4), line);
}

#[test]
fn invalid_group3() {
    let mut lines = Vec::new();
    assert_eq!(decode_g3(&[0xFF, 0xFF, 0xFF], &mut lines), None);
    assert!(lines.is_empty());
    assert!(matches!(
        Group3Decoder::new(slice_reader(&[0xFF, 0x00])),
        Err(DecodeError::Invalid)
    ));
}

#[test]
fn tiff_wrap() {
    let out = wrap(&[0x00], 8, 1);
    assert_eq!(out.len(), 8 + 2 + 11 * 12 + 4 + 16 + 1);
    assert_eq!(&out[..10], &[0x49, 0x49, 0x2A, 0x00, 0x08, 0x00, 0x00, 0x00, 0x0B, 0x00]);
    assert_eq!(out[8 + 2 + 11 * 12 + 4 + 16], 0x00);
    // ImageWidth, a LONG of count 1 with the value 8.
    assert_eq!(&out[10..22], &[0, 1, 4, 0, 1, 0, 0, 0, 8, 0, 0, 0]);
    // StripOffsets points behind the header.
    assert_eq!(&out[58..70], &[0x11, 1, 4, 0, 1, 0, 0, 0, 162, 0, 0, 0]);
    // XResolution points at the first rational, 200 / 1.
    assert_eq!(&out[106..118], &[0x1A, 1, 5, 0, 1, 0, 0, 0, 146, 0, 0, 0]);
    assert_eq!(&out[146..154], &[200, 0, 0, 0, 1, 0, 0, 0]);
}

#[test]
fn tiff_wrap_keeps_data() {
    let data: Vec<u8> = (0..=255u8).collect();
    let out = wrap(&data, 1728, 300);
    assert_eq!(out.len(), 162 + 256);
    assert_eq!(&out[162..], &data[..]);
    assert_eq!(&out[18..22], &1728u32.to_le_bytes());
    assert_eq!(&out[30..34], &300u32.to_le_bytes());
    assert_eq!(&out[102..106], &256u32.to_le_bytes());
}

#[test]
fn pels_yields_width_colors() {
    assert_eq!(pels(&[], 0), vec![]);
    assert_eq!(pels(&[2, 3], 5), line_from("WWBWW"));
    assert_eq!(pels(&[0], 3), line_from("BBB"));
    assert_eq!(pels(&[1, 9], 4).len(), 4);
    assert_eq!(pels(&[1, 9], 4), line_from("WBBB"));
    // A change that does not lie to the right of the one before it ends an empty run.
    assert_eq!(pels(&[2, 2, 4], 6), line_from("WWWWBB"));
    let line = Line { transitions: &[1, 2], width: 3 };
    assert_eq!(line.pels(), line_from("WBW"));
}

#[test]
fn writer_counts_bits() {
    let mut w = VecWriter::new();
    w.write(Bits { data: 0b101, len: 3 }).unwrap();
    w.write(Bits { data: 0b1, len: 1 }).unwrap();
    w.write(Bits { data: 0, len: 0 }).unwrap();
    w.write(Bits { data: 0b1111_0000_1111, len: 12 }).unwrap();
    assert_eq!(w.finish(), vec![0b1011_1111, 0b0000_1111]);
    let mut w = VecWriter::with_capacity(20);
    w.write(Bits { data: 0xFFFF, len: 16 }).unwrap();
    w.write(Bits { data: 0xFFFF, len: 1 }).unwrap();
    w.pad();
    w.pad();
    w.write(Bits { data: 0, len: 2 }).unwrap();
    assert_eq!(w.finish(), vec![0xFF, 0xFF, 0x80, 0x00]);
    assert_eq!(VecWriter::new().finish(), Vec::<u8>::new());
}

#[test]
fn writer_ignores_bits_above_len() {
    let mut w = VecWriter::new();
    w.write(Bits { data: 0b1, len: 1 }).unwrap();
    w.write(Bits { data: 0xFFF0, len: 4 }).unwrap();
    assert_eq!(w.finish(), vec![0b1000_0000]);
}

#[test]
fn peek_is_pure() {
    let bits = slice_reader(&[0xA5, 0x3C, 0x7E]);
    for n in 0..=16u8 {
        assert_eq!(bits.peek(n), bits.peek(n));
    }
    assert_eq!(bits.peek(4), Some(0xA));
    assert_eq!(bits.peek(16), Some(0xA53C));
    assert_eq!(bits.peek(1), Some(1));
    assert_eq!(bits.peek(0), Some(0));
}

#[test]
fn reader_consumes_msb_first() {
    let mut bits = slice_reader(&[0xA5, 0x3C, 0x7E]);
    bits.consume(4).unwrap();
    assert_eq!(bits.peek(8), Some(0x53));
    assert_eq!(bits.bits_to_byte_boundary(), 4);
    bits.consume(16).unwrap();
    assert_eq!(bits.peek(4), Some(0xE));
    assert_eq!(bits.peek(5), None);
    bits.consume(4).unwrap();
    assert_eq!(bits.peek(1), None);
    assert_eq!(bits.peek(0), Some(0));
    assert_eq!(bits.bits_to_byte_boundary(), 0);
}

#[test]
fn expect_consumes_on_match_only() {
    let mut bits = slice_reader(&[0x00, 0x1F]);
    assert_eq!(bits.expect(Bits { data: 3, len: 12 }), Err(Some(Bits { data: 1, len: 12 })));
    assert_eq!(bits.peek(12), Some(1));
    assert_eq!(bits.expect(eol()), Ok(()));
    assert_eq!(bits.peek(4), Some(0xF));
    assert_eq!(bits.expect(Bits { data: 0x1F, len: 5 }), Err(None));
    assert_eq!(bits.peek(4), Some(0xF));
}

#[test]
fn slice_bits_is_msb_first() {
    assert_eq!(
        slice_bits(&[0x80, 0x01]),
        vec![
            true, false, false, false, false, false, false, false, false, false, false, false,
            false, false, false, true
        ]
    );
    assert_eq!(slice_bits(&[]), Vec::<bool>::new());
}

#[test]
fn every_run_code_decodes_to_its_value() {
    for i in 0..104usize {
        for (entry, black_book) in [(white::entry(i), false), (black::entry(i), true)] {
            let (value, bits) = entry;
            let code = if black_book { black::encode(value) } else { white::encode(value) };
            assert_eq!(code, Some(bits));
            let mut w = VecWriter::new();
            w.write(bits).unwrap();
            w.write(Bits { data: 0b1011, len: 4 }).unwrap();
            let data = w.finish();
            let mut reader = slice_reader(&data);
            let got = if black_book {
                black::decode(&mut reader)
            } else {
                white::decode(&mut reader)
            };
            assert_eq!(got, Some(value));
            assert_eq!(reader.peek(4), Some(0b1011));
        }
    }
}

#[test]
fn every_mode_code_decodes_to_its_mode() {
    for i in 0..11usize {
        let (m, bits) = mode::entry(i);
        assert_eq!(mode::encode(m), Some(bits));
        let mut w = VecWriter::new();
        w.write(bits).unwrap();
        w.write(Bits { data: 0b0110, len: 4 }).unwrap();
        let data = w.finish();
        let mut reader = slice_reader(&data);
        assert_eq!(mode::decode(&mut reader), Some(m));
        assert_eq!(reader.peek(4), Some(0b0110));
    }
}

#[test]
fn mode_codes() {
    assert_eq!(mode::encode(Mode::Pass), Some(Bits { data: 0b0001, len: 4 }));
    assert_eq!(mode::encode(Mode::Horizontal), Some(Bits { data: 0b001, len: 3 }));
    assert_eq!(mode::encode(Mode::Vertical(0)), Some(Bits { data: 0b1, len: 1 }));
    assert_eq!(mode::encode(Mode::Vertical(1)), Some(Bits { data: 0b011, len: 3 }));
    assert_eq!(mode::encode(Mode::Vertical(-1)), Some(Bits { data: 0b010, len: 3 }));
    assert_eq!(mode::encode(Mode::Vertical(2)), Some(Bits { data: 0b000011, len: 6 }));
    assert_eq!(mode::encode(Mode::Vertical(-2)), Some(Bits { data: 0b000010, len: 6 }));
    assert_eq!(mode::encode(Mode::Vertical(3)), Some(Bits { data: 0b0000011, len: 7 }));
    assert_eq!(mode::encode(Mode::Vertical(-3)), Some(Bits { data: 0b0000010, len: 7 }));
    assert_eq!(mode::encode(Mode::Extension), Some(Bits { data: 0b0000001, len: 7 }));
    assert_eq!(mode::encode(Mode::Vertical(4)), None);
    assert_eq!(mode::encode(Mode::Vertical(-4)), None);
    assert_eq!(eol(), Bits { data: 1, len: 12 });
    assert_eq!(edfb_half(), Bits { data: 1, len: 12 });
}

#[test]
fn run_codes() {
    assert_eq!(white::encode(0), Some(Bits { data: 0b00110101, len: 8 }));
    assert_eq!(white::encode(63), Some(Bits { data: 0b00110100, len: 8 }));
    assert_eq!(white::encode(64), Some(Bits { data: 0b11011, len: 5 }));
    assert_eq!(white::encode(1728), Some(Bits { data: 0b010011011, len: 9 }));
    assert_eq!(white::encode(2560), Some(Bits { data: 0b000000011111, len: 12 }));
    assert_eq!(black::encode(0), Some(Bits { data: 0b0000110111, len: 10 }));
    assert_eq!(black::encode(2), Some(Bits { data: 0b11, len: 2 }));
    assert_eq!(black::encode(64), Some(Bits { data: 0b0000001111, len: 10 }));
    assert_eq!(black::encode(1792), Some(Bits { data: 0b00000001000, len: 11 }));
    assert_eq!(white::encode(65), None);
    assert_eq!(black::encode(2624), None);
    assert_eq!(white::entry(64), (64, Bits { data: 0b11011, len: 5 }));
    assert_eq!(black::entry(103), (2560, Bits { data: 0b000000011111, len: 12 }));
}

#[test]
fn decode_does_not_advance_on_failure() {
    // Eight zeros start no code of white runs.
    let mut reader = slice_reader(&[0x00, 0xFF]);
    assert_eq!(white::decode(&mut reader), None);
    assert_eq!(reader.peek(16), Some(0x00FF));
    // A code that the rest of the data cuts short.
    let mut reader = slice_reader(&[0b0011_0101]);
    assert_eq!(white::decode(&mut reader), Some(0));
    let mut reader = slice_reader(&[0b0000_0011]);
    assert_eq!(black::decode(&mut reader), None);
    assert_eq!(reader.peek(8), Some(3));
}

#[test]
fn code_at_the_end_of_the_data() {
    let mut reader = slice_reader(&[0b0001_0011]);
    assert_eq!(mode::decode(&mut reader), Some(Mode::Pass));
    assert_eq!(mode::decode(&mut reader), Some(Mode::Horizontal));
    assert_eq!(mode::decode(&mut reader), Some(Mode::Vertical(0)));
    assert_eq!(mode::decode(&mut reader), None);
}

#[test]
fn run_lengths_with_make_up_codes() {
    for color in [Color::White, Color::Black] {
        for n in [
            0u16, 1, 63, 64, 65, 127, 128, 1000, 1728, 1791, 1792, 2559, 2560, 2561, 2623, 2624,
            5120, 5183, 10000, 65535,
        ] {
            let mut w = VecWriter::new();
            encode_color(&mut w, color, n).unwrap();
            w.write(Bits { data: 0b1, len: 1 }).unwrap();
            let data = w.finish();
            let mut reader = slice_reader(&data);
            assert_eq!(fax::decoder::colored(color, &mut reader), Some(n));
            assert_eq!(reader.peek(1), Some(1));
        }
    }
}

#[test]
fn run_length_formula() {
    // 2560 + 2560 + 64 + 1 in white: the codes of 2560, 2560, 64 and 1.
    let mut w = VecWriter::new();
    encode_color(&mut w, Color::White, 5185).unwrap();
    let mut expected = VecWriter::new();
    expected.write(Bits { data: 0b000000011111, len: 12 }).unwrap();
    expected.write(Bits { data: 0b000000011111, len: 12 }).unwrap();
    expected.write(Bits { data: 0b11011, len: 5 }).unwrap();
    expected.write(Bits { data: 0b000111, len: 6 }).unwrap();
    assert_eq!(w.finish(), expected.finish());
}

#[test]
fn run_length_beyond_u16_is_refused() {
    let mut w = VecWriter::new();
    for _ in 0..26 {
        w.write(white::encode(2560).unwrap()).unwrap();
    }
    w.write(white::encode(0).unwrap()).unwrap();
    let data = w.finish();
    let mut reader = slice_reader(&data);
    assert_eq!(fax::decoder::with_markup(Color::White, &mut reader), None);
}

#[test]
fn absdiff_is_symmetric() {
    assert_eq!(absdiff(3, 10), 7);
    assert_eq!(absdiff(10, 3), 7);
    assert_eq!(absdiff(0, 65535), 65535);
    assert_eq!(absdiff(5, 5), 0);
}

#[test]
fn color_inverts() {
    assert_eq!(Color::White.invert(), Color::Black);
    assert_eq!(Color::Black.invert(), Color::White);
    assert_eq!(!Color::White, Color::Black);
    assert_eq!(!Color::Black, Color::White);
}

#[test]
fn bits_values() {
    assert_eq!(Bits::new(5, 3), Bits { data: 5, len: 3 });
    assert_eq!(Bits::empty(), Bits { data: 0, len: 0 });
    assert_eq!(Bits { data: 0xFFF5, len: 4 }.normalized(), Bits { data: 5, len: 4 });
    assert_eq!(Bits { data: 0xFFFF, len: 16 }.normalized(), Bits { data: 0xFFFF, len: 16 });
    assert_eq!(Bits { data: 7, len: 0 }.normalized(), Bits { data: 0, len: 0 });
}

#[test]
fn vertical_is_preferred_to_horizontal() {
    // Reference line with a change at 5; the line below changes at 8, three pels away.
    let first = line_from("WWWWWBBBBBBBBBBB");
    let second = line_from("WWWWWWWWBBBBBBBB");
    let data = encode_image(&[first.clone(), second.clone()], 16);
    // The first line is Horizontal, white 5, black 11; the second Vertical(3) and
    // Vertical(0).
    let mut w = VecWriter::new();
    w.write(Bits { data: 0b001, len: 3 }).unwrap();
    w.write(Bits { data: 0b1100, len: 4 }).unwrap();
    w.write(Bits { data: 0b0000101, len: 7 }).unwrap();
    w.write(Bits { data: 0b0000011, len: 7 }).unwrap();
    w.write(Bits { data: 0b1, len: 1 }).unwrap();
    w.write(eol()).unwrap();
    w.write(eol()).unwrap();
    assert_eq!(data, w.finish());
    round_trip(&[first, second], 16);
}

#[test]
fn first_line_bits() {
    // Width 16, one black pel at 5: Horizontal, white 5, black 1, then Vertical(0).
    let data = encode_image(&[line_from("WWWWWBWWWWWWWWWW")], 16);
    let mut w = VecWriter::new();
    w.write(Bits { data: 0b001, len: 3 }).unwrap();
    w.write(Bits { data: 0b1100, len: 4 }).unwrap();
    w.write(Bits { data: 0b010, len: 3 }).unwrap();
    w.write(Bits { data: 0b1, len: 1 }).unwrap();
    w.write(eol()).unwrap();
    w.write(eol()).unwrap();
    assert_eq!(data, w.finish());
    // Width 8: the changes at 5 and 6 are three and two pels before the end of the
    // white line above, so both are vertical.
    let data = encode_image(&[line_from("WWWWWBWW")], 8);
    let mut w = VecWriter::new();
    w.write(Bits { data: 0b0000010, len: 7 }).unwrap();
    w.write(Bits { data: 0b000010, len: 6 }).unwrap();
    w.write(Bits { data: 0b1, len: 1 }).unwrap();
    w.write(eol()).unwrap();
    w.write(eol()).unwrap();
    assert_eq!(data, w.finish());
}

#[test]
fn pass_mode_round_trip() {
    let lines = vec![
        line_from("WWBBWWWWWWWWWWWW"),
        line_from("WWWWWWWWWWWWBBWW"),
        line_from("WWWWWWWWWWWWWWWW"),
        line_from("BBBBBBBBBBBBBBBB"),
        line_from("BWBWBWBWBWBWBWBW"),
        line_from("WWWWWWWWWWWWWWWB"),
    ];
    round_trip(&lines, 16);
}

#[test]
fn streaming_decoder_reports_end() {
    let lines = vec![line_from("WWBBWWWW"), line_from("WBBBBWWW")];
    let data = encode_image(&lines, 8);
    let mut decoder = Group4Decoder::new(slice_reader(&data), 8).unwrap();
    assert!(matches!(decoder.advance(), Ok(DecodeStatus::Incomplete)));
    assert_eq!(decoder.transition(), &[2u16, 4][..]);
    assert_eq!(decoder.line().pels(), lines[0]);
    assert!(matches!(decoder.advance(), Ok(DecodeStatus::Incomplete)));
    assert_eq!(decoder.transition(), &[1u16, 5][..]);
    assert!(matches!(decoder.advance(), Ok(DecodeStatus::End)));
}

#[test]
fn extension_is_unsupported() {
    let mut decoder = Group4Decoder::new(slice_reader(&[0b0000_0011, 0b1100_0000]), 8).unwrap();
    assert!(matches!(decoder.advance(), Err(DecodeError::Unsupported)));
    let mut decoder = Group4Decoder::new(slice_reader(&[0b0000_0010]), 8).unwrap();
    assert!(matches!(decoder.advance(), Err(DecodeError::Invalid)));
}

#[test]
fn invalid_group4() {
    // Eight zeros start no mode.
    let mut decoder = Group4Decoder::new(slice_reader(&[0x00, 0xFF]), 8).unwrap();
    assert!(matches!(decoder.advance(), Err(DecodeError::Invalid)));
    let mut lines = Vec::new();
    assert_eq!(decode_g4(&[0x00, 0xFF], 8, None, &mut lines), None);
    // A pass mode on a white reference line has nothing to pass after the first.
    let mut decoder = Group4Decoder::new(slice_reader(&[0b0001_0001, 0xFF]), 8).unwrap();
    assert!(matches!(decoder.advance(), Err(DecodeError::Invalid)));
}

#[test]
fn decoded_lines_before_an_error_are_kept() {
    // Horizontal, white 2, black 2, Vertical(0); then zeros, which start no mode.
    let data = [0b0010_1111, 0b1100_0000, 0x00, 0xFF];
    let mut lines = Vec::new();
    let r = decode_g4(&data, 8, None, &mut lines);
    assert_eq!(r, None);
    assert_eq!(lines, vec![vec![2u16, 4]]);
}

#[test]
fn group3_lines() {
    // EOL, white 3, black 2, white 3, EOL, white 8, EOL and five more.
    let mut w = VecWriter::new();
    w.write(eol()).unwrap();
    encode_color(&mut w, Color::White, 3).unwrap();
    encode_color(&mut w, Color::Black, 2).unwrap();
    encode_color(&mut w, Color::White, 3).unwrap();
    w.write(eol()).unwrap();
    encode_color(&mut w, Color::White, 8).unwrap();
    for _ in 0..6 {
        w.write(eol()).unwrap();
    }
    let data = w.finish();
    let mut decoder = Group3Decoder::new(slice_reader(&data)).unwrap();
    assert!(matches!(decoder.advance(), Ok(DecodeStatus::Incomplete)));
    assert_eq!(decoder.transitions(), &[3u16, 5, 8][..]);
    assert!(matches!(decoder.advance(), Ok(DecodeStatus::End)));
    assert_eq!(decoder.transitions(), &[8u16][..]);
    let mut lines = Vec::new();
    assert_eq!(decode_g3(&data, &mut lines), Some(()));
    assert_eq!(lines, vec![vec![3u16, 5, 8]]);
}

#[test]
fn group3_missing_eol_is_invalid() {
    let mut w = VecWriter::new();
    w.write(eol()).unwrap();
    encode_color(&mut w, Color::White, 3).unwrap();
    w.write(Bits { data: 0, len: 8 }).unwrap();
    w.write(Bits { data: 0xFF, len: 8 }).unwrap();
    let data = w.finish();
    let mut decoder = Group3Decoder::new(slice_reader(&data)).unwrap();
    assert!(matches!(decoder.advance(), Err(DecodeError::Invalid)));
}

fn next_random(state: &mut u64) -> u64 {
    *state ^= *state << 13;
    *state ^= *state >> 7;
    *state ^= *state << 17;
    *state
}

#[test]
fn random_images_round_trip() {
    let mut state = 0x2545F4914F6CDD1Du64;
    for &width in &[1u16, 7, 8, 9, 200, 1728, 2560] {
        for density in [2u64, 5, 40, 400] {
            let mut lines = Vec::new();
            for _ in 0..24 {
                let mut color = Color::White;
                let mut line = Vec::new();
                for _ in 0..width {
                    if next_random(&mut state) % density == 0 {
                        color = color.invert();
                    }
                    line.push(color);
                }
                lines.push(line);
            }
            round_trip(&lines, width);
        }
    }
}

#[test]
fn wide_runs_round_trip() {
    let mut line = vec![Color::White; 6000];
    for p in line.iter_mut().skip(2700).take(3000) {
        *p = Color::Black;
    }
    round_trip(&[line.clone(), vec![Color::White; 6000], line], 6000);
    round_trip(&[vec![Color::Black; 65535]], 65535);
}

#[test]
fn short_line_is_continued() {
    // Fewer pels than the width: the last colour goes on to the end of the line.
    let data = encode_image(&[line_from("WWB")], 8);
    let decoded = decode_image(&data, 8, Some(1)).unwrap();
    assert_eq!(pels(&decoded[0], 8), line_from("WWBBBBBB"));
}

#[test]
fn one_transition_lines_stay_small() {
    for &width in &[8u16, 200, 1728] {
        let mut lines = Vec::new();
        for y in 0..64u16 {
            let at = (y * 7) % width;
            let mut line = vec![Color::White; width as usize];
            for p in line.iter_mut().skip(at as usize) {
                *p = Color::Black;
            }
            lines.push(line);
        }
        let data = encode_image(&lines, width);
        assert!(data.len() * 8 <= width as usize * 64 + 24 + 7 + 64 * 40);
        round_trip(&lines, width);
    }
}

#[test]
fn encode_g4_round_trip() {
    let lines = vec![
        line_from("WWWWBBBBWWWWBBBBWWWW"),
        line_from("WWWBBBBBBWWWBBBWWWWW"),
        line_from("BBBBBBBBBBBBBBBBBBBB"),
        line_from("WWWWWWWWWWWWWWWWWWWW"),
        line_from("WWWWWWWWWWBWWWWWWWWW"),
    ];
    let data = fax::encoder::encode_g4(&lines, 20);
    assert_eq!(data, encode_image(&lines, 20));
    let mut decoded = Vec::new();
    assert_eq!(decode_g4(&data, 20, None, &mut decoded), Some(()));
    assert_eq!(decoded.len(), 5);
    for (line, transitions) in lines.iter().zip(decoded.iter()) {
        assert_eq!(&pels(transitions, 20), line);
    }
    assert_eq!(fax::encoder::encode_g4(&[], 20), vec![0x00, 0x10, 0x01]);
}

#[test]
fn run_to_the_end_of_the_line_adds_the_width() {
    // The line above is black from column 2 on; the white line below ends with a run
    // of 16 white pels, and the decoder notes a change at the width.
    let lines = vec![line_from("WWBBBBBBBBBBBBBB"), line_from("WWWWWWWWWWWWWWWW")];
    let data = fax::encoder::encode_g4(&lines, 16);
    let mut decoded = Vec::new();
    assert_eq!(decode_g4(&data, 16, Some(2), &mut decoded), Some(()));
    assert_eq!(decoded, vec![vec![2u16], vec![16u16]]);
    assert_eq!(pels(&decoded[1], 16), lines[1]);
}

#[test]
fn bits_text() {
    assert_eq!(Bits::parse("0101"), Some(Bits { data: 5, len: 4 }));
    assert_eq!(Bits::parse(""), Some(Bits { data: 0, len: 0 }));
    assert_eq!(Bits::parse("000000000001"), Some(eol()));
    assert_eq!(Bits::parse("1111111111111111"), Some(Bits { data: 0xFFFF, len: 16 }));
    assert_eq!(Bits::parse("11111111111111111"), None);
    assert_eq!(Bits::parse("012"), None);
    assert_eq!(Bits::parse("0 1"), None);
    assert_eq!(Bits { data: 5, len: 4 }.to_string(), "0101");
    assert_eq!(Bits { data: 0xFFF5, len: 4 }.to_string(), "0101");
    assert_eq!(Bits { data: 0, len: 0 }.to_string(), "");
    assert_eq!(eol().to_string(), "000000000001");
    assert_eq!(Bits { data: 0x8001, len: 16 }.to_string(), "1000000000000001");
}

#[test]
fn decode_error_text() {
    assert_eq!(DecodeError::<()>::Invalid.to_string(), "Decode Error");
    assert_eq!(DecodeError::<()>::Unsupported.to_string(), "Decode Error");
    assert_eq!(DecodeError::Reader(7u8).to_string(), "Decode Error");
}

#[test]
fn tables_decode_as_the_books_do() {
    let tables = fax::maps::Tables::new();
    let mut state = 0x9E3779B97F4A7C15u64;
    for _ in 0..200 {
        let data: Vec<u8> = (0..8).map(|_| (next_random(&mut state) >> 24) as u8).collect();
        for color in [Color::White, Color::Black] {
            let mut a = slice_reader(&data);
            let mut b = slice_reader(&data);
            loop {
                let x = tables.decode_run(color, &mut a);
                let y = match color {
                    Color::White => white::decode(&mut b),
                    Color::Black => black::decode(&mut b),
                };
                assert_eq!(x, y);
                assert_eq!(a.peek(1), b.peek(1));
                assert_eq!(a.bits_to_byte_boundary(), b.bits_to_byte_boundary());
                if x.is_none() {
                    break;
                }
            }
        }
        let mut a = slice_reader(&data);
        let mut b = slice_reader(&data);
        loop {
            let x = tables.decode_mode(&mut a);
            assert_eq!(x, mode::decode(&mut b));
            assert_eq!(a.bits_to_byte_boundary(), b.bits_to_byte_boundary());
            if x.is_none() {
                break;
            }
        }
    }
}

/// The cursor over the reference line, written with plain indices, for the encoder
/// below.
struct Edges<'a> {
    edges: &'a [u16],
    pos: usize,
}

impl<'a> Edges<'a> {
    fn seek_back(&mut self, start: u16) {
        self.pos = self.pos.min(self.edges.len().saturating_sub(1));
        while self.pos > 0 && start < self.edges[self.pos - 1] {
            self.pos -= 1;
        }
    }

    fn next_color(&mut self, start: u16, color: Color, start_of_row: bool) -> Option<u16> {
        if start_of_row {
            return if color == Color::Black {
                self.pos = 1;
                self.edges.first().copied()
            } else {
                self.pos = 2;
                self.edges.get(1).copied()
            };
        }
        while self.pos < self.edges.len() {
            if self.edges[self.pos] <= start {
                self.pos += 1;
                continue;
            }
            if (self.pos % 2 == 0) != (color == Color::Black) {
                self.pos += 1;
            }
            break;
        }
        let found = self.edges.get(self.pos).copied();
        if found.is_some() {
            self.pos += 1;
        }
        found
    }
}

/// An encoder of one line that takes the colour changes as it goes, and loops over the
/// pass modes before each change.
fn encode_line_nested(
    writer: &mut VecWriter,
    reference: &[u16],
    pels: &[Color],
    width: u16,
) -> Vec<u16> {
    let mut changes = pels
        .iter()
        .enumerate()
        .scan(Color::White, |state, (i, c)| {
            Some(if *c != *state {
                *state = *c;
                Some(i as u16)
            } else {
                None
            })
        })
        .flatten();
    let mut current = Vec::new();
    let mut cursor = Edges { edges: reference, pos: 0 };
    let mut color = Color::White;
    let mut a0 = 0u16;
    let mut start_of_line = true;
    while a0 < width {
        let a1 = match changes.next() {
            Some(a1) => {
                current.push(a1);
                a1
            }
            None => width,
        };
        loop {
            cursor.seek_back(a0);
            let b1 = cursor.next_color(a0, !color, start_of_line).unwrap_or(width);
            let b2 = cursor.edges.get(cursor.pos).copied();
            start_of_line = false;
            match b2 {
                Some(b2) if b2 < a1 => {
                    writer.write(mode::encode(Mode::Pass).unwrap()).unwrap();
                    cursor.pos += 1;
                    a0 = b2;
                    continue;
                }
                _ => {}
            }
            if absdiff(a1, b1) <= 3 {
                let delta = a1 as i16 - b1 as i16;
                writer.write(mode::encode(Mode::Vertical(delta as i8)).unwrap()).unwrap();
                a0 = a1;
                color = !color;
            } else {
                let a2 = match changes.next() {
                    Some(a2) => {
                        current.push(a2);
                        a2
                    }
                    None => width,
                };
                writer.write(mode::encode(Mode::Horizontal).unwrap()).unwrap();
                encode_color(writer, color, a1 - a0).unwrap();
                encode_color(writer, !color, a2 - a1).unwrap();
                a0 = a2;
            }
            break;
        }
    }
    current
}

#[test]
fn nested_encoder_writes_the_same_bits() {
    let mut state = 0xD1B54A32D192ED03u64;
    for &width in &[1u16, 5, 8, 33, 200, 1728] {
        for density in [2u64, 7, 60] {
            let mut lines = Vec::new();
            for _ in 0..40 {
                let mut color = Color::White;
                let mut line = Vec::new();
                for _ in 0..width {
                    if next_random(&mut state) % density == 0 {
                        color = !color;
                    }
                    line.push(color);
                }
                lines.push(line);
            }
            let mut writer = VecWriter::new();
            let mut reference = Vec::new();
            for line in &lines {
                reference = encode_line_nested(&mut writer, &reference, line, width);
            }
            writer.write(eol()).unwrap();
            writer.write(eol()).unwrap();
            assert_eq!(writer.finish(), encode_image(&lines, width));
        }
    }
}
