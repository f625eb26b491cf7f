use fax::decoder::{DecodeError, DecodeStatus, Group3Decoder, Group4Decoder};
use fax::encoder::{encode_color, Encoder};
use fax::maps::eol;
use fax::{slice_reader, BitReader, BitWriter, Bits, ByteReader, Color, VecWriter};

/// A reader whose source fails once a number of bits has been consumed.
struct FailingReader<'a> {
    inner: ByteReader<'a>,
    left: usize,
}

impl<'a> BitReader for FailingReader<'a> {
    type Error = &'static str;

    fn peek(&self, bits: u8) -> Option<u16> {
        self.inner.peek(bits)
    }

    fn consume(&mut self, bits: u8) -> Result<(), Self::Error> {
        if (bits as usize) > self.left {
            return Err("the source failed");
        }
        self.left -= bits as usize;
        self.inner.consume(bits).map_err(|_| "the source failed")
    }

    fn bits_to_byte_boundary(&self) -> u8 {
        self.inner.bits_to_byte_boundary()
    }
}

/// A writer that takes a number of bits and then fails.
struct FullWriter {
    inner: VecWriter,
    room: usize,
}

impl BitWriter for FullWriter {
    type Error = usize;

    fn write(&mut self, bits: Bits) -> Result<(), Self::Error> {
        if (bits.len as usize) > self.room {
            return Err(self.room);
        }
        self.room -= bits.len as usize;
        self.inner.write(bits).map_err(|_| 0)
    }
}

fn group3_data() -> Vec<u8> {
    let mut w = VecWriter::new();
    w.write(eol()).unwrap();
    encode_color(&mut w, Color::White, 8).unwrap();
    for _ in 0..6 {
        w.write(eol()).unwrap();
    }
    w.finish()
}

#[test]
fn reader_error_is_handed_on() {
    let data = group3_data();
    // The marker at the start, the run and the marker behind it are read, the next
    // marker cannot be consumed.
    let reader = FailingReader { inner: slice_reader(&data), left: 12 + 5 + 12 + 6 };
    let mut decoder = Group3Decoder::new(reader).ok().unwrap();
    assert!(matches!(decoder.advance(), Err(DecodeError::Reader("the source failed"))));
    let reader = FailingReader { inner: slice_reader(&data), left: 1000 };
    let mut decoder = Group3Decoder::new(reader).ok().unwrap();
    assert!(matches!(decoder.advance(), Ok(DecodeStatus::End)));
    assert_eq!(decoder.transitions(), &[8u16][..]);
}

#[test]
fn expect_reports_a_failing_source() {
    let data = group3_data();
    let mut reader = FailingReader { inner: slice_reader(&data), left: 3 };
    assert_eq!(reader.expect(eol()), Err(None));
    assert!(matches!(
        Group3Decoder::new(FailingReader { inner: slice_reader(&data), left: 3 }),
        Err(DecodeError::Invalid)
    ));
}

#[test]
fn failing_source_ends_group4_decoding() {
    let reader = FailingReader { inner: slice_reader(&[0xFF, 0xFF]), left: 3 };
    let mut decoder = Group4Decoder::new(reader, 8).ok().unwrap();
    for _ in 0..3 {
        assert!(matches!(decoder.advance(), Ok(DecodeStatus::Incomplete)));
    }
    assert!(matches!(decoder.advance(), Err(DecodeError::Invalid)));
}

#[test]
fn writer_error_is_handed_on() {
    let line = vec![Color::White; 16];
    let mut encoder = Encoder::new(FullWriter { inner: VecWriter::new(), room: 2 });
    assert_eq!(encoder.encode_line(&line, 16), Ok(()));
    assert_eq!(encoder.encode_line(&line, 16), Ok(()));
    assert_eq!(encoder.encode_line(&line, 16), Err(0));
    let encoder = Encoder::new(FullWriter { inner: VecWriter::new(), room: 13 });
    assert!(matches!(encoder.finish(), Err(1)));
    let encoder = Encoder::new(FullWriter { inner: VecWriter::new(), room: 24 });
    let writer = encoder.finish().ok().unwrap();
    assert_eq!(writer.inner.finish(), vec![0x00, 0x10, 0x01]);
    // The make-up codes of 2560 and of 64 fit, the terminating code does not.
    let mut w = FullWriter { inner: VecWriter::new(), room: 20 };
    assert_eq!(encode_color(&mut w, Color::White, 2560 + 64), Err(3));
}
