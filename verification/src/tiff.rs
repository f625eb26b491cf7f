//! A minimal TIFF container for one strip of Group 4 data.
use vstd::prelude::*;

verus! {

/// The size in bytes of everything that precedes the image data.
pub const HEADER_SIZE: usize = 162;

/// The offset of the first rational: the end of the directory.
pub const IFD_END: usize = 146;

/// The bytes of `v`, least significant first.
pub open spec fn le16(v: u16) -> Seq<u8> {
    seq![(v % 256) as u8, (v / 256) as u8]
}

/// The bytes of `v`, least significant first.
pub open spec fn le32(v: u32) -> Seq<u8> {
    seq![
        (v % 256) as u8,
        (v / 256 % 256) as u8,
        (v / 65536 % 256) as u8,
        (v / 16777216) as u8,
    ]
}

/// One directory entry: tag, field type, a count of one, and the value or
/// the offset of the value.
pub open spec fn field(tag: u16, typ: u16, value: u32) -> Seq<u8> {
    le16(tag) + le16(typ) + le32(1) + le32(value)
}

/// A rational: numerator, then denominator.
pub open spec fn rational(num: u32, denom: u32) -> Seq<u8> {
    le32(num) + le32(denom)
}

/// The header of a little-endian TIFF file that holds one bilevel image of
/// `width` by `height` pixels in a single strip of `len` bytes, compressed
/// with CCITT Group 4, at 200 dots per inch.
pub open spec fn header(width: u32, height: u32, len: u32) -> Seq<u8> {
    seq![73u8, 73u8, 42u8, 0u8] + le32(8) + le16(11)
        + field(256, 4, width)  // ImageWidth
        + field(257, 4, height)  // ImageLength
        + field(259, 3, 4)  // Compression
        + field(262, 3, 0)  // PhotometricInterpretation
        + field(273, 4, HEADER_SIZE as u32)  // StripOffsets
        + field(274, 3, 1)  // Orientation
        + field(278, 4, height)  // RowsPerStrip
        + field(279, 4, len)  // StripByteCounts
        + field(282, 5, IFD_END as u32)  // XResolution
        + field(283, 5, (IFD_END + 8) as u32)  // YResolution
        + field(296, 3, 2)  // ResolutionUnit
        + le32(0) + rational(200, 1) + rational(200, 1)
}

/// The header always has the same size.
pub proof fn lemma_header_len(width: u32, height: u32, len: u32)
    ensures
        header(width, height, len).len() == HEADER_SIZE,
{
    assert(forall|v: u16| (#[trigger] le16(v)).len() == 2);
    assert(forall|v: u32| (#[trigger] le32(v)).len() == 4);
    assert(forall|t: u16, y: u16, v: u32| (#[trigger] field(t, y, v)).len() == 12);
    assert(forall|n: u32, d: u32| (#[trigger] rational(n, d)).len() == 8);
    assert(seq![73u8, 73u8, 42u8, 0u8].len() == 4);
    let a = seq![73u8, 73u8, 42u8, 0u8] + le32(8) + le16(11);
    assert(a.len() == 10);
    let b = a + field(256, 4, width) + field(257, 4, height) + field(259, 3, 4) + field(262, 3, 0);
    assert(b.len() == 58);
    let c = b + field(273, 4, HEADER_SIZE as u32) + field(274, 3, 1) + field(278, 4, height)
        + field(279, 4, len);
    assert(c.len() == 106);
    let d = c + field(282, 5, IFD_END as u32) + field(283, 5, (IFD_END + 8) as u32) + field(
        296,
        3,
        2,
    );
    assert(d.len() == 142);
    assert(header(width, height, len) == d + le32(0) + rational(200, 1) + rational(200, 1));
}

fn push_u16(out: &mut Vec<u8>, v: u16)
    ensures
        final(out)@ == old(out)@ + le16(v),
{
    out.push((v % 256) as u8);
    out.push((v / 256) as u8);
    proof {
        assert(out@ =~= old(out)@ + le16(v));
    }
}

fn push_u32(out: &mut Vec<u8>, v: u32)
    ensures
        final(out)@ == old(out)@ + le32(v),
{
    out.push((v % 256) as u8);
    out.push((v / 256 % 256) as u8);
    out.push((v / 65536 % 256) as u8);
    out.push((v / 16777216) as u8);
    proof {
        assert(out@ =~= old(out)@ + le32(v));
    }
}

fn push_field(out: &mut Vec<u8>, tag: u16, typ: u16, value: u32)
    ensures
        final(out)@ == old(out)@ + field(tag, typ, value),
{
    push_u16(out, tag);
    push_u16(out, typ);
    push_u32(out, 1);
    push_u32(out, value);
    proof {
        assert(out@ =~= old(out)@ + field(tag, typ, value));
    }
}

fn push_rational(out: &mut Vec<u8>, num: u32, denom: u32)
    ensures
        final(out)@ == old(out)@ + rational(num, denom),
{
    push_u32(out, num);
    push_u32(out, denom);
    proof {
        assert(out@ =~= old(out)@ + rational(num, denom));
    }
}

/// Wraps Group 4 data in a TIFF file: the header, then `data` unchanged.
pub fn wrap(data: &[u8], width: u32, height: u32) -> (out: Vec<u8>)
    requires
        data@.len() <= u32::MAX,
    ensures
        out@ == header(width, height, data@.len() as u32) + data@,
        out@.len() == HEADER_SIZE + data@.len(),
{
    let len = data.len() as u32;
    let mut out: Vec<u8> = Vec::new();
    out.push(73);
    out.push(73);
    out.push(42);
    out.push(0);
    proof {
        assert(out@ =~= seq![73u8, 73u8, 42u8, 0u8]);
    }
    push_u32(&mut out, 8);
    push_u16(&mut out, 11);
    push_field(&mut out, 256, 4, width);
    push_field(&mut out, 257, 4, height);
    push_field(&mut out, 259, 3, 4);
    push_field(&mut out, 262, 3, 0);
    push_field(&mut out, 273, 4, HEADER_SIZE as u32);
    push_field(&mut out, 274, 3, 1);
    push_field(&mut out, 278, 4, height);
    push_field(&mut out, 279, 4, len);
    push_field(&mut out, 282, 5, IFD_END as u32);
    push_field(&mut out, 283, 5, (IFD_END + 8) as u32);
    push_field(&mut out, 296, 3, 2);
    push_u32(&mut out, 0);
    push_rational(&mut out, 200, 1);
    push_rational(&mut out, 200, 1);
    proof {
        assert(out@ == header(width, height, len));
        lemma_header_len(width, height, len);
    }
    let mut i: usize = 0;
    while i < data.len()
        invariant
            i <= data@.len(),
            out@ == header(width, height, len) + data@.take(i as int),
        decreases data@.len() - i,
    {
        out.push(data[i]);
        proof {
            assert(data@.take(i as int).push(data@[i as int]) =~= data@.take(i + 1));
        }
        i = i + 1;
    }
    proof {
        assert(data@.take(i as int) =~= data@);
    }
    out
}

} // verus!
