//! The binary raster format: an 8-byte magic `farbfeld`, a big-endian 32-bit
//! width and height, then one 8-byte record per pixel in row-major order:
//! red, green, blue and alpha, each as a big-endian 16-bit value.  Decoding
//! ignores alpha; encoding always writes a fully opaque alpha of 65535.

use vstd::prelude::*;

use crate::color::{in_range16, views, Color, Rgb};

verus! {

/// Decoding failures: the magic does not match, or the byte count does not
/// agree with the dimensions the header promises.
#[derive(Clone, Copy, Debug, PartialEq, Eq, Structural)]
pub enum DecodeError {
    HeaderMismatch,
    TruncatedInput,
}

/// A decoded image: dimensions as the header carries them, and a row-major
/// pixel buffer of exactly `width * height` colors.
pub struct Image {
    pub width: u32,
    pub height: u32,
    pub pixels: Vec<Color>,
}

impl Image {
    /// The buffer length always equals `width * height`, and every decoded
    /// channel lies in the 16-bit range.
    pub open spec fn wf(self) -> bool {
        &&& self.pixels@.len() == (self.width as int) * (self.height as int)
        &&& forall|k: int|
            0 <= k < self.pixels@.len() ==> in_range16(#[trigger] self.pixels@[k]@)
    }
}

/// The big-endian 16-bit value at offset `off`.
pub open spec fn be16_at(b: Seq<u8>, off: int) -> int {
    b[off] * 256 + b[off + 1]
}

/// The big-endian 32-bit value at offset `off`.
pub open spec fn be32_at(b: Seq<u8>, off: int) -> int {
    ((b[off] * 256 + b[off + 1]) * 256 + b[off + 2]) * 256 + b[off + 3]
}

/// The first eight bytes spell `farbfeld`.
pub open spec fn magic_at(b: Seq<u8>) -> bool {
    &&& b.len() >= 8
    &&& b[0] == 102
    &&& b[1] == 97
    &&& b[2] == 114
    &&& b[3] == 98
    &&& b[4] == 102
    &&& b[5] == 101
    &&& b[6] == 108
    &&& b[7] == 100
}

/// A byte stream decodes successfully: magic, full header, and a payload of
/// exactly eight bytes per promised pixel.
pub open spec fn decode_ok(b: Seq<u8>) -> bool {
    &&& b.len() >= 16
    &&& magic_at(b)
    &&& b.len() - 16 == 8 * (be32_at(b, 8) * be32_at(b, 12))
}

/// The color of the `k`-th pixel record; the alpha bytes are not part of it.
pub open spec fn pixel_at(bytes: Seq<u8>, k: int) -> Rgb {
    Rgb {
        r: be16_at(bytes, 16 + 8 * k),
        g: be16_at(bytes, 16 + 8 * k + 2),
        b: be16_at(bytes, 16 + 8 * k + 4),
    }
}

/// `b` is exactly the encoding of a `w` by `h` image with pixels `px`:
/// magic, dimensions, every channel written big-endian, alpha fully opaque.
pub open spec fn encoded_form(b: Seq<u8>, w: int, h: int, px: Seq<Rgb>) -> bool {
    &&& b.len() == 16 + 8 * px.len()
    &&& magic_at(b)
    &&& be32_at(b, 8) == w
    &&& be32_at(b, 12) == h
    &&& px.len() == w * h
    &&& forall|k: int| 0 <= k < px.len() ==> #[trigger] pixel_at(b, k) == px[k]
    &&& forall|k: int| 0 <= k < px.len() ==> #[trigger] be16_at(b, 16 + 8 * k + 6) == 65535
}

/// Shape round trip: whatever encodes, decodes, and decoding yields the same
/// width, height, pixel count, and even the same channel values.
pub proof fn lemma_codec_round_trip(b: Seq<u8>, w: int, h: int, px: Seq<Rgb>)
    requires
        encoded_form(b, w, h, px),
    ensures
        decode_ok(b),
        be32_at(b, 8) == w,
        be32_at(b, 12) == h,
        b.len() - 16 == 8 * px.len(),
        forall|k: int| 0 <= k < px.len() ==> #[trigger] pixel_at(b, k) == px[k],
{
}

/// Decodes a byte stream into an image, or says exactly why it cannot.
pub fn decode(bytes: &Vec<u8>) -> (res: Result<Image, DecodeError>)
    ensures
        res is Ok <==> decode_ok(bytes@),
        res matches Ok(img) ==> {
            &&& img.wf()
            &&& img.width == be32_at(bytes@, 8)
            &&& img.height == be32_at(bytes@, 12)
            &&& img.pixels@.len() == (img.width as int) * (img.height as int)
            &&& forall|k: int|
                0 <= k < img.pixels@.len() ==> #[trigger] img.pixels@[k]@ == pixel_at(bytes@, k)
        },
        res == Err::<Image, DecodeError>(DecodeError::HeaderMismatch) <==> (bytes@.len() >= 8
            && !magic_at(bytes@)),
        res == Err::<Image, DecodeError>(DecodeError::TruncatedInput) <==> (bytes@.len() < 8 || (
        magic_at(bytes@) && !decode_ok(bytes@))),
{
    if bytes.len() < 8 {
        return Err(DecodeError::TruncatedInput);
    }
    if !(bytes[0] == 102 && bytes[1] == 97 && bytes[2] == 114 && bytes[3] == 98 && bytes[4] == 102
        && bytes[5] == 101 && bytes[6] == 108 && bytes[7] == 100) {
        return Err(DecodeError::HeaderMismatch);
    }
    if bytes.len() < 16 {
        return Err(DecodeError::TruncatedInput);
    }
    let width: u32 = (bytes[8] as u32) * 16777216 + (bytes[9] as u32) * 65536 + (bytes[10] as u32)
        * 256 + (bytes[11] as u32);
    let height: u32 = (bytes[12] as u32) * 16777216 + (bytes[13] as u32) * 65536 + (bytes[14]
        as u32) * 256 + (bytes[15] as u32);
    let payload: usize = bytes.len() - 16;
    let n: usize = payload / 8;
    proof {
        assert((width as int) * (height as int) < 0x1_0000_0000_0000_0000) by (nonlinear_arith)
            requires
                0 <= width < 0x1_0000_0000,
                0 <= height < 0x1_0000_0000,
        ;
    }
    if payload % 8 != 0 || (n as u64) != (width as u64) * (height as u64) {
        return Err(DecodeError::TruncatedInput);
    }
    let total: usize = bytes.len();
    let mut pixels: Vec<Color> = Vec::new();
    let mut k: usize = 0;
    while k < n
        invariant
            total == bytes@.len(),
            total == 16 + 8 * n,
            0 <= k <= n,
            pixels@.len() == k,
            forall|j: int| 0 <= j < k ==> #[trigger] pixels@[j]@ == pixel_at(bytes@, j),
            forall|j: int| 0 <= j < k ==> in_range16(#[trigger] pixels@[j]@),
        decreases n - k,
    {
        let off = 16 + 8 * k;
        let r = (bytes[off] as i64) * 256 + (bytes[off + 1] as i64);
        let g = (bytes[off + 2] as i64) * 256 + (bytes[off + 3] as i64);
        let b = (bytes[off + 4] as i64) * 256 + (bytes[off + 5] as i64);
        pixels.push(Color { r, g, b });
        k = k + 1;
    }
    Ok(Image { width, height, pixels })
}

/// Appends `v` as four big-endian bytes.
fn push_be32(out: &mut Vec<u8>, v: u32)
    ensures
        final(out)@.len() == old(out)@.len() + 4,
        forall|j: int| 0 <= j < old(out)@.len() ==> #[trigger] final(out)@[j] == old(out)@[j],
        be32_at(final(out)@, old(out)@.len() as int) == v,
{
    let r1 = v / 256;
    let r2 = r1 / 256;
    out.push((r2 / 256) as u8);
    out.push((r2 % 256) as u8);
    out.push((r1 % 256) as u8);
    out.push((v % 256) as u8);
}

/// Encodes dimensions and pixels back into the byte format, alpha always
/// fully opaque.
pub fn encode(width: u32, height: u32, px: &Vec<Color>) -> (res: Vec<u8>)
    requires
        px@.len() == (width as int) * (height as int),
        forall|k: int| 0 <= k < px@.len() ==> in_range16(#[trigger] px@[k]@),
    ensures
        encoded_form(res@, width as int, height as int, views(px@)),
{
    let mut out: Vec<u8> = Vec::new();
    out.push(102);
    out.push(97);
    out.push(114);
    out.push(98);
    out.push(102);
    out.push(101);
    out.push(108);
    out.push(100);
    assert(magic_at(out@));
    push_be32(&mut out, width);
    assert(magic_at(out@));
    push_be32(&mut out, height);
    assert(magic_at(out@) && be32_at(out@, 8) == width && be32_at(out@, 12) == height);
    let mut k: usize = 0;
    while k < px.len()
        invariant
            px@.len() == (width as int) * (height as int),
            forall|j: int| 0 <= j < px@.len() ==> in_range16(#[trigger] px@[j]@),
            0 <= k <= px@.len(),
            out@.len() == 16 + 8 * k,
            magic_at(out@),
            be32_at(out@, 8) == width,
            be32_at(out@, 12) == height,
            forall|j: int| 0 <= j < k ==> #[trigger] pixel_at(out@, j) == px@[j]@,
            forall|j: int| 0 <= j < k ==> #[trigger] be16_at(out@, 16 + 8 * j + 6) == 65535,
        decreases px@.len() - k,
    {
        let c = px[k];
        let ghost pre = out@;
        proof {
            assert(in_range16(px@[k as int]@));
        }
        out.push((c.r / 256) as u8);
        out.push((c.r % 256) as u8);
        out.push((c.g / 256) as u8);
        out.push((c.g % 256) as u8);
        out.push((c.b / 256) as u8);
        out.push((c.b % 256) as u8);
        out.push(255);
        out.push(255);
        proof {
            assert(be16_at(out@, 16 + 8 * (k as int)) == c.r);
            assert(be16_at(out@, 16 + 8 * (k as int) + 2) == c.g);
            assert(be16_at(out@, 16 + 8 * (k as int) + 4) == c.b);
            assert(be16_at(out@, 16 + 8 * (k as int) + 6) == 65535);
            assert(pixel_at(out@, k as int) == px@[k as int]@);
            assert forall|i: int| 0 <= i < pre.len() implies out@[i] == pre[i] by {}
            assert forall|j: int| 0 <= j < k implies #[trigger] pixel_at(out@, j) == px@[j]@ by {
                assert(pixel_at(pre, j) == px@[j]@);
                assert(out@[16 + 8 * j] == pre[16 + 8 * j]);
                assert(out@[16 + 8 * j + 1] == pre[16 + 8 * j + 1]);
                assert(out@[16 + 8 * j + 2] == pre[16 + 8 * j + 2]);
                assert(out@[16 + 8 * j + 3] == pre[16 + 8 * j + 3]);
                assert(out@[16 + 8 * j + 4] == pre[16 + 8 * j + 4]);
                assert(out@[16 + 8 * j + 5] == pre[16 + 8 * j + 5]);
            }
            assert forall|j: int| 0 <= j < k implies #[trigger] be16_at(out@, 16 + 8 * j + 6)
                == 65535 by {
                assert(be16_at(pre, 16 + 8 * j + 6) == 65535);
                assert(out@[16 + 8 * j + 6] == pre[16 + 8 * j + 6]);
                assert(out@[16 + 8 * j + 7] == pre[16 + 8 * j + 7]);
            }
        }
        k = k + 1;
    }
    proof {
        assert(views(px@) =~= px@.map_values(|c: Color| c@));
        assert forall|j: int| 0 <= j < px@.len() implies #[trigger] pixel_at(out@, j) == views(
            px@,
        )[j] by {
            assert(pixel_at(out@, j) == px@[j]@);
        }
    }
    out
}

} // verus!
