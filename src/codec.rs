use vstd::prelude::*;

use crate::format::{format_bits, format_id, format_of_id, pack_spec, unpack_spec, CteFormat};
use crate::order::{
    lemma_order_covers, order_index, order_x, order_y, traversal_offset, traversal_step,
};
use crate::raster::RasterImage;

verus! {

/// Size of the fixed header fields, before any padding.
pub const CTE_HEADER_SIZE: u32 = 28;

/// Payload offset written by the encoder: the header is always padded to this size.
pub const CTE_PAYLOAD_OFFSET: u32 = 128;

/// Why a byte stream could not be decoded.
#[derive(Debug, Clone, Copy, PartialEq, Eq)]
pub enum CteDecodeError {
    /// The input ended before a field, the padding or the payload was complete.
    IOError,
    /// The first four bytes are not the magic `00 63 74 65`; they are carried.
    InvalidHeader([u8; 4]),
    /// No format has this identifier.
    UnsupportedFormat(u32),
    /// The payload offset lies inside the fixed header fields.
    PayloadStartsTooSoon(u32),
    /// The pixel bit length in the header is not the one of the format.
    PixelLengthInvalid(u32, CteFormat),
    /// The width is not a multiple of the block size.
    WidthNotMultipleOf8(u32),
    /// The height is not a multiple of the block size.
    HeightNotMultipleOf8(u32),
}

/// Why an image could not be encoded.
#[derive(Debug, Clone, Copy, PartialEq, Eq, Structural)]
pub enum CteEncodeError {
    /// The width is not a multiple of the block size.
    WidthNotMultipleOf8(u32),
    /// The height is not a multiple of the block size.
    HeightNotMultipleOf8(u32),
}

/// A decoded image together with the format it was packed in.
pub struct CteImage {
    pub original_format: CteFormat,
    pub image: RasterImage,
}

/// The little-endian 32-bit number stored at `off` in `b`.
pub open spec fn le_u32(b: Seq<u8>, off: int) -> u32 {
    (b[off] as int + 256 * b[off + 1] as int + 65536 * b[off + 2] as int + 16777216 * b[off
        + 3] as int) as u32
}

/// The four little-endian bytes of `v`.
pub open spec fn le_bytes(v: u32) -> Seq<u8> {
    seq![
        (v % 256) as u8,
        ((v / 256) % 256) as u8,
        ((v / 65536) % 256) as u8,
        ((v / 16777216) % 256) as u8,
    ]
}

/// The magic bytes that open every stream.
pub open spec fn magic() -> Seq<u8> {
    seq![0x00u8, 0x63u8, 0x74u8, 0x65u8]
}

/// The four-byte array whose contents are the first four bytes of `b`.
pub open spec fn magic_found(b: Seq<u8>) -> [u8; 4] {
    choose|h: [u8; 4]| h@ == b.subrange(0, 4)
}

/// Offset in the payload of the byte for pixel `(x, y)` of a `w` x `h` image:
/// blocks are stored row of blocks by row of blocks from the bottom of the
/// image, left to right, and inside a block in traversal order.
pub open spec fn payload_index(w: int, h: int, x: int, y: int) -> int {
    ((h / 8 - 1 - y / 8) * (w / 8) + x / 8) * 64 + order_index(x % 8, y % 8)
}

/// Byte `k` of the RGBA buffer decoded from `payload`.
pub open spec fn decoded_byte(f: CteFormat, payload: Seq<u8>, w: int, h: int, k: int) -> u8 {
    unpack_spec(f, payload[payload_index(w, h, (k / 4) % w, (k / 4) / w)])[k % 4]
}

/// The RGBA buffer decoded from `payload` for a `w` x `h` image in format `f`.
pub open spec fn decoded_pixels(f: CteFormat, payload: Seq<u8>, w: int, h: int) -> Seq<u8> {
    Seq::new(
        (w * h * 4) as nat,
        |k: int| decoded_byte(f, payload, w, h, k),
    )
}

/// What decoding `b` yields: the format, width, height and RGBA buffer, or the
/// first failure met while reading the header fields in order.
pub open spec fn decode_spec(b: Seq<u8>) -> Result<(CteFormat, u32, u32, Seq<u8>), CteDecodeError> {
    if b.len() < 4 {
        Err(CteDecodeError::IOError)
    } else if b.subrange(0, 4) != magic() {
        Err(CteDecodeError::InvalidHeader(magic_found(b)))
    } else if b.len() < 8 {
        Err(CteDecodeError::IOError)
    } else if format_of_id(le_u32(b, 4)) is None {
        Err(CteDecodeError::UnsupportedFormat(le_u32(b, 4)))
    } else if b.len() < CTE_HEADER_SIZE {
        Err(CteDecodeError::IOError)
    } else {
        let f = format_of_id(le_u32(b, 4))->Some_0;
        let w = le_u32(b, 8);
        let h = le_u32(b, 12);
        let bits = le_u32(b, 16);
        let off = le_u32(b, 24);
        if bits != format_bits(f) {
            Err(CteDecodeError::PixelLengthInvalid(bits, f))
        } else if off < CTE_HEADER_SIZE {
            Err(CteDecodeError::PayloadStartsTooSoon(off))
        } else if b.len() < off {
            Err(CteDecodeError::IOError)
        } else if w % 8 != 0 {
            Err(CteDecodeError::WidthNotMultipleOf8(w))
        } else if h % 8 != 0 {
            Err(CteDecodeError::HeightNotMultipleOf8(h))
        } else if b.len() < off + w * h {
            Err(CteDecodeError::IOError)
        } else {
            Ok((f, w, h, decoded_pixels(f, b.subrange(off as int, off + w * h), w as int, h as int)))
        }
    }
}

/// The 128 header bytes written for a `w` x `h` image in format `f`: magic,
/// identifier, width, height, pixel bit length, a zero reserved field, the
/// payload offset 128, then zero padding.
pub open spec fn header_bytes(f: CteFormat, w: u32, h: u32) -> Seq<u8> {
    magic() + le_bytes(format_id(f)) + le_bytes(w) + le_bytes(h) + le_bytes(format_bits(f))
        + le_bytes(0) + le_bytes(CTE_PAYLOAD_OFFSET) + Seq::new(100, |j: int| 0u8)
}

/// Column of the image pixel stored at payload byte `k` of a `w` x `h` image.
pub open spec fn stored_x(w: int, k: int) -> int {
    ((k / 64) % (w / 8)) * 8 + order_x(k % 64)
}

/// Row of the image pixel stored at payload byte `k` of a `w` x `h` image:
/// the first row of blocks in the payload is the bottom one of the image.
pub open spec fn stored_y(w: int, h: int, k: int) -> int {
    (h / 8 - 1 - (k / 64) / (w / 8)) * 8 + order_y(k % 64)
}

/// Payload byte `k` of the encoding of `img` in format `f`.
pub open spec fn encoded_byte(f: CteFormat, img: RasterImage, k: int) -> u8 {
    let x = stored_x(img.width as int, k);
    let y = stored_y(img.width as int, img.height as int, k);
    pack_spec(f, img.channel(x, y, 0), img.channel(x, y, 1), img.channel(x, y, 2), img.channel(x, y, 3))
}

/// The payload of the encoding of `img` in format `f`.
pub open spec fn encoded_payload(f: CteFormat, img: RasterImage) -> Seq<u8> {
    Seq::new((img.width * img.height) as nat, |k: int| encoded_byte(f, img, k))
}

/// The whole byte stream that encodes `img` in format `f`.
pub open spec fn encode_spec(f: CteFormat, img: RasterImage) -> Seq<u8> {
    header_bytes(f, img.width, img.height) + encoded_payload(f, img)
}

/// Appends the four little-endian bytes of `v`.
fn push_u32_le(out: &mut Vec<u8>, v: u32)
    ensures
        final(out)@ == old(out)@ + le_bytes(v),
{
    out.push((v % 256) as u8);
    out.push(((v / 256) % 256) as u8);
    out.push(((v / 65536) % 256) as u8);
    out.push(((v / 16777216) % 256) as u8);
    assert(final(out)@ =~= old(out)@ + le_bytes(v));
}

/// Reads the little-endian 32-bit number at `off`.
fn read_u32_le(b: &[u8], off: usize) -> (r: u32)
    requires
        off + 4 <= b@.len(),
    ensures
        r == le_u32(b@, off as int),
{
    let b0 = b[off] as u64;
    let b1 = b[off + 1] as u64;
    let b2 = b[off + 2] as u64;
    let b3 = b[off + 3] as u64;
    let v: u64 = b0 + 256 * b1 + 65536 * b2 + 16777216 * b3;
    assert(v < 0x1_0000_0000) by (nonlinear_arith)
        requires v == b0 + 256 * b1 + 65536 * b2 + 16777216 * b3, b0 < 256, b1 < 256, b2 < 256, b3 < 256;
    v as u32
}

/// Offset in the payload of the byte for pixel `(x, y)`.
fn payload_offset(w: u32, h: u32, x: u32, y: u32) -> (r: usize)
    requires
        w % 8 == 0,
        h % 8 == 0,
        x < w,
        y < h,
        w as int * h as int <= usize::MAX,
    ensures
        r == payload_index(w as int, h as int, x as int, y as int),
        r < w as int * h as int,
{
    let wb: usize = (w / 8) as usize;
    let hb: usize = (h / 8) as usize;
    let bx: usize = (x / 8) as usize;
    let by: usize = (y / 8) as usize;
    let step: usize = traversal_step(x % 8, y % 8);
    proof {
        lemma_payload_index_bound(w as int, h as int, x as int, y as int);
        let (wi, hi) = (wb as int, hb as int);
        assert(0 <= (hi - 1 - by) * wi) by (nonlinear_arith)
            requires by < hi, 0 <= wi;
    }
    ((hb - 1 - by) * wb + bx) * 64 + step
}

/// Splits a raw buffer index into pixel column, row and channel.
proof fn lemma_split_index(w: int, x: int, y: int, c: int)
    requires
        0 <= x < w,
        0 <= y,
        0 <= c < 4,
    ensures
        ((y * w + x) * 4 + c) / 4 == y * w + x,
        ((y * w + x) * 4 + c) % 4 == c,
        (y * w + x) % w == x,
        (y * w + x) / w == y,
{
    assert(0 <= y * w) by (nonlinear_arith)
        requires 0 <= y, 0 <= w;
    vstd::arithmetic::div_mod::lemma_fundamental_div_mod_converse((y * w + x) * 4 + c, 4, y * w + x, c);
    vstd::arithmetic::div_mod::lemma_fundamental_div_mod_converse(y * w + x, w, y, x);
}

impl CteImage {
    /// Decodes a CTE byte stream: header, padding up to the payload offset, then
    /// the block-tiled payload, into an RGBA raster.
    pub fn decode_cte(input: &[u8]) -> (r: Result<CteImage, CteDecodeError>)
        ensures
            match r {
                Ok(img) => img.image.wf() && decode_spec(input@) == Ok::<_, CteDecodeError>(
                    (img.original_format, img.image.width, img.image.height, img.image.data@),
                ),
                Err(e) => decode_spec(input@) == Err::<(CteFormat, u32, u32, Seq<u8>), CteDecodeError>(e),
            },
    {
        let len = input.len();
        if len < 4 {
            return Err(CteDecodeError::IOError);
        }
        let header = [input[0], input[1], input[2], input[3]];
        assert(header@ =~= input@.subrange(0, 4));
        if header[0] != 0x00 || header[1] != 0x63 || header[2] != 0x74 || header[3] != 0x65 {
            proof {
                assert(header@ != magic()) by {
                    if header@ == magic() {
                        assert(header@[0] == magic()[0] && header@[1] == magic()[1]);
                        assert(header@[2] == magic()[2] && header@[3] == magic()[3]);
                    }
                }
                assert(exists|h: [u8; 4]| h@ == input@.subrange(0, 4));
                let found = magic_found(input@);
                assert(found@ == header@);
                assert(found =~= header);
            }
            return Err(CteDecodeError::InvalidHeader(header));
        }
        assert(input@.subrange(0, 4) =~= magic());
        if len < 8 {
            return Err(CteDecodeError::IOError);
        }
        let format_id = read_u32_le(input, 4);
        let format = match CteFormat::from_id(format_id) {
            Some(f) => f,
            None => {
                return Err(CteDecodeError::UnsupportedFormat(format_id));
            },
        };
        if len < 28 {
            return Err(CteDecodeError::IOError);
        }
        let width = read_u32_le(input, 8);
        let height = read_u32_le(input, 12);
        let pixel_length = read_u32_le(input, 16);
        let payload_start = read_u32_le(input, 24);
        if !format.check_pixel_lenght_bit(pixel_length) {
            return Err(CteDecodeError::PixelLengthInvalid(pixel_length, format));
        }
        if payload_start < CTE_HEADER_SIZE {
            return Err(CteDecodeError::PayloadStartsTooSoon(payload_start));
        }
        if (len as u64) < payload_start as u64 {
            return Err(CteDecodeError::IOError);
        }
        if width % 8 != 0 {
            return Err(CteDecodeError::WidthNotMultipleOf8(width));
        }
        if height % 8 != 0 {
            return Err(CteDecodeError::HeightNotMultipleOf8(height));
        }
        assert(width as int * height as int + payload_start as int <= u64::MAX) by (nonlinear_arith)
            requires width <= u32::MAX, height <= u32::MAX, payload_start <= u32::MAX;
        let size: u64 = width as u64 * height as u64;
        if (len as u64) < payload_start as u64 + size {
            return Err(CteDecodeError::IOError);
        }
        let start = payload_start as usize;
        let ghost payload = input@.subrange(start as int, start + size);
        let ghost (wi, hi) = (width as int, height as int);
        let mut data: Vec<u8> = Vec::new();
        let mut y: u32 = 0;
        while y < height
            invariant
                y <= height,
                width % 8 == 0,
                height % 8 == 0,
                wi == width,
                hi == height,
                size == wi * hi,
                start + size <= input@.len(),
                len == input@.len(),
                payload == input@.subrange(start as int, start + size),
                data@.len() == y * wi * 4,
                forall|k: int|
                    0 <= k < data@.len() ==> #[trigger] data@[k] == decoded_byte(format, payload, wi, hi, k),
            decreases height - y,
        {
            let mut x: u32 = 0;
            while x < width
                invariant
                    x <= width,
                    y < height,
                    width % 8 == 0,
                    height % 8 == 0,
                    wi == width,
                    hi == height,
                    size == wi * hi,
                    start + size <= input@.len(),
                len == input@.len(),
                    payload == input@.subrange(start as int, start + size),
                    data@.len() == (y * wi + x) * 4,
                    forall|k: int|
                        0 <= k < data@.len() ==> #[trigger] data@[k] == decoded_byte(format, payload, wi, hi, k),
                decreases width - x,
            {
                let at = payload_offset(width, height, x, y);
                let pixel = format.unpack_pixel(input[start + at]);
                proof {
                    assert(payload[at as int] == input@[start + at]);
                    assert forall|c: int| 0 <= c < 4 implies decoded_byte(format, payload, wi, hi, (y * wi + x) * 4 + c) == pixel@[c] by {
                        lemma_split_index(wi, x as int, y as int, c);
                    }
                }
                let ghost before = data@;
                data.push(pixel[0]);
                data.push(pixel[1]);
                data.push(pixel[2]);
                data.push(pixel[3]);
                proof {
                    let base = (y * wi + x) * 4;
                    assert forall|k: int| 0 <= k < data@.len() implies #[trigger] data@[k] == decoded_byte(format, payload, wi, hi, k) by {
                        if k >= base {
                            assert(data@[k] == pixel@[k - base]);
                            assert(k == base + (k - base));
                        } else {
                            assert(data@[k] == before[k]);
                        }
                    }
                    assert((y * wi + x + 1) * 4 == data@.len());
                }
                x = x + 1;
            }
            proof {
                assert((y * wi + wi) * 4 == (y + 1) * wi * 4) by (nonlinear_arith);
            }
            y = y + 1;
        }
        assert(hi * wi * 4 == wi * hi * 4) by (nonlinear_arith);
        assert(data@ =~= decoded_pixels(format, payload, wi, hi));
        Ok(CteImage { original_format: format, image: RasterImage { width, height, data } })
    }

    /// Appends the CTE encoding of the image to `out`: the 128-byte header, then
    /// the payload with blocks from the bottom row of blocks upwards. Fails,
    /// leaving `out` as it was, when a dimension is not a multiple of 8.
    pub fn encode_cte(&self, out: &mut Vec<u8>) -> (r: Result<(), CteEncodeError>)
        requires
            self.image.wf(),
        ensures
            self.image.width % 8 != 0 ==> r == Err::<(), CteEncodeError>(
                CteEncodeError::WidthNotMultipleOf8(self.image.width),
            ),
            self.image.width % 8 == 0 && self.image.height % 8 != 0 ==> r == Err::<(), CteEncodeError>(
                CteEncodeError::HeightNotMultipleOf8(self.image.height),
            ),
            r is Err ==> final(out)@ == old(out)@,
            self.image.width % 8 == 0 && self.image.height % 8 == 0 ==> r is Ok && final(out)@
                == old(out)@ + encode_spec(self.original_format, self.image),
    {
        let width = self.image.width;
        let height = self.image.height;
        if width % 8 != 0 {
            return Err(CteEncodeError::WidthNotMultipleOf8(width));
        }
        if height % 8 != 0 {
            return Err(CteEncodeError::HeightNotMultipleOf8(height));
        }
        let format = self.original_format;
        out.push(0x00);
        out.push(0x63);
        out.push(0x74);
        out.push(0x65);
        push_u32_le(out, format.get_id());
        push_u32_le(out, width);
        push_u32_le(out, height);
        push_u32_le(out, format.get_pixel_length_bit());
        push_u32_le(out, 0);
        push_u32_le(out, CTE_PAYLOAD_OFFSET);
        let mut pad: u32 = CTE_HEADER_SIZE;
        while pad < CTE_PAYLOAD_OFFSET
            invariant
                CTE_HEADER_SIZE <= pad <= CTE_PAYLOAD_OFFSET,
                out@.len() == old(out)@.len() + pad,
                out@ =~= old(out)@ + header_bytes(format, width, height).subrange(0, pad as int),
            decreases CTE_PAYLOAD_OFFSET - pad,
        {
            out.push(0);
            pad = pad + 1;
        }
        assert(header_bytes(format, width, height).subrange(0, 128) =~= header_bytes(format, width, height));
        let ghost pre = out@;
        let ghost img = self.image;
        let ghost (wi, hi) = (width as int, height as int);
        let wb: u32 = width / 8;
        let hb: u32 = height / 8;
        let mut row: u32 = 0;
        while row < hb
            invariant
                row <= hb,
                wb == wi / 8,
                hb == hi / 8,
                wi == width,
                hi == height,
                width % 8 == 0,
                height % 8 == 0,
                img == self.image,
                img.wf(),
                wi == img.width,
                hi == img.height,
                out@.len() == pre.len() + row * wb * 64,
                out@.subrange(0, pre.len() as int) == pre,
                forall|j: int| 0 <= j < out@.len() - pre.len() ==> #[trigger] out@[pre.len() + j] == encoded_byte(format, img, j),
            decreases hb - row,
        {
            let by: u32 = hb - 1 - row;
            let mut bx: u32 = 0;
            while bx < wb
                invariant
                    row < hb,
                    by == hb - 1 - row,
                    bx <= wb,
                    wb == wi / 8,
                    hb == hi / 8,
                    wi == width,
                    hi == height,
                    width % 8 == 0,
                    height % 8 == 0,
                    img == self.image,
                    img.wf(),
                    wi == img.width,
                    hi == img.height,
                    out@.len() == pre.len() + (row * wb + bx) * 64,
                    out@.subrange(0, pre.len() as int) == pre,
                    forall|j: int| 0 <= j < out@.len() - pre.len() ==> #[trigger] out@[pre.len() + j] == encoded_byte(format, img, j),
                decreases wb - bx,
            {
                let mut i: usize = 0;
                while i < 64
                    invariant
                        row < hb,
                        by == hb - 1 - row,
                        bx < wb,
                        i <= 64,
                        wb == wi / 8,
                        hb == hi / 8,
                        wi == width,
                        hi == height,
                        width % 8 == 0,
                        height % 8 == 0,
                        img == self.image,
                        img.wf(),
                        wi == img.width,
                        hi == img.height,
                        out@.len() == pre.len() + (row * wb + bx) * 64 + i,
                        out@.subrange(0, pre.len() as int) == pre,
                        forall|j: int| 0 <= j < out@.len() - pre.len() ==> #[trigger] out@[pre.len() + j] == encoded_byte(format, img, j),
                    decreases 64 - i,
                {
                    let (ox, oy) = traversal_offset(i);
                    let x: u32 = bx * 8 + ox;
                    let y: u32 = by * 8 + oy;
                    let pixel = self.image.get_pixel(x, y);
                    let byte = format.pack_pixel(pixel[0], pixel[1], pixel[2], pixel[3]);
                    proof {
                        let blk = row * wb + bx;
                        let k = blk * 64 + i;
                        vstd::arithmetic::div_mod::lemma_fundamental_div_mod_converse(k, 64, blk, i as int);
                        vstd::arithmetic::div_mod::lemma_fundamental_div_mod_converse(blk, wb as int, row as int, bx as int);
                        assert(stored_x(wi, k) == x);
                        assert(stored_y(wi, hi, k) == y);
                        assert(byte == encoded_byte(format, img, k));
                    }
                    let ghost before = out@;
                    out.push(byte);
                    proof {
                        assert forall|j: int| 0 <= j < out@.len() - pre.len() implies #[trigger] out@[pre.len() + j] == encoded_byte(format, img, j) by {
                            if j < before.len() - pre.len() {
                                assert(out@[pre.len() + j] == before[pre.len() + j]);
                            }
                        }
                        assert(out@.subrange(0, pre.len() as int) =~= before.subrange(0, pre.len() as int));
                    }
                    i = i + 1;
                }
                bx = bx + 1;
            }
            proof {
                assert((row * wb + wb) * 64 == (row + 1) * wb * 64) by (nonlinear_arith);
            }
            row = row + 1;
        }
        proof {
            assert(hb * wb * 64 == wi * hi) by (nonlinear_arith)
                requires wi == 8 * wb, hi == 8 * hb;
            assert(out@ =~= pre + encoded_payload(format, img)) by {
                assert(out@.subrange(0, pre.len() as int) == pre);
                assert forall|j: int| 0 <= j < out@.len() implies out@[j] == (pre + encoded_payload(format, img))[j] by {
                    if j >= pre.len() {
                        assert(out@[pre.len() + (j - pre.len())] == encoded_byte(format, img, j - pre.len()));
                    } else {
                        assert(out@[j] == out@.subrange(0, pre.len() as int)[j]);
                    }
                }
            }
        }
        Ok(())
    }
}

/// Reading back the four little-endian bytes of `v` gives `v`.
proof fn lemma_le_round_trip(v: u32, b: Seq<u8>, off: int)
    requires
        0 <= off,
        off + 4 <= b.len(),
        b.subrange(off, off + 4) == le_bytes(v),
    ensures
        le_u32(b, off) == v,
{
    assert(b[off] == le_bytes(v)[0] && b[off + 1] == le_bytes(v)[1]);
    assert(b[off + 2] == le_bytes(v)[2] && b[off + 3] == le_bytes(v)[3]);
    assert(v == (v % 256) + 256 * ((v / 256) % 256) + 65536 * ((v / 65536) % 256) + 16777216 * ((v
        / 16777216) % 256)) by (bit_vector);
}

/// The payload byte of every pixel of a `w` x `h` image lies in the payload.
pub proof fn lemma_payload_index_bound(w: int, h: int, x: int, y: int)
    requires
        w % 8 == 0,
        h % 8 == 0,
        0 <= x < w,
        0 <= y < h,
    ensures
        0 <= payload_index(w, h, x, y) < w * h,
{
    let (wb, hb, bx, by) = (w / 8, h / 8, x / 8, y / 8);
    lemma_order_covers(x % 8, y % 8);
    let step = order_index(x % 8, y % 8);
    assert(w * h == 64 * (hb * wb)) by (nonlinear_arith)
        requires w == 8 * wb, h == 8 * hb;
    assert(0 <= (hb - 1 - by) * wb + bx && ((hb - 1 - by) * wb + bx) * 64 + step < 64 * (hb * wb))
        by (nonlinear_arith)
        requires by < hb, bx < wb, 0 <= by, 0 <= bx, 0 <= step < 64;
}

/// A stream made of the header that the encoder writes for a `w` x `h` image
/// in format `f`, followed by `w * h` payload bytes, decodes to that format and
/// size, with the pixels that the payload stands for.
pub proof fn lemma_decode_after_header(f: CteFormat, w: u32, h: u32, payload: Seq<u8>)
    requires
        w % 8 == 0,
        h % 8 == 0,
        payload.len() == w * h,
    ensures
        decode_spec(header_bytes(f, w, h) + payload) == Ok::<_, CteDecodeError>(
            (f, w, h, decoded_pixels(f, payload, w as int, h as int)),
        ),
{
    let hd = header_bytes(f, w, h);
    let b = hd + payload;
    assert(hd.len() == 128);
    assert(b.subrange(0, 4) =~= magic());
    assert(b.subrange(4, 8) =~= le_bytes(format_id(f)));
    assert(b.subrange(8, 12) =~= le_bytes(w));
    assert(b.subrange(12, 16) =~= le_bytes(h));
    assert(b.subrange(16, 20) =~= le_bytes(format_bits(f)));
    assert(b.subrange(24, 28) =~= le_bytes(CTE_PAYLOAD_OFFSET));
    lemma_le_round_trip(format_id(f), b, 4);
    lemma_le_round_trip(w, b, 8);
    lemma_le_round_trip(h, b, 12);
    lemma_le_round_trip(format_bits(f), b, 16);
    lemma_le_round_trip(CTE_PAYLOAD_OFFSET, b, 24);
    assert(format_of_id(format_id(f)) == Some(f));
    assert(b.subrange(128, 128 + w * h) =~= payload);
}

/// Encoding an image whose sides are multiples of 8 and decoding the result
/// gives back the format, the width and the height.
pub proof fn lemma_header_round_trip(f: CteFormat, img: RasterImage)
    requires
        img.wf(),
        img.width % 8 == 0,
        img.height % 8 == 0,
    ensures
        decode_spec(encode_spec(f, img)) matches Ok((g, w, h, _)) && g == f && w == img.width && h
            == img.height,
{
    lemma_decode_after_header(f, img.width, img.height, encoded_payload(f, img));
}

/// Byte `k` of a `w` x `h` RGBA buffer belongs to a pixel inside the image.
proof fn lemma_pixel_of_index(w: int, h: int, k: int)
    requires
        0 <= w,
        0 <= h,
        0 <= k < w * h * 4,
    ensures
        0 <= (k / 4) % w < w,
        0 <= (k / 4) / w < h,
{
    let p = k / 4;
    assert(0 <= p < w * h);
    assert(w > 0) by (nonlinear_arith)
        requires 0 <= p < w * h, 0 <= h;
    vstd::arithmetic::div_mod::lemma_fundamental_div_mod(p, w);
    let (q, r) = (p / w, p % w);
    assert(0 <= q < h) by (nonlinear_arith)
        requires p == w * q + r, 0 <= r < w, 0 <= p < w * h, w > 0;
}

/// The payload byte that the decoder reads for pixel `(x, y)` is the one that
/// the encoder writes for that same pixel.
proof fn lemma_stored_position(w: int, h: int, x: int, y: int)
    requires
        w % 8 == 0,
        h % 8 == 0,
        0 <= x < w,
        0 <= y < h,
    ensures
        stored_x(w, payload_index(w, h, x, y)) == x,
        stored_y(w, h, payload_index(w, h, x, y)) == y,
{
    let (wb, hb, bx, by) = (w / 8, h / 8, x / 8, y / 8);
    lemma_order_covers(x % 8, y % 8);
    lemma_payload_index_bound(w, h, x, y);
    let step = order_index(x % 8, y % 8);
    let blk = (hb - 1 - by) * wb + bx;
    let pi = payload_index(w, h, x, y);
    assert(pi == blk * 64 + step);
    assert(by < hb && 0 <= bx < wb);
    assert(0 <= blk) by (nonlinear_arith)
        requires blk == (hb - 1 - by) * wb + bx, by < hb, 0 <= bx, 0 <= by, 0 <= wb;
    vstd::arithmetic::div_mod::lemma_fundamental_div_mod_converse(pi, 64, blk, step);
    vstd::arithmetic::div_mod::lemma_fundamental_div_mod_converse(blk, wb, hb - 1 - by, bx);
}

/// The pixels that an image of format `f` comes back with after a trip
/// through the codec: each pixel packed, then unpacked.
pub open spec fn quantized_pixels(f: CteFormat, img: RasterImage) -> Seq<u8> {
    let w = img.width as int;
    Seq::new(
        (img.width * img.height * 4) as nat,
        |k: int|
            unpack_spec(
                f,
                pack_spec(
                    f,
                    img.channel((k / 4) % w, (k / 4) / w, 0),
                    img.channel((k / 4) % w, (k / 4) / w, 1),
                    img.channel((k / 4) % w, (k / 4) / w, 2),
                    img.channel((k / 4) % w, (k / 4) / w, 3),
                ),
            )[k % 4],
    )
}

/// Encoding an image whose sides are multiples of 8 and decoding the result
/// gives back the format, the size and every pixel, each packed and unpacked:
/// the encoder and the decoder place every pixel at the same payload byte.
pub proof fn lemma_round_trip(f: CteFormat, img: RasterImage)
    requires
        img.wf(),
        img.width % 8 == 0,
        img.height % 8 == 0,
    ensures
        decode_spec(encode_spec(f, img)) == Ok::<_, CteDecodeError>(
            (f, img.width, img.height, quantized_pixels(f, img)),
        ),
{
    let (wi, hi) = (img.width as int, img.height as int);
    let payload = encoded_payload(f, img);
    lemma_decode_after_header(f, img.width, img.height, payload);
    let d = decoded_pixels(f, payload, wi, hi);
    let q = quantized_pixels(f, img);
    assert forall|k: int| 0 <= k < d.len() implies d[k] == q[k] by {
        lemma_pixel_of_index(wi, hi, k);
        let (x, y) = ((k / 4) % wi, (k / 4) / wi);
        lemma_payload_index_bound(wi, hi, x, y);
        lemma_stored_position(wi, hi, x, y);
    }
    assert(d =~= q);
}

/// For any sides that are multiples of 8, a stream with an all-zero payload
/// decodes to an image of that size whose every pixel is `(0, 0, 0, 0)`.
pub proof fn lemma_decode_blank(w: u32, h: u32)
    requires
        w % 8 == 0,
        h % 8 == 0,
    ensures
        decode_spec(header_bytes(CteFormat::A8, w, h) + Seq::new((w * h) as nat, |k: int| 0u8))
            == Ok::<_, CteDecodeError>(
            (CteFormat::A8, w, h, Seq::new((w * h * 4) as nat, |k: int| 0u8)),
        ),
{
    let payload = Seq::new((w * h) as nat, |k: int| 0u8);
    lemma_decode_after_header(CteFormat::A8, w, h, payload);
    let (wi, hi) = (w as int, h as int);
    let d = decoded_pixels(CteFormat::A8, payload, wi, hi);
    assert forall|k: int| 0 <= k < d.len() implies d[k] == 0u8 by {
        lemma_pixel_of_index(wi, hi, k);
        lemma_payload_index_bound(wi, hi, (k / 4) % wi, (k / 4) / wi);
    }
    assert(d =~= Seq::new((w * h * 4) as nat, |k: int| 0u8));
}

} // verus!
