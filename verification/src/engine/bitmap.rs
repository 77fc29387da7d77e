//! One-bit-per-pixel image buffer, packed row by row, most significant bit first.

use vstd::prelude::*;
use vstd::arithmetic::div_mod::lemma_fundamental_div_mod_converse;

verus! {

/// Bit `i` (0 = least significant) of the byte `b`.
pub open spec fn bit_of(b: u8, i: u8) -> bool {
    (b >> i) & 1u8 == 1u8
}

/// The bit index inside its byte that holds horizontal position `x`
/// (the leftmost pixel of a byte is its most significant bit).
pub open spec fn bit_index(x: int) -> u8 {
    (7 - x % 8) as u8
}

pub proof fn lemma_bit_or(b: u8, i: u8, j: u8)
    requires
        i < 8,
        j < 8,
    ensures
        bit_of(b | (1u8 << i), j) == (i == j || bit_of(b, j)),
{
    assert(bit_of(b | (1u8 << i), j) == (i == j || bit_of(b, j))) by (bit_vector)
        requires
            i < 8,
            j < 8,
    ;
}

pub proof fn lemma_bit_and_not(b: u8, i: u8, j: u8)
    requires
        i < 8,
        j < 8,
    ensures
        bit_of(b & !(1u8 << i), j) == (i != j && bit_of(b, j)),
{
    assert(bit_of(b & !(1u8 << i), j) == (i != j && bit_of(b, j))) by (bit_vector)
        requires
            i < 8,
            j < 8,
    ;
}

pub proof fn lemma_bit_zero(j: u8)
    requires
        j < 8,
    ensures
        !bit_of(0u8, j),
{
    assert(!bit_of(0u8, j)) by (bit_vector)
        requires
            j < 8,
    ;
}

/// Two bytes that agree on all eight bits are equal.
pub proof fn lemma_byte_ext(a: u8, b: u8)
    requires
        forall|j: u8| j < 8 ==> bit_of(a, j) == bit_of(b, j),
    ensures
        a == b,
{
    assert(bit_of(a, 0) == bit_of(b, 0));
    assert(bit_of(a, 1) == bit_of(b, 1));
    assert(bit_of(a, 2) == bit_of(b, 2));
    assert(bit_of(a, 3) == bit_of(b, 3));
    assert(bit_of(a, 4) == bit_of(b, 4));
    assert(bit_of(a, 5) == bit_of(b, 5));
    assert(bit_of(a, 6) == bit_of(b, 6));
    assert(bit_of(a, 7) == bit_of(b, 7));
    assert(a == b) by (bit_vector)
        requires
            bit_of(a, 0) == bit_of(b, 0),
            bit_of(a, 1) == bit_of(b, 1),
            bit_of(a, 2) == bit_of(b, 2),
            bit_of(a, 3) == bit_of(b, 3),
            bit_of(a, 4) == bit_of(b, 4),
            bit_of(a, 5) == bit_of(b, 5),
            bit_of(a, 6) == bit_of(b, 6),
            bit_of(a, 7) == bit_of(b, 7),
    ;
}

/// Position `(x, y)` of a grid with rows of `rb` bytes lies in byte `y * rb + x / 8`,
/// inside the buffer of `rb * h` bytes.
pub proof fn lemma_byte_index_bounds(x: int, y: int, w: int, h: int, rb: int)
    requires
        0 <= x < w,
        0 <= y < h,
        rb == (w + 7) / 8,
    ensures
        0 <= x / 8 < rb,
        0 <= y * rb + x / 8 < rb * h,
        y * rb <= y * rb + x / 8,
{
    assert(0 <= y * rb) by (nonlinear_arith)
        requires
            0 <= y,
            0 <= rb,
    ;
    assert(y * rb + rb <= rb * h) by (nonlinear_arith)
        requires
            0 <= y < h,
            0 <= rb,
    ;
}

/// Distinct in-row byte offsets of distinct rows never share a byte.
pub proof fn lemma_byte_index_unique(x1: int, y1: int, x2: int, y2: int, rb: int)
    requires
        0 <= x1 / 8 < rb,
        0 <= x2 / 8 < rb,
        0 <= y1,
        0 <= y2,
        y1 * rb + x1 / 8 == y2 * rb + x2 / 8,
    ensures
        y1 == y2,
        x1 / 8 == x2 / 8,
{
    let a = x1 / 8;
    let b = x2 / 8;
    if y1 < y2 {
        assert(y1 * rb + rb <= y2 * rb) by (nonlinear_arith)
            requires
                y1 < y2,
                0 <= rb,
        ;
    } else if y2 < y1 {
        assert(y2 * rb + rb <= y1 * rb) by (nonlinear_arith)
            requires
                y2 < y1,
                0 <= rb,
        ;
    }
}


/// The byte whose bits, most significant first, are `f(0), ..., f(7)`.
pub open spec fn pack_byte(f: spec_fn(int) -> bool) -> u8 {
    pack8(f(0), f(1), f(2), f(3), f(4), f(5), f(6), f(7))
}

pub open spec fn pack8(b0: bool, b1: bool, b2: bool, b3: bool, b4: bool, b5: bool, b6: bool, b7: bool) -> u8 {
    (if b0 { 0x80u8 } else { 0u8 }) | (if b1 { 0x40u8 } else { 0u8 }) | (if b2 { 0x20u8 } else { 0u8 }) | (
    if b3 { 0x10u8 } else { 0u8 }) | (if b4 { 0x08u8 } else { 0u8 }) | (if b5 { 0x04u8 } else { 0u8 }) | (
    if b6 { 0x02u8 } else { 0u8 }) | (if b7 { 0x01u8 } else { 0u8 })
}

pub proof fn lemma_pack8(b0: bool, b1: bool, b2: bool, b3: bool, b4: bool, b5: bool, b6: bool, b7: bool)
    ensures
        bit_of(pack8(b0, b1, b2, b3, b4, b5, b6, b7), 7) == b0,
        bit_of(pack8(b0, b1, b2, b3, b4, b5, b6, b7), 6) == b1,
        bit_of(pack8(b0, b1, b2, b3, b4, b5, b6, b7), 5) == b2,
        bit_of(pack8(b0, b1, b2, b3, b4, b5, b6, b7), 4) == b3,
        bit_of(pack8(b0, b1, b2, b3, b4, b5, b6, b7), 3) == b4,
        bit_of(pack8(b0, b1, b2, b3, b4, b5, b6, b7), 2) == b5,
        bit_of(pack8(b0, b1, b2, b3, b4, b5, b6, b7), 1) == b6,
        bit_of(pack8(b0, b1, b2, b3, b4, b5, b6, b7), 0) == b7,
{
    let p = pack8(b0, b1, b2, b3, b4, b5, b6, b7);
    assert(bit_of(p, 7) == b0 && bit_of(p, 6) == b1 && bit_of(p, 5) == b2 && bit_of(p, 4) == b3
        && bit_of(p, 3) == b4 && bit_of(p, 2) == b5 && bit_of(p, 1) == b6 && bit_of(p, 0) == b7) by (bit_vector)
        requires
            p == pack8(b0, b1, b2, b3, b4, b5, b6, b7),
    ;
}

/// Bit `j` of `pack_byte(f)` is `f(7 - j)`.
pub proof fn lemma_pack_byte(f: spec_fn(int) -> bool, j: u8)
    requires
        j < 8,
    ensures
        bit_of(pack_byte(f), j) == f(7 - j),
{
    lemma_pack8(f(0), f(1), f(2), f(3), f(4), f(5), f(6), f(7));
}

proof fn lemma_mul_le(a: int, s: int)
    requires
        a >= 0,
        s >= 1,
    ensures
        a <= a * s,
{
    assert(a <= a * s) by (nonlinear_arith)
        requires
            a >= 0,
            s >= 1,
    ;
}


#[verifier::external_type_specification]
#[verifier::external_body]
pub struct ExImageError(image::ImageError);

/// Why a PNG could not become a bitmap.
#[derive(Debug)]
pub enum PngError {
    /// The `image` crate could not decode the bytes as a PNG.
    Decode(image::ImageError),
    /// The decoded image is too large for a bitmap's 32-bit buffer arithmetic.
    TooLarge,
}

/// The grayscale image (width, height, row-major 8-bit luma) that the `image`
/// crate decodes from `data` as a PNG, or `None` when it cannot decode it.
pub uninterp spec fn png_luma(data: Seq<u8>) -> Option<(u32, u32, Seq<u8>)>;

/// Decodes PNG bytes with `image::load_from_memory_with_format` and converts the
/// result to 8-bit luma with `DynamicImage::to_luma8`. Trusted to return exactly
/// `png_luma(data)` on success, and an error exactly when that is `None`; an image
/// buffer of `image` holds at least `width * height` samples.
#[verifier::external_body]
fn decode_png_luma(data: &[u8]) -> (res: Result<(u32, u32, Vec<u8>), image::ImageError>)
    ensures
        res is Ok <==> png_luma(data@) is Some,
        res matches Ok(t) ==> png_luma(data@) == Some((t.0, t.1, t.2@)),
        res matches Ok(t) ==> t.2@.len() >= t.0 * t.1,
{
    let gray = image::load_from_memory_with_format(data, image::ImageFormat::Png)?.to_luma8();
    let (w, h) = gray.dimensions();
    Ok((w, h, gray.into_raw()))
}

/// The PNG file that the `image` crate writes for a `width` x `height` 8-bit
/// grayscale image, or `None` when its encoder fails.
pub uninterp spec fn png_gray_encoding(width: u32, height: u32, gray: Seq<u8>) -> Option<Seq<u8>>;

/// Most samples for which the round trip below is claimed: far under the 512 MiB
/// allocation limit that `image` decodes with by default.
pub open spec fn png_round_trip_limit() -> int {
    0x400_0000
}

/// Builds an `image::GrayImage` with `ImageBuffer::from_raw` and writes it as PNG
/// with `ImageBuffer::write_to`. Trusted to return exactly `png_gray_encoding`, and
/// (PNG being lossless, and an 8-bit grayscale image being written and read back as
/// one) that decoding what it wrote gives the same image back, for images of at most
/// `png_round_trip_limit()` samples.
#[verifier::external_body]
fn encode_png_gray(width: u32, height: u32, gray: Vec<u8>) -> (res: Option<Vec<u8>>)
    requires
        gray@.len() == width * height,
    ensures
        res is Some <==> png_gray_encoding(width, height, gray@) is Some,
        res matches Some(v) ==> png_gray_encoding(width, height, gray@) == Some(v@),
        width * height <= png_round_trip_limit() ==> (res matches Some(v) ==> png_luma(v@) == Some((width, height, gray@))),
{
    let img = image::GrayImage::from_raw(width, height, gray)?;
    let mut out = std::io::Cursor::new(Vec::new());
    img.write_to(&mut out, image::ImageFormat::Png).ok()?;
    Some(out.into_inner())
}

/// Whether a `w` x `h` bitmap fits the 32-bit buffer arithmetic.
pub open spec fn fits_bitmap(w: int, h: int) -> bool {
    w + 7 <= u32::MAX && (w + 7) / 8 * h <= u32::MAX
}

/// A monochrome bitmap: `width` x `height` pixels, each row padded to whole bytes,
/// the leftmost pixel of each byte in its most significant bit.
#[derive(Debug, Clone)]
pub struct Bitmap1Bit {
    pub width: u32,
    pub height: u32,
    pub data: Vec<u8>,
}

impl Bitmap1Bit {
    /// Bytes per row.
    pub open spec fn row_bytes(self) -> int {
        (self.width + 7) / 8
    }

    /// The buffer holds exactly one padded row per line, and its size fits the
    /// 32-bit arithmetic the accessors use.
    pub open spec fn wf(self) -> bool {
        &&& self.width + 7 <= u32::MAX
        &&& self.row_bytes() * self.height <= u32::MAX
        &&& self.data@.len() == self.row_bytes() * self.height
    }

    /// The stored bit at position `(x, y)` of the padded grid.
    pub open spec fn raw_bit(self, x: int, y: int) -> bool {
        bit_of(self.data@[y * self.row_bytes() + x / 8], bit_index(x))
    }

    /// Whether pixel `(x, y)` is set; positions outside the image are unset.
    pub open spec fn pixel(self, x: int, y: int) -> bool {
        &&& 0 <= x < self.width
        &&& 0 <= y < self.height
        &&& self.raw_bit(x, y)
    }

    /// All padding bits at the end of each row are zero.
    pub open spec fn clean(self) -> bool {
        forall|x: int, y: int|
            self.width <= x < 8 * self.row_bytes() && 0 <= y < self.height ==> !#[trigger] self.raw_bit(x, y)
    }

    /// Creates a blank bitmap of the given size.
    pub fn new(width: u32, height: u32) -> (bmp: Bitmap1Bit)
        requires
            width + 7 <= u32::MAX,
            (width + 7) / 8 * height <= u32::MAX,
        ensures
            bmp.wf(),
            bmp.clean(),
            bmp.width == width,
            bmp.height == height,
            forall|x: int, y: int| !#[trigger] bmp.pixel(x, y),
    {
        let row_bytes = (width + 7) / 8;
        let bmp = Bitmap1Bit { width, height, data: vec![0u8; (row_bytes * height) as usize] };
        proof {
            assert forall|x: int, y: int|
                0 <= x < 8 * bmp.row_bytes() && 0 <= y < height implies !#[trigger] bmp.raw_bit(x, y) by {
                assert(0 <= x / 8 < bmp.row_bytes());
                lemma_byte_index_bounds(x / 8 * 8, y, 8 * bmp.row_bytes(), height as int, bmp.row_bytes());
                assert(bmp.data@[y * bmp.row_bytes() + x / 8] == 0u8);
                lemma_bit_zero(bit_index(x));
            }
        }
        bmp
    }

    /// The padded rows fit the buffer and the 32-bit index arithmetic: what reading
    /// or writing a pixel inside the image needs (a well-formed bitmap has it).
    pub open spec fn addressable(self) -> bool {
        &&& self.width + 7 <= u32::MAX
        &&& self.row_bytes() * self.height <= u32::MAX
        &&& self.data@.len() >= self.row_bytes() * self.height
    }

    /// Index of the byte that holds pixel `(x, y)`.
    pub open spec fn byte_index(self, x: int, y: int) -> int {
        y * self.row_bytes() + x / 8
    }

    /// The byte holding pixel `(x, y)` after setting (`value`) or clearing its bit.
    pub open spec fn written_byte(self, x: int, y: int, value: bool) -> u8 {
        let b = self.data@[self.byte_index(x, y)];
        if value {
            b | (1u8 << bit_index(x))
        } else {
            b & !(1u8 << bit_index(x))
        }
    }

    /// Sets or clears pixel `(x, y)`: only the bit of that pixel in its byte changes.
    /// Positions outside the image leave the bitmap as it is.
    pub fn set_pixel(&mut self, x: u32, y: u32, value: bool)
        requires
            x < old(self).width && y < old(self).height ==> old(self).addressable(),
        ensures
            final(self).width == old(self).width,
            final(self).height == old(self).height,
            !(x < old(self).width && y < old(self).height) ==> *final(self) == *old(self),
            x < old(self).width && y < old(self).height ==> final(self).data@ == old(self).data@.update(
                old(self).byte_index(x as int, y as int),
                old(self).written_byte(x as int, y as int, value),
            ),
            old(self).wf() ==> final(self).wf(),
            old(self).wf() && old(self).clean() ==> final(self).clean(),
            forall|i: int, j: int| #[trigger] final(self).pixel(i, j) == if i == x && j == y
                && x < old(self).width && y < old(self).height {
                value
            } else {
                old(self).pixel(i, j)
            },
    {
        if x >= self.width || y >= self.height {
            return;
        }
        let ghost old_bmp = *self;
        let row_bytes = (self.width + 7) / 8;
        proof {
            lemma_byte_index_bounds(x as int, y as int, self.width as int, self.height as int, row_bytes as int);
        }
        let byte_idx = (y * row_bytes + x / 8) as usize;
        let bit_idx = 7 - (x % 8);
        let bit: u8 = bit_idx as u8;
        if value {
            self.data[byte_idx] = self.data[byte_idx] | (1u8 << bit);
        } else {
            self.data[byte_idx] = self.data[byte_idx] & !(1u8 << bit);
        }
        proof {
            let rb = row_bytes as int;
            assert(bit == bit_index(x as int));
            assert(byte_idx == old_bmp.byte_index(x as int, y as int));
            assert forall|i: int, j: int| 0 <= i < 8 * rb && 0 <= j < self.height implies #[trigger] self.raw_bit(i, j) == if i == x && j == y {
                value
            } else {
                old_bmp.raw_bit(i, j)
            } by {
                lemma_byte_index_bounds(i / 8 * 8, j, 8 * rb, self.height as int, rb);
                let k = j * rb + i / 8;
                if k == byte_idx as int {
                    lemma_byte_index_unique(i, j, x as int, y as int, rb);
                    if value {
                        lemma_bit_or(old_bmp.data@[k], bit, bit_index(i));
                    } else {
                        lemma_bit_and_not(old_bmp.data@[k], bit, bit_index(i));
                    }
                } else {
                    assert(i != x || j != y);
                }
            }
        }
    }

    /// Whether pixel `(x, y)` is set; `false` outside the image.
    pub fn get_pixel(&self, x: u32, y: u32) -> (b: bool)
        requires
            x < self.width && y < self.height ==> self.addressable(),
        ensures
            b == self.pixel(x as int, y as int),
    {
        if x >= self.width || y >= self.height {
            return false;
        }
        let row_bytes = (self.width + 7) / 8;
        proof {
            lemma_byte_index_bounds(x as int, y as int, self.width as int, self.height as int, row_bytes as int);
        }
        let byte_idx = (y * row_bytes + x / 8) as usize;
        let bit_idx = 7 - (x % 8);
        let bit: u8 = bit_idx as u8;
        (self.data[byte_idx] >> bit) & 1 == 1
    }


    /// `self` is the `w` x `h` luma image `luma` thresholded: dark samples (below 128) are set.
    pub open spec fn is_threshold_of(self, w: int, h: int, luma: Seq<u8>) -> bool {
        &&& self.width == w
        &&& self.height == h
        &&& forall|x: int, y: int| #[trigger] self.pixel(x, y) == (0 <= x < w && 0 <= y < h && luma[y * w + x] < 128)
    }

    /// Thresholds a row-major 8-bit luma image: samples below 128 become set pixels.
    pub fn from_luma(width: u32, height: u32, luma: &Vec<u8>) -> (bmp: Bitmap1Bit)
        requires
            fits_bitmap(width as int, height as int),
            luma@.len() >= width * height,
        ensures
            bmp.wf(),
            bmp.clean(),
            bmp.is_threshold_of(width as int, height as int, luma@),
    {
        let mut bmp = Bitmap1Bit::new(width, height);
        let ghost w = width as int;
        let len = luma.len();
        for y in 0..height
            invariant
                bmp.wf(),
                bmp.clean(),
                bmp.width == width,
                bmp.height == height,
                w == width,
                luma@.len() >= width * height,
                len == luma@.len(),
                forall|a: int, b: int| #[trigger] bmp.pixel(a, b) == (0 <= a < w && 0 <= b < height && b < y
                    && luma@[b * w + a] < 128),
        {
            for x in 0..width
                invariant
                    bmp.wf(),
                    bmp.clean(),
                    bmp.width == width,
                    bmp.height == height,
                    w == width,
                    y < height,
                    luma@.len() >= width * height,
                    len == luma@.len(),
                    forall|a: int, b: int| #[trigger] bmp.pixel(a, b) == (0 <= a < w && 0 <= b < height && (b < y || (
                    b == y && a < x)) && luma@[b * w + a] < 128),
            {
                proof {
                    assert(y * w + x < w * height) by (nonlinear_arith)
                        requires
                            x < w,
                            y < height,
                    ;
                    assert(0 <= y * w) by (nonlinear_arith)
                        requires
                            0 <= y,
                            0 <= w,
                    ;
                }
                let idx = (y as usize) * (width as usize) + (x as usize);
                if luma[idx] < 128 {
                    bmp.set_pixel(x, y, true);
                }
            }
        }
        bmp
    }

    /// Decodes a PNG and thresholds it at mid-gray.
    pub fn from_png(data: &[u8]) -> (res: Result<Bitmap1Bit, PngError>)
        ensures
            match png_luma(data@) {
                None => res matches Err(PngError::Decode(_)),
                Some(t) => if fits_bitmap(t.0 as int, t.1 as int) {
                    res matches Ok(b) && b.wf() && b.clean() && b.is_threshold_of(t.0 as int, t.1 as int, t.2)
                } else {
                    res matches Err(PngError::TooLarge)
                },
            },
    {
        match decode_png_luma(data) {
            Err(e) => Err(PngError::Decode(e)),
            Ok((w, h, luma)) => {
                let rb: u64 = (w / 8 + if w % 8 == 0 { 0 } else { 1 }) as u64;
                assert(rb * (h as u64) <= 0x2000_0000 * 0x1_0000_0000u64) by (nonlinear_arith)
                    requires
                        rb <= 0x2000_0000,
                        h <= 0xffff_ffff,
                ;
                if w > u32::MAX - 7 || rb * (h as u64) > u32::MAX as u64 {
                    Err(PngError::TooLarge)
                } else {
                    Ok(Bitmap1Bit::from_luma(w, h, &luma))
                }
            },
        }
    }

    /// The bitmap as 8-bit grayscale, row-major: set pixels black (0), others white (255).
    pub open spec fn gray_spec(self) -> Seq<u8> {
        Seq::new((self.width * self.height) as nat, |i: int| if self.pixel(i % (self.width as int), i / (self.width as int)) {
            0u8
        } else {
            255u8
        })
    }

    /// Encodes the bitmap as a grayscale PNG (black on white); `None` when the
    /// pixel count does not fit in memory or the encoder fails.
    pub fn to_png(&self) -> (png: Option<Vec<u8>>)
        requires
            self.wf(),
        ensures
            self.width * self.height > usize::MAX ==> png is None,
            self.width * self.height <= usize::MAX ==> (png is Some <==> png_gray_encoding(
                self.width,
                self.height,
                self.gray_spec(),
            ) is Some),
            png matches Some(v) ==> png_gray_encoding(self.width, self.height, self.gray_spec()) == Some(v@),
            self.width * self.height <= png_round_trip_limit() ==> (png matches Some(v) ==> png_luma(v@) == Some(
                (self.width, self.height, self.gray_spec()),
            )),
    {
        let n = (self.width as usize).checked_mul(self.height as usize);
        if n.is_none() {
            return None;
        }
        let mut gray: Vec<u8> = Vec::new();
        let ghost w = self.width as int;
        let ghost spec = self.gray_spec();
        assert(0 * w == 0);
        assert(gray@ =~= spec.take(0));
        for y in 0..self.height
            invariant
                self.wf(),
                w == self.width,
                spec == self.gray_spec(),
                self.width * self.height <= usize::MAX,
                gray@ == spec.take(y * w),
        {
            for x in 0..self.width
                invariant
                    self.wf(),
                    w == self.width,
                    spec == self.gray_spec(),
                    y < self.height,
                    gray@ == spec.take(y * w + x),
            {
                let v: u8 = if self.get_pixel(x, y) { 0 } else { 255 };
                proof {
                    assert(y * w + x < w * self.height) by (nonlinear_arith)
                        requires
                            x < w,
                            y < self.height,
                    ;
                    lemma_fundamental_div_mod_converse(y * w + x, w, y as int, x as int);
                    assert(spec[y * w + x] == v);
                    assert(spec.take(y * w + x + 1) =~= spec.take(y * w + x).push(v));
                }
                gray.push(v);
            }
            assert(y * w + w == (y + 1) * w) by (nonlinear_arith);
        }
        proof {
            assert(self.height * w == w * self.height) by (nonlinear_arith);
            assert(spec.take(self.height * w) =~= spec);
        }
        encode_png_gray(self.width, self.height, gray)
    }

    /// `self` shows `src` turned 270 degrees clockwise: pixel `(a, b)` of `self` is
    /// pixel `(src.width - 1 - b, a)` of `src`.
    pub open spec fn is_rotation_270_of(self, src: Bitmap1Bit) -> bool {
        &&& self.width == src.height
        &&& self.height == src.width
        &&& forall|a: int, b: int| #[trigger] self.pixel(a, b) == (0 <= a < src.height && 0 <= b < src.width
            && src.pixel(src.width - 1 - b, a))
    }

    /// Rotates the bitmap 270 degrees clockwise (90 degrees counter-clockwise):
    /// the image's x-axis becomes the tape feed direction and its y-axis the tape
    /// height, so each column of the result is one print line.
    pub fn rotate_270(&self) -> (rotated: Bitmap1Bit)
        requires
            self.wf(),
            self.height + 7 <= u32::MAX,
            (self.height + 7) / 8 * self.width <= u32::MAX,
        ensures
            rotated.wf(),
            rotated.clean(),
            rotated.width == self.height,
            rotated.height == self.width,
            rotated.is_rotation_270_of(*self),
    {
        let new_width = self.height;
        let new_height = self.width;
        let mut rotated = Bitmap1Bit::new(new_width, new_height);
        let ghost w = self.width as int;
        let ghost h = self.height as int;

        for y in 0..self.height
            invariant
                self.wf(),
                rotated.wf(),
                rotated.clean(),
                rotated.width == h,
                rotated.height == w,
                w == self.width,
                h == self.height,
                forall|a: int, b: int| #[trigger] rotated.pixel(a, b) == (0 <= a < h && 0 <= b < w
                    && a < y && self.pixel(w - 1 - b, a)),
        {
            for x in 0..self.width
                invariant
                    self.wf(),
                    rotated.wf(),
                    rotated.clean(),
                    rotated.width == h,
                    rotated.height == w,
                    w == self.width,
                    h == self.height,
                    0 <= y < h,
                    forall|a: int, b: int| #[trigger] rotated.pixel(a, b) == (0 <= a < h && 0 <= b < w
                        && (a < y || (a == y && w - 1 - b < x)) && self.pixel(w - 1 - b, a)),
            {
                if self.get_pixel(x, y) {
                    let new_x = y;
                    let new_y = self.width - 1 - x;
                    rotated.set_pixel(new_x, new_y, true);
                }
            }
        }

        rotated
    }


    /// The image is `scale` times larger in both directions: each pixel of `src`
    /// becomes a `scale` x `scale` block.
    pub open spec fn is_scaled_of(self, src: Bitmap1Bit, scale: int) -> bool {
        &&& self.width == src.width * scale
        &&& self.height == src.height * scale
        &&& forall|x: int, y: int| #[trigger] self.pixel(x, y) == (0 <= x < self.width && 0 <= y < self.height
            && src.pixel(x / scale, y / scale))
    }

    /// Nearest-neighbour enlargement by an integer factor.
    pub fn scale_nearest(&self, scale: u32) -> (scaled: Bitmap1Bit)
        requires
            self.wf(),
            scale >= 1,
            self.width * scale + 7 <= u32::MAX,
            self.height * scale <= u32::MAX,
            (self.width * scale + 7) / 8 * (self.height * scale) <= u32::MAX,
        ensures
            scaled.wf(),
            scaled.clean(),
            scaled.is_scaled_of(*self, scale as int),
    {
        proof {
            lemma_mul_le(self.width as int, scale as int);
            lemma_mul_le(self.height as int, scale as int);
        }
        let new_w = self.width * scale;
        let new_h = self.height * scale;
        let mut scaled = Bitmap1Bit::new(new_w, new_h);
        for y in 0..new_h
            invariant
                self.wf(),
                scaled.wf(),
                scaled.clean(),
                scale >= 1,
                new_w == self.width * scale,
                new_h == self.height * scale,
                scaled.width == new_w,
                scaled.height == new_h,
                forall|a: int, b: int| #[trigger] scaled.pixel(a, b) == (0 <= a < new_w && 0 <= b < new_h
                    && b < y && self.pixel(a / (scale as int), b / (scale as int))),
        {
            for x in 0..new_w
                invariant
                    self.wf(),
                    scaled.wf(),
                    scaled.clean(),
                    scale >= 1,
                    y < new_h,
                    new_w == self.width * scale,
                    new_h == self.height * scale,
                    scaled.width == new_w,
                    scaled.height == new_h,
                    forall|a: int, b: int| #[trigger] scaled.pixel(a, b) == (0 <= a < new_w && 0 <= b < new_h
                        && (b < y || (b == y && a < x)) && self.pixel(a / (scale as int), b / (scale as int))),
            {
                if self.get_pixel(x / scale, y / scale) {
                    scaled.set_pixel(x, y, true);
                }
            }
        }
        scaled
    }

    /// Keeps the top `height` rows (all rows if the bitmap is shorter).
    pub fn crop_height(&self, height: u32) -> (cropped: Bitmap1Bit)
        requires
            self.wf(),
        ensures
            cropped.wf(),
            cropped.clean(),
            cropped.width == self.width,
            cropped.height == if height < self.height { height } else { self.height },
            forall|x: int, y: int| #[trigger] cropped.pixel(x, y) == (y < cropped.height && self.pixel(x, y)),
    {
        let new_h = if height < self.height { height } else { self.height };
        proof {
            assert((self.width + 7) / 8 * new_h <= (self.width + 7) / 8 * self.height) by (nonlinear_arith)
                requires
                    new_h <= self.height,
            ;
        }
        let mut cropped = Bitmap1Bit::new(self.width, new_h);
        for y in 0..new_h
            invariant
                self.wf(),
                cropped.wf(),
                cropped.clean(),
                new_h <= self.height,
                cropped.width == self.width,
                cropped.height == new_h,
                forall|a: int, b: int| #[trigger] cropped.pixel(a, b) == (b < y && self.pixel(a, b)),
        {
            for x in 0..self.width
                invariant
                    self.wf(),
                    cropped.wf(),
                    cropped.clean(),
                    y < new_h,
                    new_h <= self.height,
                    cropped.width == self.width,
                    cropped.height == new_h,
                    forall|a: int, b: int| #[trigger] cropped.pixel(a, b) == ((b < y || (b == y && a < x))
                        && self.pixel(a, b)),
            {
                if self.get_pixel(x, y) {
                    cropped.set_pixel(x, y, true);
                }
            }
        }
        cropped
    }

    /// The bytes of a column of the bitmap, top pixel first, packed most
    /// significant bit first into `ceil(height / 8)` bytes (padding bits zero).
    pub open spec fn column_spec(self, col: int) -> Seq<u8> {
        Seq::new(((self.height + 7) / 8) as nat, |i: int| pack_byte(|k: int| self.pixel(col, 8 * i + k)))
    }

    /// Packs column `col` most significant bit first; a column outside the image is blank.
    pub fn column_bytes(&self, col: u32) -> (bytes: Vec<u8>)
        requires
            self.wf(),
        ensures
            bytes@ == self.column_spec(col as int),
    {
        let height_bytes = (self.height / 8) + if self.height % 8 == 0 { 0 } else { 1 };
        assert(height_bytes == (self.height + 7) / 8);
        let mut bytes = vec![0u8; height_bytes as usize];
        let ghost n = height_bytes as int;
        proof {
            assert forall|i: int, j: u8| 0 <= i < n && j < 8 implies !#[trigger] bit_of(bytes@[i], j) by {
                assert(bytes@[i] == 0u8);
                lemma_bit_zero(j);
            }
        }

        for row in 0..self.height
            invariant
                self.wf(),
                bytes@.len() == n,
                n == (self.height + 7) / 8,
                forall|i: int, j: u8| 0 <= i < n && j < 8 ==> #[trigger] bit_of(bytes@[i], j) == (8 * i + 7 - j < row
                    && self.pixel(col as int, 8 * i + 7 - j)),
        {
            let ghost old_bytes = bytes@;
            if self.get_pixel(col, row) {
                let byte_idx = (row / 8) as usize;
                let bit_idx = 7 - (row % 8);
                let bit: u8 = bit_idx as u8;
                bytes[byte_idx] = bytes[byte_idx] | (1u8 << bit);
                proof {
                    assert forall|i: int, j: u8| 0 <= i < n && j < 8 implies #[trigger] bit_of(bytes@[i], j) == (8 * i + 7 - j < row + 1
                        && self.pixel(col as int, 8 * i + 7 - j)) by {
                        if i == byte_idx as int {
                            lemma_bit_or(old_bytes[i], bit, j);
                        }
                    }
                }
            } else {
                assert forall|i: int, j: u8| 0 <= i < n && j < 8 implies #[trigger] bit_of(bytes@[i], j) == (8 * i + 7 - j < row + 1
                    && self.pixel(col as int, 8 * i + 7 - j)) by {
                    if 8 * i + 7 - j == row {
                    }
                }
            }
        }
        proof {
            let spec = self.column_spec(col as int);
            assert forall|i: int| 0 <= i < n implies bytes@[i] == spec[i] by {
                assert forall|j: u8| j < 8 implies bit_of(bytes@[i], j) == bit_of(spec[i], j) by {
                    lemma_pack_byte(|k: int| self.pixel(col as int, 8 * i + k), j);
                }
                lemma_byte_ext(bytes@[i], spec[i]);
            }
            assert(bytes@ =~= spec);
        }
        bytes
    }
}

/// Two well-formed bitmaps with clean padding, the same size and the same pixels
/// hold the same bytes.
pub proof fn lemma_same_pixels_same_data(a: Bitmap1Bit, b: Bitmap1Bit)
    requires
        a.wf(),
        b.wf(),
        a.clean(),
        b.clean(),
        a.width == b.width,
        a.height == b.height,
        forall|x: int, y: int| #[trigger] a.pixel(x, y) == b.pixel(x, y),
    ensures
        a.data@ == b.data@,
{
    let rb = a.row_bytes();
    let h = a.height as int;
    assert forall|k: int| 0 <= k < a.data@.len() implies a.data@[k] == b.data@[k] by {
        let y = k / rb;
        let c = k % rb;
        assert(rb > 0) by (nonlinear_arith)
            requires
                rb * h == a.data@.len(),
                0 <= k < a.data@.len(),
                rb >= 0,
        ;
        assert(k == y * rb + c && 0 <= c < rb && 0 <= y) by (nonlinear_arith)
            requires
                rb > 0,
                k >= 0,
                y == k / rb,
                c == k % rb,
        ;
        assert(y < h) by (nonlinear_arith)
            requires
                rb > 0,
                k == y * rb + c,
                0 <= c,
                k < rb * h,
        ;
        assert forall|j: u8| j < 8 implies bit_of(a.data@[k], j) == bit_of(b.data@[k], j) by {
            let x = 8 * c + (7 - j);
            assert(x / 8 == c && bit_index(x) == j);
            assert(a.raw_bit(x, y) == bit_of(a.data@[k], j));
            assert(b.raw_bit(x, y) == bit_of(b.data@[k], j));
            if x < a.width {
                assert(a.pixel(x, y) == b.pixel(x, y));
            } else {
                assert(!a.raw_bit(x, y));
                assert(!b.raw_bit(x, y));
            }
        }
        lemma_byte_ext(a.data@[k], b.data@[k]);
    }
    assert(a.data@ =~= b.data@);
}

/// Rotating four times by 270 degrees gives back the original image: the same
/// size and pixels, and, where all of them are well formed with clean padding (as
/// every result of `rotate_270` is), the same bytes.
pub proof fn law_rotate_four_times(b0: Bitmap1Bit, b1: Bitmap1Bit, b2: Bitmap1Bit, b3: Bitmap1Bit, b4: Bitmap1Bit)
    requires
        b1.is_rotation_270_of(b0),
        b2.is_rotation_270_of(b1),
        b3.is_rotation_270_of(b2),
        b4.is_rotation_270_of(b3),
    ensures
        b4.width == b0.width,
        b4.height == b0.height,
        forall|x: int, y: int| #[trigger] b4.pixel(x, y) == b0.pixel(x, y),
        b0.wf() && b0.clean() && b4.wf() && b4.clean() ==> b4.data@ == b0.data@,
{
    assert forall|x: int, y: int| #[trigger] b4.pixel(x, y) == b0.pixel(x, y) by {
        if 0 <= x < b0.width && 0 <= y < b0.height {
            assert(b4.pixel(x, y) == b3.pixel(b3.width - 1 - y, x));
            assert(b3.pixel(b3.width - 1 - y, x) == b2.pixel(b2.width - 1 - x, b3.width - 1 - y));
            assert(b2.pixel(b2.width - 1 - x, b3.width - 1 - y) == b1.pixel(
                b1.width - 1 - (b3.width - 1 - y),
                b2.width - 1 - x,
            ));
            assert(b1.pixel(b1.width - 1 - (b3.width - 1 - y), b2.width - 1 - x) == b0.pixel(
                b0.width - 1 - (b2.width - 1 - x),
                b1.width - 1 - (b3.width - 1 - y),
            ));
        } else {
            assert(!b4.pixel(x, y));
        }
    }
    if b0.wf() && b0.clean() && b4.wf() && b4.clean() {
        lemma_same_pixels_same_data(b4, b0);
    }
}

/// Each packed column is a row of the rotated bitmap: column `col` of `b`, packed
/// most significant bit first (`column_spec`, what `column_bytes` returns), is row
/// `b.width - 1 - col` of the bitmap `r` that shows `b` turned 270 degrees, when
/// `r` is well formed with clean padding (as `rotate_270` makes it).
pub proof fn law_column_is_rotated_row(b: Bitmap1Bit, r: Bitmap1Bit, col: int)
    requires
        r.is_rotation_270_of(b),
        r.wf(),
        r.clean(),
        0 <= col < b.width,
    ensures
        ({
            let hb = r.row_bytes();
            let k = b.width - 1 - col;
            r.data@.subrange(k * hb, (k + 1) * hb) == b.column_spec(col)
        }),
{
    let hb = r.row_bytes();
    let k = b.width - 1 - col;
    let rh = r.height as int;
    assert(0 <= k * hb && (k + 1) * hb <= hb * rh && (k + 1) * hb == k * hb + hb) by (nonlinear_arith)
        requires
            0 <= k < rh,
            hb >= 0,
    ;
    assert(r.data@.len() == hb * rh);
    let row = r.data@.subrange(k * hb, (k + 1) * hb);
    let colb = b.column_spec(col);
    assert(row.len() == hb);
    assert forall|i: int| 0 <= i < hb implies row[i] == colb[i] by {
        let f = |t: int| b.pixel(col, 8 * i + t);
        assert(colb[i] == pack_byte(f));
        assert forall|j: u8| j < 8 implies bit_of(row[i], j) == bit_of(pack_byte(f), j) by {
            lemma_pack_byte(f, j);
            let a = 8 * i + (7 - j);
            assert(a / 8 == i && bit_index(a) == j);
            assert(row[i] == r.data@[k * hb + i]);
            assert(r.raw_bit(a, k) == bit_of(row[i], j));
            if a < r.width {
                assert(r.pixel(a, k) == b.pixel(b.width - 1 - k, a));
            } else {
                assert(!r.raw_bit(a, k));
                assert(!b.pixel(col, a));
            }
        }
        lemma_byte_ext(row[i], pack_byte(f));
    }
    assert(row =~= colb);
}

/// Writing a bitmap as PNG and reading it back gives the same size and pixels:
/// `to_png` writes a PNG that decodes to `gray_spec()` (set pixels black, the rest
/// white), and `from_png` thresholds what it decodes, which restores every pixel.
pub proof fn law_png_round_trip(b: Bitmap1Bit, back: Bitmap1Bit)
    requires
        b.wf(),
        back.is_threshold_of(b.width as int, b.height as int, b.gray_spec()),
    ensures
        back.width == b.width,
        back.height == b.height,
        forall|x: int, y: int| #[trigger] back.pixel(x, y) == b.pixel(x, y),
{
    let w = b.width as int;
    let h = b.height as int;
    assert forall|x: int, y: int| #[trigger] back.pixel(x, y) == b.pixel(x, y) by {
        if 0 <= x < w && 0 <= y < h {
            assert(y * w + x < w * h) by (nonlinear_arith)
                requires
                    0 <= x < w,
                    0 <= y < h,
            ;
            assert(0 <= y * w + x) by (nonlinear_arith)
                requires
                    0 <= x < w,
                    0 <= y,
            ;
            lemma_fundamental_div_mod_converse(y * w + x, w, y, x);
            assert(b.gray_spec()[y * w + x] == if b.pixel(x, y) { 0u8 } else { 255u8 });
        }
    }
}

} // verus!
