use vstd::prelude::*;

use crate::view_chunk::pixel_offset;
use crate::viewport::lemma_row_major_div_mod;

verus! {

/// Unmultiplied RGBA data
pub type Rgba = [u8; 4];

/// An image held as unmultiplied RGBA bytes, four per pixel, row by row.
#[derive(Clone)]
pub struct RgbaBuffer {
    width: usize,
    height: usize,
    data: Vec<u8>,
}

/// A borrowed view of an image's RGBA bytes together with its size.
pub struct RgbaRaw<'a> {
    pub size: [usize; 2],
    pub rgba: &'a [u8],
}

/// What an RGBA buffer is, mathematically.
pub struct RgbaBufferModel {
    pub width: usize,
    pub height: usize,
    pub bytes: Seq<u8>,
}

impl RgbaBufferModel {
    /// The buffer holds four bytes per pixel.
    pub open spec fn wf(&self) -> bool {
        self.bytes.len() == self.width * self.height * 4
    }
}

impl View for RgbaBuffer {
    type V = RgbaBufferModel;

    closed spec fn view(&self) -> RgbaBufferModel {
        RgbaBufferModel { width: self.width, height: self.height, bytes: self.data@ }
    }
}

/// The four bytes of pixel (x, y) in `bytes`, an image `width` pixels wide.
pub open spec fn pixel_bytes(bytes: Seq<u8>, width: int, x: int, y: int) -> Seq<u8> {
    let i = 4 * pixel_offset(width, x, y);
    bytes.subrange(i, i + 4)
}

/// `bytes` with pixel (x, y) of an image `width` pixels wide set to `rgba`.
pub open spec fn with_pixel(bytes: Seq<u8>, width: int, x: int, y: int, rgba: Seq<u8>) -> Seq<u8> {
    let i = 4 * pixel_offset(width, x, y);
    bytes.update(i, rgba[0]).update(i + 1, rgba[1]).update(i + 2, rgba[2]).update(i + 3, rgba[3])
}

impl RgbaBuffer {
    /// A `width` x `height` image with every byte zero.
    pub fn new(width: usize, height: usize) -> (b: RgbaBuffer)
        requires
            width * height * 4 <= usize::MAX,
        ensures
            b@.wf(),
            b@.width == width,
            b@.height == height,
            b@.bytes == Seq::new((width * height * 4) as nat, |i: int| 0u8),
    {
        let n: usize = width * height * 4;
        let data: Vec<u8> = vec![0u8; n];
        RgbaBuffer { width, height, data }
    }

    fn index(&self, x: usize, y: usize) -> (i: usize)
        requires
            self@.wf(),
            pixel_offset(self.width as int, x as int, y as int) < self.width * self.height,
        ensures
            i == 4 * pixel_offset(self.width as int, x as int, y as int),
            i + 3 < self.data@.len(),
    {
        let len = self.data.len();
        proof {
            assert((y * self.width + x) * 4 + 3 < self.width * self.height * 4) by (nonlinear_arith)
                requires
                    y * self.width + x < self.width * self.height;
        }
        let i = (y * self.width + x) * 4;
        i
    }

    /// Sets the color of pixel (x, y).
    pub fn put_pixel(&mut self, x: usize, y: usize, rgba: Rgba)
        requires
            old(self)@.wf(),
            pixel_offset(old(self)@.width as int, x as int, y as int) < old(self)@.width * old(self)@.height,
        ensures
            final(self)@.wf(),
            final(self)@.width == old(self)@.width,
            final(self)@.height == old(self)@.height,
            final(self)@.bytes == with_pixel(old(self)@.bytes, old(self)@.width as int, x as int, y as int, rgba@),
    {
        let i = self.index(x, y);
        self.data.set(i + 0, rgba[0]);
        self.data.set(i + 1, rgba[1]);
        self.data.set(i + 2, rgba[2]);
        self.data.set(i + 3, rgba[3]);
    }

    /// The image's size and its bytes.
    pub fn get_raw_rgba_data(&self) -> (raw: RgbaRaw<'_>)
        ensures
            raw.size@ == seq![self@.width, self@.height],
            raw.rgba@ == self@.bytes,
    {
        RgbaRaw { size: [self.width, self.height], rgba: self.data.as_slice() }
    }
}

/// Writing a pixel and then reading pixels back: the written pixel reads as
/// the color written, every other pixel reads as before.
pub proof fn lemma_put_then_read_pixel(
    bytes: Seq<u8>,
    width: usize,
    height: usize,
    x1: usize,
    y1: usize,
    x2: usize,
    y2: usize,
    rgba: Seq<u8>,
)
    requires
        bytes.len() == width * height * 4,
        rgba.len() == 4,
        x1 < width,
        y1 < height,
        x2 < width,
        y2 < height,
    ensures
        pixel_bytes(with_pixel(bytes, width as int, x1 as int, y1 as int, rgba), width as int, x2 as int, y2 as int)
            == if x1 == x2 && y1 == y2 {
            rgba
        } else {
            pixel_bytes(bytes, width as int, x2 as int, y2 as int)
        },
{
    let w = width as int;
    let o1 = pixel_offset(w, x1 as int, y1 as int);
    let o2 = pixel_offset(w, x2 as int, y2 as int);
    assert(0 <= o1 < width * height && 0 <= o2 < width * height) by (nonlinear_arith)
        requires
            0 <= x1 < w,
            0 <= x2 < w,
            0 <= y1 < height,
            0 <= y2 < height,
            o1 == y1 * w + x1,
            o2 == y2 * w + x2,
            w == width,
    {
        assert(y1 * w + x1 < (y1 + 1) * w);
        assert((y1 + 1) * w <= height * w);
        assert(y2 * w + x2 < (y2 + 1) * w);
        assert((y2 + 1) * w <= height * w);
    }
    if o1 == o2 {
        lemma_row_major_div_mod(x1 as int, y1 as int, w);
        lemma_row_major_div_mod(x2 as int, y2 as int, w);
    }
    let after = with_pixel(bytes, w, x1 as int, y1 as int, rgba);
    assert(pixel_bytes(after, w, x2 as int, y2 as int) =~= if x1 == x2 && y1 == y2 {
        rgba
    } else {
        pixel_bytes(bytes, w, x2 as int, y2 as int)
    });
}

} // verus!
