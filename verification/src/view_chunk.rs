use vstd::prelude::*;

use crate::viewport::{chunk_origin, lemma_row_major_div_mod};

verus! {

/// An 8-bit RGB color.
#[derive(Debug, Clone, Copy, PartialEq, Eq, Structural)]
pub struct Rgb {
    pub r: u8,
    pub g: u8,
    pub b: u8,
}

impl Rgb {
    pub fn new(r: u8, g: u8, b: u8) -> (c: Rgb)
        ensures
            c == (Rgb { r, g, b }),
    {
        Rgb { r, g, b }
    }
}

/// The dimensions of the rendered view, in pixels.
#[derive(Debug, Clone, Copy, PartialEq, Eq, Structural)]
pub struct Viewport {
    pub width: u32,
    pub height: u32,
}

/// Row-major position of pixel (x, y) in a buffer `width` pixels wide.
pub open spec fn pixel_offset(width: int, x: int, y: int) -> int {
    y * width + x
}

impl Viewport {
    pub fn new(width: u32, height: u32) -> (v: Viewport)
        ensures
            v.width == width,
            v.height == height,
    {
        Viewport { width, height }
    }

    /// Cuts the view into `h_count` x `v_count` equally sized chunks, row by row
    /// from the top left; every pixel of every chunk starts black.
    pub fn iter_view_chunks(&self, h_count: u32, v_count: u32) -> (chunks: Vec<ViewChunk>)
        requires
            h_count > 0,
            v_count > 0,
            h_count * v_count <= usize::MAX,
            (self.width / h_count) * (self.height / v_count) <= usize::MAX,
        ensures
            chunks.len() == h_count * v_count,
            forall|i: int| 0 <= i < chunks.len() ==> {
                let c = #[trigger] chunks[i];
                &&& c@.wf()
                &&& c@.id == i as u32
                &&& c@.viewport == *self
                &&& c@.width == self.width / h_count
                &&& c@.height == self.height / v_count
                &&& (c@.left as int, c@.top as int) == chunk_origin(
                    i,
                    h_count as int,
                    (self.width / h_count) as int,
                    (self.height / v_count) as int,
                )
                &&& forall|j: int| 0 <= j < c@.pixels.len() ==> #[trigger] c@.pixels[j] == Rgb {
                    r: 0,
                    g: 0,
                    b: 0,
                }
            },
    {
        let chunk_width = self.width / h_count;
        let chunk_height = self.height / v_count;
        let mut chunks: Vec<ViewChunk> = Vec::new();
        let mut y: u32 = 0;
        while y < v_count
            invariant
                h_count > 0,
                v_count > 0,
                h_count * v_count <= usize::MAX,
                chunk_width == self.width / h_count,
                chunk_height == self.height / v_count,
                chunk_width * chunk_height <= usize::MAX,
                y <= v_count,
                chunks.len() == y * h_count,
                forall|i: int| 0 <= i < chunks.len() ==> {
                    let c = #[trigger] chunks[i];
                    &&& c@.wf()
                    &&& c@.id == i as u32
                    &&& c@.viewport == *self
                    &&& c@.width == chunk_width
                    &&& c@.height == chunk_height
                    &&& (c@.left as int, c@.top as int) == chunk_origin(
                        i,
                        h_count as int,
                        chunk_width as int,
                        chunk_height as int,
                    )
                    &&& forall|j: int| 0 <= j < c@.pixels.len() ==> #[trigger] c@.pixels[j] == Rgb {
                        r: 0,
                        g: 0,
                        b: 0,
                    }
                },
            decreases v_count - y,
        {
            let mut x: u32 = 0;
            while x < h_count
                invariant
                    h_count > 0,
                    v_count > 0,
                    h_count * v_count <= usize::MAX,
                    chunk_width == self.width / h_count,
                    chunk_height == self.height / v_count,
                    chunk_width * chunk_height <= usize::MAX,
                    y < v_count,
                    x <= h_count,
                    chunks.len() == y * h_count + x,
                    forall|i: int| 0 <= i < chunks.len() ==> {
                        let c = #[trigger] chunks[i];
                        &&& c@.wf()
                        &&& c@.id == i as u32
                        &&& c@.viewport == *self
                        &&& c@.width == chunk_width
                        &&& c@.height == chunk_height
                        &&& (c@.left as int, c@.top as int) == chunk_origin(
                            i,
                            h_count as int,
                            chunk_width as int,
                            chunk_height as int,
                        )
                        &&& forall|j: int| 0 <= j < c@.pixels.len() ==> #[trigger] c@.pixels[j] == Rgb {
                            r: 0,
                            g: 0,
                            b: 0,
                        }
                    },
                decreases h_count - x,
            {
                let id: usize = chunks.len();
                proof {
                    assert(y * h_count + x < h_count * v_count) by (nonlinear_arith)
                        requires
                            x < h_count,
                            y < v_count;
                    lemma_chunk_origin_fits(x as int, y as int, h_count as int, v_count as int,
                        self.width as int, self.height as int);
                    lemma_row_major_div_mod(x as int, y as int, h_count as int);
                }
                let top_left_x: u32 = x * chunk_width;
                let top_left_y: u32 = y * chunk_height;
                let n: usize = chunk_width as usize * chunk_height as usize;
                let data: Vec<Rgb> = vec![Rgb::new(0, 0, 0); n];
                let chunk = ViewChunk {
                    id: id as u32,
                    viewport: *self,
                    width: chunk_width,
                    height: chunk_height,
                    chunk_top_left: (top_left_x, top_left_y),
                    data,
                };
                chunks.push(chunk);
                x = x + 1;
            }
            assert((y + 1) * h_count == y * h_count + h_count) by (nonlinear_arith);
            y = y + 1;
        }
        assert(y * h_count == h_count * v_count) by (nonlinear_arith)
            requires
                y == v_count;
        chunks
    }
}

/// Facts about where chunk (x, y) lies: inside the viewport on both axes.
proof fn lemma_chunk_origin_fits(x: int, y: int, h: int, v: int, width: int, height: int)
    requires
        0 <= x < h,
        0 <= y < v,
        0 <= width,
        0 <= height,
    ensures
        x * (width / h) + width / h <= width,
        y * (height / v) + height / v <= height,
{
    assert(x * (width / h) + width / h <= width) by (nonlinear_arith)
        requires
            0 <= x < h,
            0 <= width,
    {
        assert((x + 1) * (width / h) <= h * (width / h));
        assert(h * (width / h) <= width);
    }
    assert(y * (height / v) + height / v <= height) by (nonlinear_arith)
        requires
            0 <= y < v,
            0 <= height,
    {
        assert((y + 1) * (height / v) <= v * (height / v));
        assert(v * (height / v) <= height);
    }
}

/// A rectangular part of the view together with the colors rendered into it.
pub struct ViewChunk {
    pub id: u32,
    pub viewport: Viewport,
    pub width: u32,
    pub height: u32,
    chunk_top_left: (u32, u32),
    data: Vec<Rgb>,
}

/// What a chunk is, mathematically: where it lies in the view and the colors it holds.
pub struct ViewChunkModel {
    pub id: u32,
    pub viewport: Viewport,
    pub width: u32,
    pub height: u32,
    pub left: u32,
    pub top: u32,
    pub pixels: Seq<Rgb>,
}

impl View for ViewChunk {
    type V = ViewChunkModel;

    closed spec fn view(&self) -> ViewChunkModel {
        ViewChunkModel {
            id: self.id,
            viewport: self.viewport,
            width: self.width,
            height: self.height,
            left: self.chunk_top_left.0,
            top: self.chunk_top_left.1,
            pixels: self.data@,
        }
    }
}

impl ViewChunkModel {
    /// The chunk holds one color per pixel and lies inside its viewport.
    pub open spec fn wf(&self) -> bool {
        &&& self.pixels.len() == self.width * self.height
        &&& self.left + self.width <= self.viewport.width
        &&& self.top + self.height <= self.viewport.height
    }
}

impl ViewChunk {
    /// Sets a pixel using chunk-relative co-ordinates
    pub fn set_chunk_pixel(&mut self, chunk_x: u32, chunk_y: u32, value: Rgb)
        requires
            old(self)@.wf(),
            chunk_y * old(self)@.width + chunk_x <= u32::MAX,
            pixel_offset(old(self)@.width as int, chunk_x as int, chunk_y as int) < old(self)@.pixels.len(),
        ensures
            final(self)@.wf(),
            final(self)@.id == old(self)@.id,
            final(self)@.viewport == old(self)@.viewport,
            final(self)@.width == old(self)@.width,
            final(self)@.height == old(self)@.height,
            final(self)@.left == old(self)@.left,
            final(self)@.top == old(self)@.top,
            final(self)@.pixels == old(self)@.pixels.update(
                pixel_offset(old(self)@.width as int, chunk_x as int, chunk_y as int),
                value,
            ),
    {
        let pos = (chunk_y * self.width + chunk_x) as usize;
        self.data.set(pos, value);
    }

    /// Gets a pixel using chunk-relative co-ordinates
    pub fn get_chunk_pixel(&self, chunk_x: u32, chunk_y: u32) -> (c: &Rgb)
        requires
            self@.wf(),
            chunk_y * self@.width + chunk_x <= u32::MAX,
            pixel_offset(self@.width as int, chunk_x as int, chunk_y as int) < self@.pixels.len(),
        ensures
            *c == self@.pixels[pixel_offset(self@.width as int, chunk_x as int, chunk_y as int)],
    {
        let pos = (chunk_y * self.width + chunk_x) as usize;
        &self.data[pos]
    }

    /// Converts chunk-relative co-ordinates into view-relative co-ordinates
    pub fn get_view_relative_coords(&self, chunk_x: u32, chunk_y: u32) -> (p: (u32, u32))
        requires
            self@.left + chunk_x <= u32::MAX,
            self@.top + chunk_y <= u32::MAX,
        ensures
            p.0 == self@.left + chunk_x,
            p.1 == self@.top + chunk_y,
    {
        let view_x = self.chunk_top_left.0 + chunk_x;
        let view_y = self.chunk_top_left.1 + chunk_y;
        (view_x, view_y)
    }
}

/// Distinct pixels of a chunk sit at distinct positions of its color buffer.
proof fn lemma_pixel_offset_injective(width: int, x1: int, y1: int, x2: int, y2: int)
    requires
        0 <= x1 < width,
        0 <= x2 < width,
        0 <= y1,
        0 <= y2,
        pixel_offset(width, x1, y1) == pixel_offset(width, x2, y2),
    ensures
        x1 == x2,
        y1 == y2,
{
    lemma_row_major_div_mod(x1, y1, width);
    lemma_row_major_div_mod(x2, y2, width);
}

/// Setting a pixel of a chunk and then reading a pixel back gives the color
/// that was set when the same pixel is read, and leaves every other pixel as it was:
/// `after` is the chunk's pixels once `set_chunk_pixel(x1, y1, value)` ran (its
/// other fields stay, as its contract states), and what `get_chunk_pixel(x2, y2)`
/// reads is the pixel at `pixel_offset(width, x2, y2)`.
pub proof fn lemma_set_then_get_chunk_pixel(c: ViewChunkModel, x1: u32, y1: u32, x2: u32, y2: u32, value: Rgb)
    requires
        c.wf(),
        x1 < c.width,
        y1 < c.height,
        x2 < c.width,
        y2 < c.height,
    ensures
        ({
            let after = c.pixels.update(pixel_offset(c.width as int, x1 as int, y1 as int), value);
            after[pixel_offset(c.width as int, x2 as int, y2 as int)] == if x1 == x2 && y1 == y2 {
                value
            } else {
                c.pixels[pixel_offset(c.width as int, x2 as int, y2 as int)]
            }
        }),
{
    let w = c.width as int;
    assert(pixel_offset(w, x1 as int, y1 as int) < c.pixels.len() && pixel_offset(w, x2 as int, y2 as int)
        < c.pixels.len()) by (nonlinear_arith)
        requires
            0 <= x1 < w,
            0 <= x2 < w,
            0 <= y1 < c.height,
            0 <= y2 < c.height,
            c.pixels.len() == w * c.height,
    {
        assert(y1 * w + x1 < (y1 + 1) * w);
        assert((y1 + 1) * w <= c.height * w);
        assert(y2 * w + x2 < (y2 + 1) * w);
        assert((y2 + 1) * w <= c.height * w);
    }
    if pixel_offset(w, x1 as int, y1 as int) == pixel_offset(w, x2 as int, y2 as int) {
        lemma_pixel_offset_injective(w, x1 as int, y1 as int, x2 as int, y2 as int);
    }
}

} // verus!
