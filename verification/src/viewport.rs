use vstd::prelude::*;

verus! {

/// The top-left corner of chunk `id` when a view is cut into rows of `h_count`
/// chunks of `chunk_width` x `chunk_height` pixels, numbered row by row from the top left.
pub open spec fn chunk_origin(id: int, h_count: int, chunk_width: int, chunk_height: int) -> (int, int) {
    ((id % h_count) * chunk_width, (id / h_count) * chunk_height)
}

/// Chunk `id` (of such a cutting) holds view pixel (px, py).
pub open spec fn chunk_holds(
    id: int,
    h_count: int,
    chunk_width: int,
    chunk_height: int,
    px: int,
    py: int,
) -> bool {
    let (left, top) = chunk_origin(id, h_count, chunk_width, chunk_height);
    &&& left <= px < left + chunk_width
    &&& top <= py < top + chunk_height
}

/// The row-major index of cell (x, y) in a grid `h` cells wide gives back x and y.
pub proof fn lemma_row_major_div_mod(x: int, y: int, h: int)
    requires
        0 <= x < h,
        0 <= y,
    ensures
        (y * h + x) % h == x,
        (y * h + x) / h == y,
{
    assert((y * h + x) % h == x && (y * h + x) / h == y) by (nonlinear_arith)
        requires
            0 <= x < h,
            0 <= y,
    {
        vstd::arithmetic::div_mod::lemma_fundamental_div_mod_converse(y * h + x, h, y, x);
    }
}

proof fn lemma_band_index(a: int, p: int, w: int)
    requires
        w > 0,
        0 <= a,
        a * w <= p < a * w + w,
    ensures
        p / w == a,
{
    vstd::arithmetic::div_mod::lemma_fundamental_div_mod_converse(p, w, a, p - a * w);
}

/// The chunks of a view cut into `h_count` x `v_count` chunks of
/// `chunk_width` x `chunk_height` pixels tile it: each pixel of the covered
/// area lies in exactly one chunk, the one in its row band and column band.
pub proof fn lemma_chunks_tile_view(
    h_count: int,
    v_count: int,
    chunk_width: int,
    chunk_height: int,
    px: int,
    py: int,
)
    requires
        h_count > 0,
        v_count > 0,
        chunk_width > 0,
        chunk_height > 0,
        0 <= px < h_count * chunk_width,
        0 <= py < v_count * chunk_height,
    ensures
        ({
            let id = (py / chunk_height) * h_count + px / chunk_width;
            &&& 0 <= id < h_count * v_count
            &&& chunk_holds(id, h_count, chunk_width, chunk_height, px, py)
            &&& forall|j: int|
                0 <= j < h_count * v_count && #[trigger] chunk_holds(
                    j,
                    h_count,
                    chunk_width,
                    chunk_height,
                    px,
                    py,
                ) ==> j == id
        }),
{
    let qx = px / chunk_width;
    let qy = py / chunk_height;
    assert(0 <= qx < h_count && 0 <= qy < v_count && qx * chunk_width <= px < qx * chunk_width + chunk_width
        && qy * chunk_height <= py < qy * chunk_height + chunk_height) by (nonlinear_arith)
        requires
            chunk_width > 0,
            chunk_height > 0,
            0 <= px < h_count * chunk_width,
            0 <= py < v_count * chunk_height,
            qx == px / chunk_width,
            qy == py / chunk_height,
    {
        vstd::arithmetic::div_mod::lemma_fundamental_div_mod(px, chunk_width);
        vstd::arithmetic::div_mod::lemma_fundamental_div_mod(py, chunk_height);
        if qx >= h_count {
            assert(qx * chunk_width >= h_count * chunk_width);
        }
        if qy >= v_count {
            assert(qy * chunk_height >= v_count * chunk_height);
        }
    }
    let id = qy * h_count + qx;
    lemma_row_major_div_mod(qx, qy, h_count);
    assert(0 <= id < h_count * v_count) by (nonlinear_arith)
        requires
            0 <= qx < h_count,
            0 <= qy < v_count,
            id == qy * h_count + qx,
    {
        assert(qy * h_count + qx < (qy + 1) * h_count);
        assert((qy + 1) * h_count <= v_count * h_count);
    }
    assert forall|j: int|
        0 <= j < h_count * v_count && #[trigger] chunk_holds(
            j,
            h_count,
            chunk_width,
            chunk_height,
            px,
            py,
        ) implies j == id by {
        let a = j % h_count;
        let b = j / h_count;
        assert(0 <= a < h_count && 0 <= b) by (nonlinear_arith)
            requires
                h_count > 0,
                0 <= j,
                a == j % h_count,
                b == j / h_count,
        {
            vstd::arithmetic::div_mod::lemma_fundamental_div_mod(j, h_count);
        }
        lemma_band_index(a, px, chunk_width);
        lemma_band_index(b, py, chunk_height);
        vstd::arithmetic::div_mod::lemma_fundamental_div_mod(j, h_count);
        assert(j == b * h_count + a) by (nonlinear_arith)
            requires
                h_count > 0,
                a == j % h_count,
                b == j / h_count,
                j == h_count * (j / h_count) + j % h_count;
    }
}

/// A rectangular part of the rendered image, in pixels.
#[derive(Debug, Clone, Copy, PartialEq, Eq, Structural)]
pub struct RenderChunk {
    pub id: usize,
    pub top: usize,
    pub left: usize,
    pub width: usize,
    pub height: usize,
}

/// A pixel position, relative to its chunk and relative to the whole view.
#[derive(Debug, Clone, Copy, PartialEq, Eq)]
pub struct ViewChunkCoords {
    pub chunk_pos: [usize; 2],
    pub view_pos: [usize; 2],
}

impl RenderChunk {
    /// The pixel positions within the chunk, row by row from the top left.
    pub fn iter_pixels(&self) -> (pixels: Vec<ViewChunkCoords>)
        requires
            self.width > 0 && self.height > 0 ==> {
                &&& self.left + self.width - 1 <= usize::MAX
                &&& self.top + self.height - 1 <= usize::MAX
            },
            self.width * self.height <= usize::MAX,
        ensures
            pixels.len() == self.width * self.height,
            forall|k: int|
                0 <= k < pixels.len() ==> {
                    let p = #[trigger] pixels[k];
                    let x = k % (self.width as int);
                    let y = k / (self.width as int);
                    &&& p.chunk_pos@ == seq![x as usize, y as usize]
                    &&& p.view_pos@ == seq![(self.left + x) as usize, (self.top + y) as usize]
                },
    {
        let mut pixels: Vec<ViewChunkCoords> = Vec::new();
        let mut y: usize = 0;
        while y < self.height
            invariant
                y <= self.height,
                self.width > 0 && self.height > 0 ==> {
                    &&& self.left + self.width - 1 <= usize::MAX
                    &&& self.top + self.height - 1 <= usize::MAX
                },
                self.width * self.height <= usize::MAX,
                pixels.len() == y * self.width,
                forall|k: int|
                    0 <= k < pixels.len() ==> {
                        let p = #[trigger] pixels[k];
                        let x = k % (self.width as int);
                        let y = k / (self.width as int);
                        &&& p.chunk_pos@ == seq![x as usize, y as usize]
                        &&& p.view_pos@ == seq![(self.left + x) as usize, (self.top + y) as usize]
                    },
            decreases self.height - y,
        {
            let mut x: usize = 0;
            while x < self.width
                invariant
                    y < self.height,
                    x <= self.width,
                    self.width > 0 && self.height > 0 ==> {
                        &&& self.left + self.width - 1 <= usize::MAX
                        &&& self.top + self.height - 1 <= usize::MAX
                    },
                    self.width * self.height <= usize::MAX,
                    pixels.len() == y * self.width + x,
                    forall|k: int|
                        0 <= k < pixels.len() ==> {
                            let p = #[trigger] pixels[k];
                            let x = k % (self.width as int);
                            let y = k / (self.width as int);
                            &&& p.chunk_pos@ == seq![x as usize, y as usize]
                            &&& p.view_pos@ == seq![(self.left + x) as usize, (self.top + y) as usize]
                        },
                decreases self.width - x,
            {
                proof {
                    lemma_row_major_div_mod(x as int, y as int, self.width as int);
                }
                let coords = ViewChunkCoords {
                    chunk_pos: [x, y],
                    view_pos: [self.left + x, self.top + y],
                };
                pixels.push(coords);
                proof {
                    assert(coords.chunk_pos@ == seq![x, y]);
                    assert(coords.view_pos@ == seq![(self.left + x) as usize, (self.top + y) as usize]);
                }
                x = x + 1;
            }
            assert((y + 1) * self.width == y * self.width + self.width) by (nonlinear_arith);
            y = y + 1;
        }
        assert(y * self.width == self.width * self.height) by (nonlinear_arith)
            requires
                y == self.height;
        pixels
    }
}

/// Cuts a view of `size` = [width, height] pixels into `counts` = [columns, rows]
/// equally sized chunks, numbered row by row from the top left.
pub fn create_render_chunks(size: [usize; 2], counts: [usize; 2]) -> (chunks: Vec<RenderChunk>)
    requires
        counts@[0] > 0,
        counts@[1] > 0,
        counts@[0] * counts@[1] <= usize::MAX,
    ensures
        chunks.len() == counts@[0] * counts@[1],
        forall|i: int|
            0 <= i < chunks.len() ==> {
                let chunk_width = size@[0] / counts@[0];
                let chunk_height = size@[1] / counts@[1];
                let (left, top) = chunk_origin(i, counts@[0] as int, chunk_width as int, chunk_height as int);
                #[trigger] chunks[i] == RenderChunk {
                    id: i as usize,
                    top: top as usize,
                    left: left as usize,
                    width: chunk_width,
                    height: chunk_height,
                }
            },
{
    let horiz = counts[0];
    let vert = counts[1];
    let width = size[0];
    let height = size[1];
    let chunk_width = width / horiz;
    let chunk_height = height / vert;
    let mut chunks: Vec<RenderChunk> = Vec::new();
    let mut y: usize = 0;
    while y < vert
        invariant
            horiz == counts@[0],
            vert == counts@[1],
            horiz > 0,
            vert > 0,
            horiz * vert <= usize::MAX,
            chunk_width == size@[0] / horiz,
            chunk_height == size@[1] / vert,
            y <= vert,
            chunks.len() == y * horiz,
            forall|i: int|
                0 <= i < chunks.len() ==> {
                    let (left, top) = chunk_origin(i, horiz as int, chunk_width as int, chunk_height as int);
                    #[trigger] chunks[i] == RenderChunk {
                        id: i as usize,
                        top: top as usize,
                        left: left as usize,
                        width: chunk_width,
                        height: chunk_height,
                    }
                },
        decreases vert - y,
    {
        let mut x: usize = 0;
        while x < horiz
            invariant
                horiz == counts@[0],
                vert == counts@[1],
                horiz > 0,
                vert > 0,
                horiz * vert <= usize::MAX,
                chunk_width == size@[0] / horiz,
                chunk_height == size@[1] / vert,
                y < vert,
                x <= horiz,
                chunks.len() == y * horiz + x,
                forall|i: int|
                    0 <= i < chunks.len() ==> {
                        let (left, top) = chunk_origin(i, horiz as int, chunk_width as int, chunk_height as int);
                        #[trigger] chunks[i] == RenderChunk {
                            id: i as usize,
                            top: top as usize,
                            left: left as usize,
                            width: chunk_width,
                            height: chunk_height,
                        }
                    },
            decreases horiz - x,
        {
            let id = chunks.len();
            proof {
                lemma_row_major_div_mod(x as int, y as int, horiz as int);
                assert(x * chunk_width <= size@[0] && y * chunk_height <= size@[1]) by (nonlinear_arith)
                    requires
                        x < horiz,
                        y < vert,
                        chunk_width == size@[0] / horiz,
                        chunk_height == size@[1] / vert,
                {
                    assert(x * chunk_width <= horiz * chunk_width);
                    assert(horiz * chunk_width <= size@[0]);
                    assert(y * chunk_height <= vert * chunk_height);
                    assert(vert * chunk_height <= size@[1]);
                }
            }
            chunks.push(RenderChunk {
                id,
                top: y * chunk_height,
                left: x * chunk_width,
                width: chunk_width,
                height: chunk_height,
            });
            x = x + 1;
        }
        assert((y + 1) * horiz == y * horiz + horiz) by (nonlinear_arith);
        y = y + 1;
    }
    assert(y * horiz == horiz * vert) by (nonlinear_arith)
        requires
            y == vert;
    chunks
}

} // verus!
