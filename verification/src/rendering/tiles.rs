use vstd::prelude::*;

verus! {

/// The side, in pixels, of the square tiles that rendering hands out to workers.
pub const TILE_SIZE: usize = 16;

/// How many tiles of `TILE_SIZE` it takes to cover `len` pixels.
pub open spec fn tiles_for(len: int) -> int {
    len / 16 + if len % 16 == 0 { 0int } else { 1int }
}

/// The split of a `width` x `height` image into rows of square tiles; the last tile of a
/// row or column may be cut short by the image's edge.
pub struct TileGrid {
    pub width: usize,
    pub height: usize,
    pub tiles_x: usize,
    pub tiles_y: usize,
}

/// The pixels `x0 .. x_end` by `y0 .. y_end` that a tile covers.
pub struct Tile {
    pub x0: usize,
    pub y0: usize,
    pub x_end: usize,
    pub y_end: usize,
}

/// The smaller of two integers.
pub open spec fn min(a: int, b: int) -> int {
    if a <= b { a } else { b }
}

impl TileGrid {
    /// Whether the grid is the one for its image size.
    pub open spec fn wf(&self) -> bool {
        &&& self.width * self.height <= usize::MAX
        &&& self.tiles_x == tiles_for(self.width as int)
        &&& self.tiles_y == tiles_for(self.height as int)
    }

    /// The number of tiles.
    pub open spec fn total(&self) -> int {
        self.tiles_x * self.tiles_y
    }

    /// The tile with index `t`, counted row by row.
    pub open spec fn tile(&self, t: int) -> Tile {
        let x0 = (t % self.tiles_x as int) * 16;
        let y0 = (t / self.tiles_x as int) * 16;
        Tile {
            x0: x0 as usize,
            y0: y0 as usize,
            x_end: min(x0 + 16, self.width as int) as usize,
            y_end: min(y0 + 16, self.height as int) as usize,
        }
    }

    /// The grid of tiles for a `width` x `height` image.
    pub fn new(width: usize, height: usize) -> (g: TileGrid)
        requires
            width * height <= usize::MAX,
        ensures
            g.wf(),
            g.width == width,
            g.height == height,
    {
        let tiles_x = width / TILE_SIZE + if width % TILE_SIZE == 0 { 0 } else { 1 };
        let tiles_y = height / TILE_SIZE + if height % TILE_SIZE == 0 { 0 } else { 1 };
        TileGrid { width, height, tiles_x, tiles_y }
    }

    /// The number of tiles.
    pub fn total_tiles(&self) -> (n: usize)
        requires
            self.wf(),
        ensures
            n == self.total(),
    {
        proof {
            lemma_tiles_at_most(self.width as int);
            lemma_tiles_at_most(self.height as int);
            lemma_total_fits(self.tiles_x as int, self.tiles_y as int, self.width as int, self.height as int);
        }
        self.tiles_x * self.tiles_y
    }

    /// The pixels that tile `tile_idx` covers.
    pub fn tile_bounds(&self, tile_idx: usize) -> (r: Tile)
        requires
            self.wf(),
            tile_idx < self.total(),
        ensures
            r == self.tile(tile_idx as int),
    {
        proof {
            lemma_tile_in_grid(*self, tile_idx as int);
        }
        let tile_x0 = (tile_idx % self.tiles_x) * TILE_SIZE;
        let tile_y0 = (tile_idx / self.tiles_x) * TILE_SIZE;
        let x_end = if self.width - tile_x0 >= TILE_SIZE { tile_x0 + TILE_SIZE } else { self.width };
        let y_end = if self.height - tile_y0 >= TILE_SIZE { tile_y0 + TILE_SIZE } else { self.height };
        Tile { x0: tile_x0, y0: tile_y0, x_end, y_end }
    }
}

proof fn lemma_tiles_at_most(len: int)
    requires
        0 <= len,
    ensures
        0 <= tiles_for(len) <= len,
{
}

proof fn lemma_total_fits(tx: int, ty: int, w: int, h: int)
    by (nonlinear_arith)
    requires
        0 <= tx <= w,
        0 <= ty <= h,
    ensures
        tx * ty <= w * h,
{
}

proof fn lemma_div_mod_parts(t: int, d: int)
    requires
        0 <= t,
        0 < d,
    ensures
        t == d * (t / d) + t % d,
        0 <= t % d < d,
        0 <= t / d,
{
    vstd::arithmetic::div_mod::lemma_fundamental_div_mod(t, d);
    vstd::arithmetic::div_mod::lemma_mod_pos_bound(t, d);
    vstd::arithmetic::div_mod::lemma_div_pos_is_pos(t, d);
}

proof fn lemma_row_below(t: int, tx: int, ty: int)
    by (nonlinear_arith)
    requires
        0 <= t < tx * ty,
        0 < tx,
        0 <= ty,
        t == tx * (t / tx) + t % tx,
        0 <= t % tx < tx,
    ensures
        t / tx < ty,
{
}

/// Every tile of a grid starts inside the image.
proof fn lemma_tile_in_grid(g: TileGrid, t: int)
    requires
        g.wf(),
        0 <= t < g.total(),
    ensures
        g.tiles_x > 0,
        (t % g.tiles_x as int) * 16 < g.width,
        (t / g.tiles_x as int) * 16 < g.height,
{
    let tx = g.tiles_x as int;
    let ty = g.tiles_y as int;
    if tx == 0 {
        assert(tx * ty == 0) by (nonlinear_arith) requires tx == 0;
    }
    lemma_div_mod_parts(t, tx);
    lemma_row_below(t, tx, ty);
}

/// The tiles of a grid cover the image exactly once: every pixel of the image lies in the
/// tile numbered `(y / TILE_SIZE) * tiles_x + x / TILE_SIZE` and in no other tile, and
/// every tile lies within the image.
pub proof fn lemma_tiles_partition_image(g: TileGrid, x: int, y: int, t: int)
    requires
        g.wf(),
        0 <= x < g.width,
        0 <= y < g.height,
        0 <= t < g.total(),
    ensures
        0 <= (y / 16) * g.tiles_x + x / 16 < g.total(),
        (g.tile(t).x0 <= x < g.tile(t).x_end && g.tile(t).y0 <= y < g.tile(t).y_end)
            <==> t == (y / 16) * g.tiles_x + x / 16,
        g.tile(t).x0 < g.tile(t).x_end <= g.width,
        g.tile(t).y0 < g.tile(t).y_end <= g.height,
{
    let tx = g.tiles_x as int;
    let ty = g.tiles_y as int;
    lemma_tile_in_grid(g, t);
    lemma_div_mod_parts(t, tx);
    let col = x / 16;
    let row = y / 16;
    assert(col < tx);
    assert(row < ty);
    assert(0 <= row * tx + col < tx * ty) by (nonlinear_arith)
        requires
            0 <= col < tx,
            0 <= row < ty;
    let tile = g.tile(t);
    if tile.x0 <= x < tile.x_end && tile.y0 <= y < tile.y_end {
        assert(t % tx == col);
        assert(t / tx == row);
        assert(t == row * tx + col) by (nonlinear_arith)
            requires
                t == tx * (t / tx) + t % tx,
                t % tx == col,
                t / tx == row;
    }
    if t == row * tx + col {
        vstd::arithmetic::div_mod::lemma_fundamental_div_mod_converse(t, tx, row, col);
    }
}

/// Where pixel `(x, y)` of a `width`-wide image is stored in a row-major buffer.
pub fn pixel_index(x: usize, y: usize, width: usize, height: usize) -> (i: usize)
    requires
        x < width,
        y < height,
        width * height <= usize::MAX,
    ensures
        i == y * width + x,
        i < width * height,
{
    proof {
        lemma_pixel_index_bound(x as int, y as int, width as int, height as int);
    }
    y * width + x
}

proof fn lemma_pixel_index_bound(x: int, y: int, w: int, h: int)
    by (nonlinear_arith)
    requires
        0 <= x < w,
        0 <= y < h,
    ensures
        y * w + x < w * h,
        0 <= y * w,
{
}

/// Distinct pixels of an image have distinct places in a row-major buffer.
pub proof fn lemma_pixel_index_injective(x1: int, y1: int, x2: int, y2: int, w: int)
    requires
        0 <= x1 < w,
        0 <= x2 < w,
        0 <= y1,
        0 <= y2,
        y1 * w + x1 == y2 * w + x2,
    ensures
        x1 == x2 && y1 == y2,
{
    vstd::arithmetic::div_mod::lemma_fundamental_div_mod_converse(y1 * w + x1, w, y1, x1);
    vstd::arithmetic::div_mod::lemma_fundamental_div_mod_converse(y2 * w + x2, w, y2, x2);
}

} // verus!
