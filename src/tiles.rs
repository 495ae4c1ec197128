//! The partition of an image into square tiles.
use vstd::prelude::*;

verus! {

/// A tile, named by its column and row in the grid of tiles.
#[derive(Clone, Copy, Debug, PartialEq, Eq, Structural)]
pub struct Tile {
    pub x: usize,
    pub y: usize,
}

/// Why a render configuration is refused before any work starts.
#[derive(Clone, Copy, Debug, PartialEq, Eq, Structural)]
pub enum ConfigError {
    /// The tile side length is zero.
    ZeroTileSide,
    /// The width or the height is not a multiple of the tile side length.
    NotDivisible,
    /// The worker pool is empty.
    NoWorkers,
}

/// An image of `width` by `height` pixels cut into square tiles of `side`
/// pixels on each edge.
#[derive(Clone, Copy, Debug, PartialEq, Eq, Structural)]
pub struct TileGrid {
    pub width: usize,
    pub height: usize,
    pub side: usize,
}

impl TileGrid {
    /// The tiles cover the image exactly, and the image's RGBA bytes can be
    /// counted in a `usize`.
    pub open spec fn wf(&self) -> bool {
        &&& self.side > 0
        &&& self.width % self.side == 0
        &&& self.height % self.side == 0
        &&& self.width * self.height * 4 <= usize::MAX
    }

    /// Number of tiles in a row of tiles.
    pub open spec fn n_columns(&self) -> int {
        self.width as int / self.side as int
    }

    /// Number of rows of tiles.
    pub open spec fn n_rows(&self) -> int {
        self.height as int / self.side as int
    }

    pub open spec fn count(&self) -> int {
        self.n_columns() * self.n_rows()
    }

    pub open spec fn is_tile(&self, t: Tile) -> bool {
        t.x < self.n_columns() && t.y < self.n_rows()
    }

    /// Pixel column `px`, row `py` lies in tile `t`.
    pub open spec fn contains(&self, t: Tile, px: int, py: int) -> bool {
        let s = self.side as int;
        &&& t.x * s <= px < t.x * s + s
        &&& t.y * s <= py < t.y * s + s
    }

    /// The tile that holds pixel column `px`, row `py`.
    pub open spec fn tile_of(&self, px: int, py: int) -> Tile {
        Tile { x: (px / self.side as int) as usize, y: (py / self.side as int) as usize }
    }

    /// Tile number `k` when the tiles are taken row by row, left to right.
    pub open spec fn nth(&self, k: int) -> Tile {
        Tile { x: (k % self.n_columns()) as usize, y: (k / self.n_columns()) as usize }
    }

    /// The number of tile `t` in row-by-row order.
    pub open spec fn number(&self, t: Tile) -> int {
        t.y * self.n_columns() + t.x
    }

    /// Checks a grid's dimensions: the side must be positive and divide both
    /// the width and the height.
    pub fn new(width: usize, height: usize, side: usize) -> (r: Result<TileGrid, ConfigError>)
        requires
            width * height * 4 <= usize::MAX,
        ensures
            side == 0 ==> r == Err::<TileGrid, ConfigError>(ConfigError::ZeroTileSide),
            side > 0 && (width % side != 0 || height % side != 0) ==> r == Err::<
                TileGrid,
                ConfigError,
            >(ConfigError::NotDivisible),
            side > 0 && width % side == 0 && height % side == 0 ==> r == Ok::<
                TileGrid,
                ConfigError,
            >(TileGrid { width, height, side }),
            r is Ok ==> r->Ok_0.wf(),
    {
        if side == 0 {
            Err(ConfigError::ZeroTileSide)
        } else if width % side != 0 || height % side != 0 {
            Err(ConfigError::NotDivisible)
        } else {
            Ok(TileGrid { width, height, side })
        }
    }

    /// The number of tiles in a row of tiles.
    pub fn columns(&self) -> (r: usize)
        requires
            self.wf(),
        ensures
            r == self.n_columns(),
    {
        self.width / self.side
    }

    /// The number of rows of tiles.
    pub fn rows(&self) -> (r: usize)
        requires
            self.wf(),
        ensures
            r == self.n_rows(),
    {
        self.height / self.side
    }

    /// The number of tiles in the grid.
    pub fn tile_count(&self) -> (r: usize)
        requires
            self.wf(),
        ensures
            r == self.count(),
    {
        proof {
            lemma_count_bound(*self);
        }
        self.columns() * self.rows()
    }

    /// Tile number `k`, counting row by row.
    pub fn tile_at(&self, k: usize) -> (r: Tile)
        requires
            self.wf(),
            k < self.count(),
        ensures
            r == self.nth(k as int),
            self.is_tile(r),
            self.number(r) == k,
    {
        proof {
            lemma_nth(*self, k as int);
        }
        let c = self.columns();
        Tile { x: k % c, y: k / c }
    }

    /// The number of tile `t`, counting row by row.
    pub fn tile_number(&self, t: Tile) -> (r: usize)
        requires
            self.wf(),
            self.is_tile(t),
        ensures
            r == self.number(t),
            self.nth(r as int) == t,
    {
        proof {
            lemma_number(*self, t);
        }
        t.y * self.columns() + t.x
    }

    /// The pixel column and row of the top-left corner of tile `t`.
    pub fn origin(&self, t: Tile) -> (r: (usize, usize))
        requires
            self.wf(),
            self.is_tile(t),
        ensures
            r.0 == t.x * self.side,
            r.1 == t.y * self.side,
            r.0 + self.side <= self.width,
            r.1 + self.side <= self.height,
    {
        proof {
            lemma_tile_in_image(*self, t);
        }
        (t.x * self.side, t.y * self.side)
    }
}

/// The pair `p` names pixel column `x`, row `y`.
pub open spec fn is_pixel(p: (usize, usize), x: int, y: int) -> bool {
    p.0 == x && p.1 == y
}

impl TileGrid {
    /// The pixels of tile `t` in the order a worker renders and reports
    /// them: row by row, left to right, as column and row pairs.
    pub fn tile_pixels(&self, t: Tile) -> (r: Vec<(usize, usize)>)
        requires
            self.wf(),
            self.is_tile(t),
        ensures
            r@.len() == self.side * self.side,
            forall|dy: int, dx: int|
                0 <= dy < self.side && 0 <= dx < self.side ==> is_pixel(#[trigger] r@[dy * self.side + dx], t.x * self.side + dx, t.y * self.side + dy),
    {
        let (x0, y0) = self.origin(t);
        let s = self.side;
        proof {
            assert(s * s <= self.width * self.height) by (nonlinear_arith)
                requires
                    s <= self.width,
                    s <= self.height,
            ;
        }
        let mut r: Vec<(usize, usize)> = Vec::with_capacity(s * s);
        let mut dy: usize = 0;
        while dy < s
            invariant
                self.wf(),
                s == self.side,
                x0 == t.x * s,
                y0 == t.y * s,
                x0 + s <= self.width,
                y0 + s <= self.height,
                dy <= s,
                r@.len() == dy * s,
                forall|a: int, b: int|
                    0 <= a < dy && 0 <= b < s ==> is_pixel(#[trigger] r@[a * s + b], x0 + b, y0 + a),
            decreases s - dy,
        {
            let mut dx: usize = 0;
            while dx < s
                invariant
                    self.wf(),
                    s == self.side,
                    x0 + s <= self.width,
                    y0 + s <= self.height,
                    dy < s,
                    dx <= s,
                    r@.len() == dy * s + dx,
                    forall|a: int, b: int|
                        0 <= a < dy && 0 <= b < s ==> is_pixel(#[trigger] r@[a * s + b], x0 + b, y0 + a),
                    forall|b: int| 0 <= b < dx ==> is_pixel(#[trigger] r@[dy * s + b], x0 + b, y0 + dy),
                decreases s - dx,
            {
                let ghost prev = r@;
                r.push((x0 + dx, y0 + dy));
                proof {
                    assert forall|a: int, b: int| 0 <= a < dy && 0 <= b < s implies is_pixel(
                        #[trigger] r@[a * s + b],
                        x0 + b,
                        y0 + a,
                    ) by {
                        assert(a * s + b < dy * s) by (nonlinear_arith)
                            requires
                                0 <= a < dy,
                                0 <= b < s,
                        ;
                        assert(r@[a * s + b] == prev[a * s + b]);
                    }
                }
                dx = dx + 1;
            }
            proof {
                assert forall|a: int, b: int| 0 <= a < dy + 1 && 0 <= b < s implies is_pixel(#[trigger] r@[a
                    * s + b], x0 + b, y0 + a) by {
                    if a == dy {
                    }
                }
                assert((dy + 1) * s == dy * s + s) by (nonlinear_arith);
            }
            dy = dy + 1;
        }
        r
    }
}

/// The tile count is bounded by the pixel count, so it fits in a `usize`.
pub proof fn lemma_count_bound(g: TileGrid)
    requires
        g.wf(),
    ensures
        0 <= g.n_columns() <= g.width,
        0 <= g.n_rows() <= g.height,
        0 <= g.count() <= g.width * g.height,
        g.n_columns() * g.side == g.width,
        g.n_rows() * g.side == g.height,
{
    let (w, h, s) = (g.width as int, g.height as int, g.side as int);
    vstd::arithmetic::div_mod::lemma_fundamental_div_mod(w, s);
    vstd::arithmetic::div_mod::lemma_fundamental_div_mod(h, s);
    let (c, r) = (g.n_columns(), g.n_rows());
    assert(c * s == s * c) by (nonlinear_arith);
    assert(r * s == s * r) by (nonlinear_arith);
    assert(0 <= c <= w) by (nonlinear_arith)
        requires
            c * s == w,
            s >= 1,
            w >= 0,
    ;
    assert(0 <= r <= h) by (nonlinear_arith)
        requires
            r * s == h,
            s >= 1,
            h >= 0,
    ;
    assert(0 <= c * r <= w * h) by (nonlinear_arith)
        requires
            0 <= c <= w,
            0 <= r <= h,
    ;
}

/// Tile number `k` is a tile of the grid, and its number is `k`.
pub proof fn lemma_nth(g: TileGrid, k: int)
    requires
        g.wf(),
        0 <= k < g.count(),
    ensures
        g.is_tile(g.nth(k)),
        g.number(g.nth(k)) == k,
{
    lemma_count_bound(g);
    let c = g.n_columns();
    let r = g.n_rows();
    assert(c > 0) by (nonlinear_arith)
        requires
            0 <= k < c * r,
            c >= 0,
            r >= 0,
    ;
    vstd::arithmetic::div_mod::lemma_fundamental_div_mod(k, c);
    assert(k / c < r) by (nonlinear_arith)
        requires
            k == c * (k / c) + k % c,
            0 <= k % c,
            k < c * r,
            c > 0,
    ;
    assert(0 <= k / c) by (nonlinear_arith)
        requires
            0 <= k,
            c > 0,
    ;
    assert(c * (k / c) == (k / c) * c) by (nonlinear_arith);
}

/// A tile's number counts it back to the tile.
pub proof fn lemma_number(g: TileGrid, t: Tile)
    requires
        g.wf(),
        g.is_tile(t),
    ensures
        0 <= t.y * g.n_columns() <= g.number(t) < g.count() <= usize::MAX,
        g.nth(g.number(t)) == t,
{
    lemma_count_bound(g);
    let c = g.n_columns();
    let r = g.n_rows();
    let (x, y) = (t.x as int, t.y as int);
    assert(0 <= y * c <= y * c + x < c * r) by (nonlinear_arith)
        requires
            0 <= x < c,
            0 <= y < r,
    ;
    vstd::arithmetic::div_mod::lemma_fundamental_div_mod_converse(y * c + x, c, y, x);
}

/// A tile of the grid lies inside the image.
proof fn lemma_tile_in_image(g: TileGrid, t: Tile)
    requires
        g.wf(),
        g.is_tile(t),
    ensures
        t.x * g.side + g.side <= g.width,
        t.y * g.side + g.side <= g.height,
{
    lemma_count_bound(g);
    let (x, y, s) = (t.x as int, t.y as int, g.side as int);
    let (c, r) = (g.n_columns(), g.n_rows());
    assert(x * s + s <= c * s) by (nonlinear_arith)
        requires
            0 <= x < c,
            s > 0,
    ;
    assert(y * s + s <= r * s) by (nonlinear_arith)
        requires
            0 <= y < r,
            s > 0,
    ;
}

/// Every pixel of the image lies in exactly one tile of the grid: the tile
/// `tile_of` names holds it, and any tile that holds it is that one.
pub proof fn lemma_pixel_in_one_tile(g: TileGrid, px: int, py: int)
    requires
        g.wf(),
        0 <= px < g.width,
        0 <= py < g.height,
    ensures
        g.is_tile(g.tile_of(px, py)),
        g.contains(g.tile_of(px, py), px, py),
        forall|t: Tile| #[trigger] g.contains(t, px, py) ==> t == g.tile_of(px, py),
{
    lemma_count_bound(g);
    let s = g.side as int;
    vstd::arithmetic::div_mod::lemma_fundamental_div_mod(px, s);
    vstd::arithmetic::div_mod::lemma_fundamental_div_mod(py, s);
    let (qx, qy) = (px / s, py / s);
    assert(qx * s == s * qx && qy * s == s * qy) by (nonlinear_arith);
    assert(0 <= qx < g.n_columns()) by (nonlinear_arith)
        requires
            px == qx * s + px % s,
            0 <= px % s < s,
            0 <= px < g.n_columns() * s,
            s > 0,
    ;
    assert(0 <= qy < g.n_rows()) by (nonlinear_arith)
        requires
            py == qy * s + py % s,
            0 <= py % s < s,
            0 <= py < g.n_rows() * s,
            s > 0,
    ;
    assert forall|t: Tile| #[trigger] g.contains(t, px, py) implies t == g.tile_of(px, py) by {
        vstd::arithmetic::div_mod::lemma_fundamental_div_mod_converse(
            px,
            s,
            t.x as int,
            px - t.x * s,
        );
        vstd::arithmetic::div_mod::lemma_fundamental_div_mod_converse(
            py,
            s,
            t.y as int,
            py - t.y * s,
        );
    }
}

/// Two different tiles share no pixel.
pub proof fn lemma_tiles_disjoint(g: TileGrid, t1: Tile, t2: Tile, px: int, py: int)
    requires
        g.wf(),
        t1 != t2,
    ensures
        !(g.contains(t1, px, py) && g.contains(t2, px, py)),
{
    let s = g.side as int;
    if g.contains(t1, px, py) && g.contains(t2, px, py) {
        vstd::arithmetic::div_mod::lemma_fundamental_div_mod_converse(
            px,
            s,
            t1.x as int,
            px - t1.x * s,
        );
        vstd::arithmetic::div_mod::lemma_fundamental_div_mod_converse(
            px,
            s,
            t2.x as int,
            px - t2.x * s,
        );
        vstd::arithmetic::div_mod::lemma_fundamental_div_mod_converse(
            py,
            s,
            t1.y as int,
            py - t1.y * s,
        );
        vstd::arithmetic::div_mod::lemma_fundamental_div_mod_converse(
            py,
            s,
            t2.y as int,
            py - t2.y * s,
        );
    }
}

} // verus!
