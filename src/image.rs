//! The RGBA8 framebuffer that the coordinator owns and fills.
use vstd::prelude::*;

verus! {

/// The bytes of an RGBA pixel at flat pixel index `i` of `data`.
pub open spec fn pixel_bytes(data: Seq<u8>, i: int) -> Seq<u8> {
    data.subrange(4 * i, 4 * i + 4)
}

/// `data` with the four bytes of flat pixel index `i` replaced by `color`.
pub open spec fn with_pixel(data: Seq<u8>, i: int, color: Seq<u8>) -> Seq<u8> {
    data.update(4 * i, color[0]).update(4 * i + 1, color[1]).update(4 * i + 2, color[2]).update(
        4 * i + 3,
        color[3],
    )
}

/// The opaque RGBA pixel of an RGB color.
pub open spec fn opaque(c: [u8; 3]) -> Seq<u8> {
    seq![c[0], c[1], c[2], 255u8]
}

/// Replacing one pixel leaves the bytes of every other pixel as they were.
pub proof fn lemma_with_pixel(data: Seq<u8>, i: int, color: Seq<u8>, j: int)
    requires
        color.len() == 4,
        0 <= i,
        0 <= j,
        4 * i + 4 <= data.len(),
        4 * j + 4 <= data.len(),
    ensures
        pixel_bytes(with_pixel(data, i, color), j) == if i == j {
            color
        } else {
            pixel_bytes(data, j)
        },
{
    if i == j {
        assert(pixel_bytes(with_pixel(data, i, color), j) =~= color);
    } else {
        assert(pixel_bytes(with_pixel(data, i, color), j) =~= pixel_bytes(data, j));
    }
}

/// Within rows of `w` columns, a flat index names exactly one column and row.
pub proof fn lemma_index_injective(w: int, x1: int, y1: int, x2: int, y2: int)
    requires
        0 <= x1 < w,
        0 <= x2 < w,
        0 <= y1,
        0 <= y2,
        x1 + y1 * w == x2 + y2 * w,
    ensures
        x1 == x2,
        y1 == y2,
{
    let n = x1 + y1 * w;
    assert(y1 * w == w * y1) by (nonlinear_arith);
    assert(y2 * w == w * y2) by (nonlinear_arith);
    vstd::arithmetic::div_mod::lemma_fundamental_div_mod_converse(n, w, y1, x1);
    vstd::arithmetic::div_mod::lemma_fundamental_div_mod_converse(n, w, y2, x2);
}

/// A column and row inside a `w` by `h` image have a flat index below `w * h`.
pub proof fn lemma_index_bound(w: int, h: int, x: int, y: int)
    requires
        0 <= x < w,
        0 <= y < h,
    ensures
        0 <= x + y * w < w * h,
{
    assert(0 <= y * w <= (h - 1) * w) by (nonlinear_arith)
        requires
            0 <= y < h,
            0 <= w,
    ;
    assert((h - 1) * w + w == w * h) by (nonlinear_arith);
}

/// A row-major RGBA8 image of `width` by `height` pixels and the name it is
/// to be saved under.
pub struct Image {
    pub width: u32,
    pub height: u32,
    pub data: Vec<u8>,
    pub filename: String,
}

impl Image {
    /// The buffer holds exactly four bytes for each pixel.
    pub open spec fn wf(&self) -> bool {
        self.data@.len() == self.pixel_count() * 4
    }

    pub open spec fn pixel_count(&self) -> nat {
        self.width as nat * self.height as nat
    }

    /// The flat index of the pixel at column `x` and row `y`.
    pub open spec fn index_of(&self, x: int, y: int) -> int {
        x + y * self.width
    }

    /// The four bytes of the pixel at flat index `i`.
    pub open spec fn pixel_at(&self, i: int) -> Seq<u8> {
        pixel_bytes(self.data@, i)
    }

    /// The four bytes of the pixel at column `x` and row `y`.
    pub open spec fn pixel(&self, x: int, y: int) -> Seq<u8> {
        self.pixel_at(self.index_of(x, y))
    }

    /// Column `x`, row `y` lies inside the image.
    pub open spec fn in_bounds(&self, x: int, y: int) -> bool {
        0 <= x < self.width && 0 <= y < self.height
    }

    /// The flat index of column `x`, row `y`, computed without overflow.
    fn flat_index(&self, x: u32, y: u32) -> (r: usize)
        requires
            self.wf(),
            self.index_of(x as int, y as int) < self.pixel_count(),
        ensures
            r == self.index_of(x as int, y as int),
            4 * r + 4 <= self.data@.len() <= usize::MAX,
    {
        let length = self.data.len();
        proof {
            assert(self.data@.len() == length <= usize::MAX);
            let w = self.width as int;
            let yy = y as int;
            assert(0 <= yy * w) by (nonlinear_arith)
                requires
                    0 <= yy,
                    0 <= w,
            ;
        }
        (x as usize) + (y as usize) * (self.width as usize)
    }

    /// A black, fully transparent image of the given size.
    pub fn new(width: u32, height: u32, filename: String) -> (r: Image)
        requires
            width as nat * height as nat * 4 <= usize::MAX,
        ensures
            r.wf(),
            r.width == width,
            r.height == height,
            r.filename == filename,
            forall|i: int| 0 <= i < r.data@.len() ==> #[trigger] r.data@[i] == 0u8,
    {
        let n: usize = (width as usize) * (height as usize) * 4;
        let mut data: Vec<u8> = Vec::with_capacity(n);
        let mut k: usize = 0;
        while k < n
            invariant
                k <= n,
                data@.len() == k,
                forall|i: int| 0 <= i < k ==> #[trigger] data@[i] == 0u8,
            decreases n - k,
        {
            data.push(0u8);
            k = k + 1;
        }
        Image { width, height, data, filename }
    }

    /// Overwrites the pixel at column `x` and row `y` with `color`.
    /// A column past the right edge falls onto the following row; the flat
    /// index must lie inside the image.
    pub fn set_pixel(&mut self, x: u32, y: u32, color: [u8; 4])
        requires
            old(self).wf(),
            old(self).index_of(x as int, y as int) < old(self).pixel_count(),
        ensures
            final(self).wf(),
            final(self).width == old(self).width,
            final(self).height == old(self).height,
            final(self).filename == old(self).filename,
            final(self).data@ == with_pixel(
                old(self).data@,
                old(self).index_of(x as int, y as int),
                color@,
            ),
            forall|j: int|
                0 <= j < old(self).pixel_count() ==> #[trigger] final(self).pixel_at(j) == if j
                    == old(self).index_of(x as int, y as int) {
                    color@
                } else {
                    old(self).pixel_at(j)
                },
            x < old(self).width ==> forall|px: int, py: int|
                old(self).in_bounds(px, py) ==> #[trigger] final(self).pixel(px, py) == if px
                    == x && py == y {
                    color@
                } else {
                    old(self).pixel(px, py)
                },
    {
        let index = self.flat_index(x, y);
        let ghost before = self.data@;
        self.data.set(index * 4, color[0]);
        self.data.set(index * 4 + 1, color[1]);
        self.data.set(index * 4 + 2, color[2]);
        self.data.set(index * 4 + 3, color[3]);
        assert(self.data@ == with_pixel(before, index as int, color@));
        proof {
            let pc = self.pixel_count() as int;
            assert forall|j: int| 0 <= j < pc implies #[trigger] self.pixel_at(j) == if j
                == index as int {
                color@
            } else {
                pixel_bytes(before, j)
            } by {
                lemma_with_pixel(before, index as int, color@, j);
            }
            if x < self.width {
                assert forall|px: int, py: int| self.in_bounds(px, py) implies #[trigger] self.pixel(
                    px,
                    py,
                ) == if px == x && py == y {
                    color@
                } else {
                    pixel_bytes(before, self.index_of(px, py))
                } by {
                    let w = self.width as int;
                    lemma_index_bound(w, self.height as int, px, py);
                    if self.index_of(px, py) == index as int {
                        lemma_index_injective(w, px, py, x as int, y as int);
                    }
                }
            }
        }
    }

    /// The pixel at column `x` and row `y`.
    pub fn get_pixel(&self, x: u32, y: u32) -> (r: [u8; 4])
        requires
            self.wf(),
            self.index_of(x as int, y as int) < self.pixel_count(),
        ensures
            r@ == self.pixel_at(self.index_of(x as int, y as int)),
    {
        let index = self.flat_index(x, y);
        let r = [
            self.data[index * 4],
            self.data[index * 4 + 1],
            self.data[index * 4 + 2],
            self.data[index * 4 + 3],
        ];
        assert(r@ =~= self.pixel_at(index as int));
        r
    }

    /// Writes a square block of opaque pixels, `side` pixels on each edge,
    /// whose top-left corner is column `x0`, row `y0`; `colors` holds the
    /// block's colors row by row. Every pixel outside the block keeps its value.
    pub fn write_tile(&mut self, x0: u32, y0: u32, side: u32, colors: &Vec<[u8; 3]>)
        requires
            old(self).wf(),
            x0 + side <= old(self).width,
            y0 + side <= old(self).height,
            colors@.len() == side * side,
        ensures
            final(self).wf(),
            final(self).width == old(self).width,
            final(self).height == old(self).height,
            final(self).filename == old(self).filename,
            forall|px: int, py: int|
                old(self).in_bounds(px, py) ==> #[trigger] final(self).pixel(px, py) == if x0 <= px
                    < x0 + side && y0 <= py < y0 + side {
                    opaque(colors@[(py - y0) * side + (px - x0)])
                } else {
                    old(self).pixel(px, py)
                },
    {
        let ghost start: Image = *self;
        let s = side as usize;
        let count = colors.len();
        let mut dy: u32 = 0;
        while dy < side
            invariant
                dy <= side,
                self.wf(),
                self.width == start.width,
                self.height == start.height,
                self.filename == start.filename,
                x0 + side <= self.width,
                y0 + side <= self.height,
                s == side,
                colors@.len() == side * side,
                count == colors@.len(),
                forall|px: int, py: int|
                    self.in_bounds(px, py) ==> #[trigger] self.pixel(px, py) == if x0 <= px < x0
                        + side && y0 <= py < y0 + dy {
                        opaque(colors@[(py - y0) * side + (px - x0)])
                    } else {
                        start.pixel(px, py)
                    },
            decreases side - dy,
        {
            let mut dx: u32 = 0;
            while dx < side
                invariant
                    dx <= side,
                    dy < side,
                    self.wf(),
                    self.width == start.width,
                    self.height == start.height,
                    self.filename == start.filename,
                    x0 + side <= self.width,
                    y0 + side <= self.height,
                    s == side,
                    colors@.len() == side * side,
                    count == colors@.len(),
                    forall|px: int, py: int|
                        self.in_bounds(px, py) ==> #[trigger] self.pixel(px, py) == if x0 <= px
                            < x0 + side && (y0 <= py < y0 + dy || (py == y0 + dy && px < x0
                            + dx)) {
                            opaque(colors@[(py - y0) * side + (px - x0)])
                        } else {
                            start.pixel(px, py)
                        },
                decreases side - dx,
            {
                proof {
                    let (a, b, n) = (dy as int, dx as int, side as int);
                    assert(0 <= a * n <= a * n + b < n * n) by (nonlinear_arith)
                        requires
                            0 <= a < n,
                            0 <= b < n,
                    ;
                }
                let k: usize = (dy as usize) * s + (dx as usize);
                let c = colors[k];
                proof {
                    lemma_index_bound(
                        self.width as int,
                        self.height as int,
                        (x0 + dx) as int,
                        (y0 + dy) as int,
                    );
                }
                self.set_pixel(x0 + dx, y0 + dy, [c[0], c[1], c[2], 255u8]);
                proof {
                    assert([c[0], c[1], c[2], 255u8]@ =~= opaque(c));
                }
                dx = dx + 1;
            }
            dy = dy + 1;
        }
    }

    /// Replaces the name the image is to be saved under.
    pub fn update_filename(&mut self, filename: String)
        ensures
            final(self).filename == filename,
            final(self).width == old(self).width,
            final(self).height == old(self).height,
            final(self).data == old(self).data,
    {
        self.filename = filename;
    }
}

} // verus!
