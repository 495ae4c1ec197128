//! The coordinator's dispatch of tiles to a fixed pool of workers: each
//! worker renders one tile at a time, reports it, and is handed the next
//! undispatched tile or told to stop.
use vstd::prelude::*;
use vstd::set_lib::{lemma_int_range, lemma_len_subset, lemma_subset_equality, set_int_range};
use crate::image::{Image, opaque};
use crate::tiles::{
    lemma_count_bound, lemma_nth, lemma_number, lemma_pixel_in_one_tile, lemma_tiles_disjoint,
    ConfigError, Tile, TileGrid,
};

verus! {

/// What the coordinator tells one worker.
#[derive(Clone, Copy, Debug, PartialEq, Eq, Structural)]
pub enum Command {
    /// Render every pixel of this tile and report the result.
    Render(Tile),
    /// Stop: no more tiles will come.
    Shutdown,
}

/// A command addressed to worker number `worker`.
#[derive(Clone, Copy, Debug, PartialEq, Eq, Structural)]
pub struct Dispatch {
    pub worker: usize,
    pub command: Command,
}

/// Why a reported tile is refused.
#[derive(Clone, Copy, Debug, PartialEq, Eq, Structural)]
pub enum DispatchError {
    /// No worker has that number.
    UnknownWorker,
    /// The worker has no tile to report.
    NotRendering,
    /// The worker reports another tile than the one it was given.
    WrongTile,
    /// The block does not hold one color per pixel of the tile.
    WrongSize,
}

/// A rendered tile as a worker reports it: one RGB color per pixel, row by row.
pub struct TileResult {
    pub worker: usize,
    pub tile: Tile,
    pub colors: Vec<[u8; 3]>,
}

/// The coordinator's record of the render: the grid, the tile each worker is
/// rendering (by number, row by row), the number of the next tile to hand
/// out, the tiles whose results have been stored, and the colors each
/// stored tile was reported with.
pub struct Scheduler {
    pub grid: TileGrid,
    pub assignment: Vec<Option<usize>>,
    pub next_tile: usize,
    pub completed: usize,
    pub done: Ghost<Set<int>>,
    pub stored: Ghost<Map<int, Seq<[u8; 3]>>>,
}

impl Scheduler {
    pub open spec fn workers(&self) -> int {
        self.assignment@.len() as int
    }

    /// Worker `w` is rendering tile number `k`.
    pub open spec fn renders(&self, w: int, k: int) -> bool {
        &&& 0 <= w < self.workers()
        &&& 0 <= k
        &&& self.assignment@[w] == Some(k as usize)
    }

    /// The dispatch invariant: tiles are handed out in order, a tile handed
    /// out is either stored or rendered by exactly one worker, and while
    /// tiles remain every worker is busy.
    pub open spec fn wf(&self) -> bool {
        &&& self.grid.wf()
        &&& self.workers() > 0
        &&& self.next_tile <= self.grid.count()
        &&& self.done@.finite()
        &&& self.completed == self.done@.len()
        &&& self.stored@.dom() == self.done@
        &&& forall|k: int| #[trigger] self.done@.contains(k) ==> 0 <= k < self.next_tile
        &&& forall|w: int|
            0 <= w < self.workers() && #[trigger] self.assignment@[w] is Some ==> {
                let k = self.assignment@[w]->Some_0 as int;
                k < self.next_tile && !self.done@.contains(k)
            }
        &&& forall|w1: int, w2: int|
            0 <= w1 < self.workers() && 0 <= w2 < self.workers() && #[trigger] self.assignment@[w1]
                is Some && #[trigger] self.assignment@[w2] == self.assignment@[w1] ==> w1 == w2
        &&& forall|k: int|
            0 <= k < self.next_tile && !#[trigger] self.done@.contains(k) ==> exists|w: int|
                self.renders(w, k)
        &&& self.next_tile < self.grid.count() ==> forall|w: int|
            0 <= w < self.workers() ==> #[trigger] self.assignment@[w] is Some
    }

    /// Worker `w`'s standing command: the tile it is rendering, or a shutdown
    /// when it has none.
    pub open spec fn current_dispatch(&self, w: int) -> Dispatch {
        Dispatch {
            worker: w as usize,
            command: match self.assignment@[w] {
                Some(k) => Command::Render(self.grid.nth(k as int)),
                None => Command::Shutdown,
            },
        }
    }

    /// The color that the stored result of the tile holding pixel column
    /// `px`, row `py` gave that pixel.
    pub open spec fn stored_color(&self, px: int, py: int) -> [u8; 3] {
        let t = self.grid.tile_of(px, py);
        let s = self.grid.side as int;
        self.stored@[self.grid.number(t)][(py - t.y * s) * s + (px - t.x * s)]
    }

    /// `image` has the grid's size, and every pixel of a stored tile shows,
    /// opaque, the color that tile's result gave it.
    pub open spec fn shows(&self, image: &Image) -> bool {
        &&& image.wf()
        &&& image.width as int == self.grid.width
        &&& image.height as int == self.grid.height
        &&& forall|px: int, py: int|
            image.in_bounds(px, py) && self.done@.contains(
                self.grid.number(self.grid.tile_of(px, py)),
            ) ==> #[trigger] image.pixel(px, py) == opaque(self.stored_color(px, py))
    }

    /// Every tile's result has been stored.
    pub open spec fn finished(&self) -> bool {
        self.completed == self.grid.count()
    }

    /// A render of a `width` by `height` image in tiles of `side` pixels,
    /// with `workers` workers, primed: worker `w` is given tile number `w`
    /// while tiles last, and the next tile to hand out is the first that no
    /// worker was given.
    pub fn new(width: usize, height: usize, side: usize, workers: usize) -> (r: Result<
        Scheduler,
        ConfigError,
    >)
        requires
            width * height * 4 <= usize::MAX,
        ensures
            side == 0 ==> r == Err::<Scheduler, ConfigError>(ConfigError::ZeroTileSide),
            side > 0 && (width % side != 0 || height % side != 0) ==> r == Err::<
                Scheduler,
                ConfigError,
            >(ConfigError::NotDivisible),
            side > 0 && width % side == 0 && height % side == 0 && workers == 0 ==> r == Err::<
                Scheduler,
                ConfigError,
            >(ConfigError::NoWorkers),
            side > 0 && width % side == 0 && height % side == 0 && workers > 0 <==> r is Ok,
            r is Ok ==> {
                let s = r->Ok_0;
                &&& s.wf()
                &&& s.grid == TileGrid { width, height, side }
                &&& s.workers() == workers
                &&& s.next_tile == if workers < s.grid.count() {
                    workers as int
                } else {
                    s.grid.count()
                }
                &&& s.completed == 0
                &&& s.done@ == Set::<int>::empty()
                &&& forall|image: Image|
                    image.wf() && image.width as int == width && image.height as int == height
                        ==> #[trigger] s.shows(&image)
                &&& forall|w: int|
                    0 <= w < workers ==> #[trigger] s.assignment@[w] == if w < s.grid.count() {
                        Some(w as usize)
                    } else {
                        None
                    }
            },
    {
        let grid = match TileGrid::new(width, height, side) {
            Ok(g) => g,
            Err(e) => {
                return Err(e);
            },
        };
        if workers == 0 {
            return Err(ConfigError::NoWorkers);
        }
        let count = grid.tile_count();
        let mut assignment: Vec<Option<usize>> = Vec::with_capacity(workers);
        let mut w: usize = 0;
        while w < workers
            invariant
                w <= workers,
                count == grid.count(),
                assignment@.len() == w,
                forall|i: int|
                    0 <= i < w ==> #[trigger] assignment@[i] == if i < count {
                        Some(i as usize)
                    } else {
                        None
                    },
            decreases workers - w,
        {
            if w < count {
                assignment.push(Some(w));
            } else {
                assignment.push(None);
            }
            w = w + 1;
        }
        let next_tile = if workers < count {
            workers
        } else {
            count
        };
        let s = Scheduler {
            grid,
            assignment,
            next_tile,
            completed: 0,
            done: Ghost(Set::empty()),
            stored: Ghost(Map::empty()),
        };
        assert(s.done@.len() == 0);
        assert forall|k: int|
            0 <= k < s.next_tile && !#[trigger] s.done@.contains(k) implies exists|w: int|
                s.renders(w, k) by {
            assert(s.renders(k, k));
        }
        Ok(s)
    }

    /// The first command of each worker, in worker order: the tile it was
    /// given, or a shutdown where the tiles ran out before it.
    pub fn initial_dispatches(&self) -> (r: Vec<Dispatch>)
        requires
            self.wf(),
        ensures
            r@.len() == self.workers(),
            forall|w: int|
                0 <= w < self.workers() ==> #[trigger] r@[w] == self.current_dispatch(w),
    {
        let n = self.assignment.len();
        let mut r: Vec<Dispatch> = Vec::with_capacity(n);
        let mut w: usize = 0;
        while w < n
            invariant
                self.wf(),
                n == self.workers(),
                w <= n,
                r@.len() == w,
                forall|i: int|
                    0 <= i < w ==> #[trigger] r@[i] == self.current_dispatch(i),
            decreases n - w,
        {
            let command = match self.assignment[w] {
                Some(k) => Command::Render(self.grid.tile_at(k)),
                None => Command::Shutdown,
            };
            r.push(Dispatch { worker: w, command });
            w = w + 1;
        }
        r
    }

    /// Stores a worker's reported tile in the framebuffer and answers the
    /// worker: the next undispatched tile, or a shutdown once every tile has
    /// been handed out. A report that does not match what the worker was
    /// given is refused, and then nothing changes.
    pub fn receive(&mut self, image: &mut Image, result: &TileResult) -> (r: Result<
        Dispatch,
        DispatchError,
    >)
        requires
            old(self).wf(),
            old(image).wf(),
            old(image).width as int == old(self).grid.width,
            old(image).height as int == old(self).grid.height,
        ensures
            final(self).wf(),
            final(self).grid == old(self).grid,
            final(self).workers() == old(self).workers(),
            old(self).shows(old(image)) ==> final(self).shows(final(image)),
            ({
                let w = result.worker as int;
                let slot = old(self).assignment@[w];
                let k = slot->Some_0 as int;
                let side = old(self).grid.side as int;
                &&& w >= old(self).workers() ==> r == Err::<Dispatch, DispatchError>(
                    DispatchError::UnknownWorker,
                )
                &&& w < old(self).workers() && slot is None ==> r == Err::<Dispatch, DispatchError>(
                    DispatchError::NotRendering,
                )
                &&& w < old(self).workers() && slot is Some && result.tile != old(self).grid.nth(k)
                    ==> r == Err::<Dispatch, DispatchError>(DispatchError::WrongTile)
                &&& w < old(self).workers() && slot is Some && result.tile == old(self).grid.nth(k)
                    && result.colors@.len() != side * side ==> r == Err::<Dispatch, DispatchError>(
                    DispatchError::WrongSize,
                )
                &&& w < old(self).workers() && slot is Some && result.tile == old(self).grid.nth(k)
                    && result.colors@.len() == side * side ==> r is Ok
                &&& r is Err ==> *final(self) == *old(self) && *final(image) == *old(image)
                &&& r is Ok ==> {
                    &&& !old(self).done@.contains(k)
                    &&& final(self).done@ == old(self).done@.insert(k)
                    &&& final(self).stored@ == old(self).stored@.insert(k, result.colors@)
                    &&& final(self).completed == old(self).completed + 1
                    &&& r->Ok_0.worker == result.worker
                    &&& old(self).next_tile < old(self).grid.count() ==> {
                        &&& r->Ok_0.command == Command::Render(
                            old(self).grid.nth(old(self).next_tile as int),
                        )
                        &&& final(self).next_tile == old(self).next_tile + 1
                        &&& final(self).assignment@ == old(self).assignment@.update(
                            w,
                            Some(old(self).next_tile),
                        )
                    }
                    &&& old(self).next_tile == old(self).grid.count() ==> {
                        &&& r->Ok_0.command == Command::Shutdown
                        &&& final(self).next_tile == old(self).next_tile
                        &&& final(self).assignment@ == old(self).assignment@.update(w, None)
                    }
                    &&& final(image).wf()
                    &&& final(image).width == old(image).width
                    &&& final(image).height == old(image).height
                    &&& final(image).filename == old(image).filename
                    &&& forall|px: int, py: int|
                        old(image).in_bounds(px, py) ==> #[trigger] final(image).pixel(px, py)
                            == if old(self).grid.contains(result.tile, px, py) {
                            opaque(
                                result.colors@[(py - result.tile.y * side) * side + (px
                                    - result.tile.x * side)],
                            )
                        } else {
                            old(image).pixel(px, py)
                        }
                }
            }),
    {
        let w = result.worker;
        if w >= self.assignment.len() {
            return Err(DispatchError::UnknownWorker);
        }
        let k = match self.assignment[w] {
            Some(k) => k,
            None => {
                return Err(DispatchError::NotRendering);
            },
        };
        let expected = self.grid.tile_at(k);
        if result.tile != expected {
            return Err(DispatchError::WrongTile);
        }
        let side = self.grid.side;
        let (x0, y0) = self.grid.origin(expected);
        let ghost start_image: Image = *image;
        proof {
            assert(side * side <= self.grid.width * self.grid.height) by (nonlinear_arith)
                requires
                    side <= self.grid.width,
                    side <= self.grid.height,
            ;
        }
        if result.colors.len() != side * side {
            return Err(DispatchError::WrongSize);
        }
        image.write_tile(x0 as u32, y0 as u32, side as u32, &result.colors);
        let ghost before = *self;
        let count = self.grid.tile_count();
        let command = if self.next_tile < count {
            let t = self.grid.tile_at(self.next_tile);
            self.assignment.set(w, Some(self.next_tile));
            self.next_tile = self.next_tile + 1;
            Command::Render(t)
        } else {
            self.assignment.set(w, None);
            Command::Shutdown
        };
        proof {
            let dispatched = set_int_range(0, before.next_tile as int);
            lemma_int_range(0, before.next_tile as int);
            assert(before.done@.subset_of(dispatched.remove(k as int)));
            lemma_len_subset(before.done@, dispatched.remove(k as int));
        }
        self.completed = self.completed + 1;
        self.done = Ghost(self.done@.insert(k as int));
        self.stored = Ghost(self.stored@.insert(k as int, result.colors@));
        proof {
            if before.shows(&start_image) {
                let t = result.tile;
                assert forall|px: int, py: int|
                    image.in_bounds(px, py) && self.done@.contains(
                        self.grid.number(self.grid.tile_of(px, py)),
                    ) implies #[trigger] image.pixel(px, py) == opaque(
                    self.stored_color(px, py),
                ) by {
                    lemma_pixel_in_one_tile(self.grid, px, py);
                    let tp = self.grid.tile_of(px, py);
                    lemma_number(self.grid, tp);
                    if self.grid.contains(t, px, py) {
                        assert(tp == t);
                    } else {
                        if self.grid.number(tp) == k as int {
                            assert(self.grid.nth(k as int) == tp);
                        }
                    }
                }
            }

            let ki = k as int;
            let wi = w as int;
            assert forall|v: int|
                0 <= v < self.workers() && #[trigger] self.assignment@[v] is Some implies {
                let j = self.assignment@[v]->Some_0 as int;
                j < self.next_tile && !self.done@.contains(j)
            } by {
                if v != wi {
                    assert(before.assignment@[v] is Some);
                    if before.assignment@[v] == before.assignment@[wi] {
                        assert(v == wi);
                    }
                }
            }
            assert forall|w1: int, w2: int|
                0 <= w1 < self.workers() && 0 <= w2 < self.workers()
                    && #[trigger] self.assignment@[w1] is Some && #[trigger] self.assignment@[w2]
                    == self.assignment@[w1] implies w1 == w2 by {
                if w1 != wi && w2 != wi {
                    assert(before.assignment@[w1] == before.assignment@[w2]);
                } else if w1 == wi && w2 != wi {
                    assert(before.assignment@[w2] is Some);
                } else if w1 != wi && w2 == wi {
                    assert(before.assignment@[w1] is Some);
                }
            }
            assert forall|j: int|
                0 <= j < self.next_tile && !#[trigger] self.done@.contains(j) implies exists|
                v: int,
            | self.renders(v, j) by {
                if j < before.next_tile {
                    assert(!before.done@.contains(j));
                    let v = choose|v: int| before.renders(v, j);
                    assert(v != wi);
                    assert(self.renders(v, j));
                } else {
                    assert(self.renders(wi, j));
                }
            }
            if self.next_tile < self.grid.count() {
                assert forall|v: int| 0 <= v < self.workers() implies #[trigger] self.assignment@[v]
                    is Some by {
                    if v != wi {
                        assert(before.assignment@[v] is Some);
                    }
                }
            }
        }
        Ok(Dispatch { worker: w, command })
    }

    /// The number of workers.
    pub fn worker_count(&self) -> (r: usize)
        ensures
            r == self.workers(),
    {
        self.assignment.len()
    }

    /// Every tile's result has been stored.
    pub fn is_finished(&self) -> (r: bool)
        requires
            self.wf(),
        ensures
            r == self.finished(),
    {
        self.completed == self.grid.tile_count()
    }
}

/// Once every tile's result is stored, the stored tiles are exactly the
/// tiles of the grid, every tile has been handed out, and no worker is
/// rendering.
pub proof fn lemma_finished_covers(s: Scheduler)
    requires
        s.wf(),
        s.finished(),
    ensures
        s.done@ == set_int_range(0, s.grid.count()),
        s.next_tile == s.grid.count(),
        forall|w: int| 0 <= w < s.workers() ==> #[trigger] s.assignment@[w] is None,
{
    let all = set_int_range(0, s.grid.count());
    lemma_count_bound(s.grid);
    lemma_int_range(0, s.grid.count());
    assert(s.done@.subset_of(all));
    lemma_subset_equality(s.done@, all);
    if s.next_tile < s.grid.count() {
        assert(all.contains(s.next_tile as int));
    }
    assert forall|w: int| 0 <= w < s.workers() implies #[trigger] s.assignment@[w] is None by {
        if s.assignment@[w] is Some {
            assert(all.contains(s.assignment@[w]->Some_0 as int));
        }
    }
}

/// Once every tile's result is stored, each pixel of the image lies in one
/// stored tile and in no other: the stored tiles cover the image without
/// overlap, so each pixel was written by exactly one result.
pub proof fn lemma_finished_pixels(s: Scheduler, px: int, py: int)
    requires
        s.wf(),
        s.finished(),
        0 <= px < s.grid.width,
        0 <= py < s.grid.height,
    ensures
        exists|k: int| s.done@.contains(k) && #[trigger] s.grid.contains(s.grid.nth(k), px, py),
        forall|k1: int, k2: int|
            s.done@.contains(k1) && s.done@.contains(k2) && #[trigger] s.grid.contains(
                s.grid.nth(k1),
                px,
                py,
            ) && #[trigger] s.grid.contains(s.grid.nth(k2), px, py) ==> k1 == k2,
{
    lemma_finished_covers(s);
    lemma_pixel_in_one_tile(s.grid, px, py);
    let t = s.grid.tile_of(px, py);
    lemma_number(s.grid, t);
    let k = s.grid.number(t);
    assert(s.done@.contains(k));
    assert(s.grid.contains(s.grid.nth(k), px, py));
    assert forall|k1: int, k2: int|
        s.done@.contains(k1) && s.done@.contains(k2) && #[trigger] s.grid.contains(
            s.grid.nth(k1),
            px,
            py,
        ) && #[trigger] s.grid.contains(s.grid.nth(k2), px, py) implies k1 == k2 by {
        lemma_nth(s.grid, k1);
        lemma_nth(s.grid, k2);
    }
}

/// Once every tile's result is stored into a framebuffer that showed the
/// stored tiles all along, every pixel of the image is opaque and holds the
/// color that its own tile's result gave it: no pixel is left unwritten.
pub proof fn lemma_finished_image(s: Scheduler, image: Image)
    requires
        s.wf(),
        s.finished(),
        s.shows(&image),
    ensures
        forall|px: int, py: int|
            image.in_bounds(px, py) ==> {
                &&& #[trigger] image.pixel(px, py) == opaque(s.stored_color(px, py))
                &&& image.pixel(px, py)[3] == 255u8
            },
{
    lemma_finished_covers(s);
    assert forall|px: int, py: int| image.in_bounds(px, py) implies {
        &&& #[trigger] image.pixel(px, py) == opaque(s.stored_color(px, py))
        &&& image.pixel(px, py)[3] == 255u8
    } by {
        lemma_pixel_in_one_tile(s.grid, px, py);
        lemma_number(s.grid, s.grid.tile_of(px, py));
        assert(s.done@.contains(s.grid.number(s.grid.tile_of(px, py))));
    }
}

/// Two different stored tiles claim no common pixel.
pub proof fn lemma_stored_tiles_disjoint(s: Scheduler, k1: int, k2: int, px: int, py: int)
    requires
        s.wf(),
        s.done@.contains(k1),
        s.done@.contains(k2),
        k1 != k2,
    ensures
        !(s.grid.contains(s.grid.nth(k1), px, py) && s.grid.contains(s.grid.nth(k2), px, py)),
{
    lemma_count_bound(s.grid);
    assert(k1 < s.grid.count() && k2 < s.grid.count());
    lemma_nth(s.grid, k1);
    lemma_nth(s.grid, k2);
    lemma_tiles_disjoint(s.grid, s.grid.nth(k1), s.grid.nth(k2), px, py);
}

/// While some tile's result is missing, some worker is rendering a tile, so
/// waiting for the next result cannot wait forever on idle workers.
pub proof fn lemma_unfinished_has_worker(s: Scheduler)
    requires
        s.wf(),
        !s.finished(),
    ensures
        exists|w: int| 0 <= w < s.workers() && #[trigger] s.assignment@[w] is Some,
{
    if s.next_tile < s.grid.count() {
        assert(s.assignment@[0] is Some);
    } else {
        let dispatched = set_int_range(0, s.next_tile as int);
        lemma_int_range(0, s.next_tile as int);
        if forall|k: int| 0 <= k < s.next_tile ==> #[trigger] s.done@.contains(k) {
            assert(dispatched.subset_of(s.done@));
            lemma_len_subset(dispatched, s.done@);
            assert(s.done@.subset_of(dispatched));
            lemma_len_subset(s.done@, dispatched);
        } else {
            let k = choose|k: int| 0 <= k < s.next_tile && !#[trigger] s.done@.contains(k);
            let w = choose|w: int| s.renders(w, k);
            assert(s.assignment@[w] is Some);
        }
    }
}

} // verus!
