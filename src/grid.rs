use vstd::prelude::*;
use crate::random::{EXACT_RANGE, random_range};

verus! {

/// A grid coordinate `(x, y)`.
pub type Pos = (usize, usize);

/// The content of one tile.
#[derive(Clone, Copy, Debug, PartialEq, Eq, Structural)]
pub enum CellType {
    Empty,
    Obstacle,
}

/// A dense `width` x `height` tile map, stored row by row.
pub struct Grid {
    pub width: usize,
    pub height: usize,
    /// Tiles in row-major order: `(x, y)` is at `y * width + x`.
    pub cells: Vec<CellType>,
}

/// Whether `(x, y)` lies inside a `w` x `h` rectangle.
pub open spec fn in_bounds(w: int, h: int, x: int, y: int) -> bool {
    0 <= x < w && 0 <= y < h
}

pub proof fn lemma_row_index(w: int, h: int, x: int, y: int)
    requires
        in_bounds(w, h, x, y),
    ensures
        0 <= y * w <= y * w + x < w * h,
{
    assert(y * w + x < w * h) by (nonlinear_arith)
        requires
            0 <= x < w,
            0 <= y < h,
    ;
    assert(0 <= y * w) by (nonlinear_arith)
        requires
            0 <= x < w,
            0 <= y,
    ;
}

impl Grid {
    /// The grid is well formed: one stored tile per coordinate.
    pub open spec fn wf(&self) -> bool {
        &&& self.cells@.len() == self.width * self.height
        &&& self.width * self.height <= usize::MAX
    }

    /// The tile at an in-bounds coordinate.
    pub open spec fn cell(&self, x: int, y: int) -> CellType {
        self.cells@[y * self.width + x]
    }

    /// Out-of-range coordinates count as blocked.
    pub open spec fn blocked(&self, x: int, y: int) -> bool {
        !in_bounds(self.width as int, self.height as int, x, y) || self.cell(x, y)
            == CellType::Obstacle
    }

    /// A grid of empty tiles.
    pub fn new(width: usize, height: usize) -> (r: Grid)
        requires
            width * height <= usize::MAX,
        ensures
            r.wf(),
            r.width == width,
            r.height == height,
            forall|x: int, y: int|
                in_bounds(width as int, height as int, x, y) ==> #[trigger] r.cell(x, y)
                    == CellType::Empty,
    {
        let n = width * height;
        let cells = vec![CellType::Empty; n];
        let r = Grid { width, height, cells };
        assert forall|x: int, y: int|
            in_bounds(width as int, height as int, x, y) implies #[trigger] r.cell(x, y)
                == CellType::Empty by {
            lemma_row_index(width as int, height as int, x, y);
        }
        r
    }

    /// The tile at `(x, y)`, or `None` outside the grid.
    pub fn get_cell(&self, x: usize, y: usize) -> (r: Option<CellType>)
        requires
            self.wf(),
        ensures
            in_bounds(self.width as int, self.height as int, x as int, y as int) ==> r == Some(
                self.cell(x as int, y as int),
            ),
            !in_bounds(self.width as int, self.height as int, x as int, y as int) ==> r is None,
    {
        if x < self.width && y < self.height {
            proof {
                lemma_row_index(self.width as int, self.height as int, x as int, y as int);
            }
            Some(self.cells[y * self.width + x])
        } else {
            None
        }
    }

    /// Writes one tile; a write outside the grid changes nothing.
    pub fn set_cell(&mut self, x: usize, y: usize, cell_type: CellType)
        requires
            old(self).wf(),
        ensures
            final(self).wf(),
            final(self).width == old(self).width,
            final(self).height == old(self).height,
            forall|i: int, j: int|
                in_bounds(old(self).width as int, old(self).height as int, i, j) ==> #[trigger] final(self).cell(i, j) == if i == x && j == y {
                    cell_type
                } else {
                    old(self).cell(i, j)
                },
    {
        if x < self.width && y < self.height {
            proof {
                lemma_row_index(self.width as int, self.height as int, x as int, y as int);
            }
            let k = y * self.width + x;
            self.cells.set(k, cell_type);
            proof {
                let w = self.width as int;
                assert forall|i: int, j: int|
                    in_bounds(w, self.height as int, i, j) implies #[trigger] self.cell(i, j)
                        == if i == x && j == y {
                        cell_type
                    } else {
                        old(self).cell(i, j)
                    } by {
                    lemma_row_index(w, self.height as int, i, j);
                    if j * w + i == k {
                        lemma_same_index(w, i, j, x as int, y as int);
                    }
                }
            }
        }
    }

    /// Whether `(x, y)` is an obstacle or lies outside the grid.
    pub fn is_obstacle(&self, x: usize, y: usize) -> (r: bool)
        requires
            self.wf(),
        ensures
            r == self.blocked(x as int, y as int),
    {
        if x < self.width && y < self.height {
            proof {
                lemma_row_index(self.width as int, self.height as int, x as int, y as int);
            }
            self.cells[y * self.width + x] == CellType::Obstacle
        } else {
            true
        }
    }

    /// Resets every tile to empty.
    pub fn clear(&mut self)
        requires
            old(self).wf(),
        ensures
            final(self).wf(),
            final(self).width == old(self).width,
            final(self).height == old(self).height,
            forall|x: int, y: int|
                in_bounds(old(self).width as int, old(self).height as int, x, y) ==> #[trigger] final(self).cell(x, y) == CellType::Empty,
    {
        let n = self.cells.len();
        self.cells = vec![CellType::Empty; n];
        proof {
            assert forall|x: int, y: int|
                in_bounds(self.width as int, self.height as int, x, y) implies #[trigger] self.cell(x, y) == CellType::Empty by {
                lemma_row_index(self.width as int, self.height as int, x, y);
            }
        }
    }
}

impl Grid {
    /// The sampled coordinates `(x, y)` as a cell, when they lie on the grid
    /// and the tile there is open.
    pub fn pick_open_cell(&self, x: u64, y: u64) -> (r: Option<Pos>)
        requires
            self.wf(),
        ensures
            r is Some <==> (x < self.width && y < self.height && !self.blocked(x as int, y as int)),
            r matches Some(p) ==> p.0 == x && p.1 == y,
    {
        if x < self.width as u64 && y < self.height as u64 {
            let (cx, cy) = (x as usize, y as usize);
            if !self.is_obstacle(cx, cy) {
                return Some((cx, cy));
            }
        }
        None
    }

    /// The first of `draws` that names an open cell of the grid, if any.
    pub fn first_open_draw(&self, draws: &Vec<(u64, u64)>) -> (r: Option<Pos>)
        requires
            self.wf(),
        ensures
            r == first_open(self, draws@),
    {
        let mut i: usize = 0;
        assert(draws@.skip(0) =~= draws@);
        while i < draws.len()
            invariant
                self.wf(),
                i <= draws@.len(),
                first_open(self, draws@) == first_open(self, draws@.skip(i as int)),
            decreases draws@.len() - i,
        {
            assert(draws@.skip(i as int).drop_first() =~= draws@.skip(i + 1));
            assert(draws@.skip(i as int)[0] == draws@[i as int]);
            let (x, y) = draws[i];
            let found = self.pick_open_cell(x, y);
            if found.is_some() {
                return found;
            }
            i += 1;
        }
        None
    }

    /// Draws `width * height` random coordinates and returns the first that is
    /// an open cell; `None` when every draw hit a blocked tile.
    pub fn get_random_empty_cell(&self) -> (r: Option<Pos>)
        requires
            self.wf(),
        ensures
            exists|d: Seq<(u64, u64)>|
                d.len() == self.width * self.height && r == first_open(self, d) && ((self.width
                    <= EXACT_RANGE && self.height <= EXACT_RANGE) ==> forall|k: int|
                    0 <= k < d.len() ==> #[trigger] d[k].0 < self.width && d[k].1 < self.height),
            r matches Some(p) ==> !self.blocked(p.0 as int, p.1 as int),
            self.width * self.height == 0 ==> r is None,
    {
        let max_attempts = self.width * self.height;
        let mut draws: Vec<(u64, u64)> = Vec::new();
        let mut attempts: usize = 0;
        while attempts < max_attempts
            invariant
                self.wf(),
                max_attempts == self.width * self.height,
                attempts <= max_attempts,
                draws@.len() == attempts,
                (self.width <= EXACT_RANGE && self.height <= EXACT_RANGE) ==> forall|k: int|
                    0 <= k < draws@.len() ==> #[trigger] draws@[k].0 < self.width && draws@[k].1 < self.height,
            decreases max_attempts - attempts,
        {
            let x = random_range(0, self.width as u64);
            let y = random_range(0, self.height as u64);
            proof {
                assert(self.width > 0 && self.height > 0) by (nonlinear_arith)
                    requires
                        attempts < max_attempts,
                        max_attempts == self.width * self.height,
                ;
            }
            draws.push((x, y));
            attempts += 1;
        }
        let r = self.first_open_draw(&draws);
        proof {
            lemma_first_open_is_open(self, draws@);
        }
        r
    }
}

/// The first draw that names an open cell of `grid`.
pub open spec fn first_open(grid: &Grid, draws: Seq<(u64, u64)>) -> Option<Pos>
    decreases draws.len(),
{
    if draws.len() == 0 {
        None
    } else if draws[0].0 < grid.width && draws[0].1 < grid.height && !grid.blocked(
        draws[0].0 as int,
        draws[0].1 as int,
    ) {
        Some((draws[0].0 as usize, draws[0].1 as usize))
    } else {
        first_open(grid, draws.drop_first())
    }
}

/// What `first_open` returns is an open cell.
pub proof fn lemma_first_open_is_open(grid: &Grid, draws: Seq<(u64, u64)>)
    ensures
        first_open(grid, draws) matches Some(p) ==> !grid.blocked(p.0 as int, p.1 as int),
    decreases draws.len(),
{
    if draws.len() > 0 {
        lemma_first_open_is_open(grid, draws.drop_first());
    }
}

/// Draws above this bound never fall below a density.
pub const DENSITY_SCALE: u64 = 1000;

impl Grid {
    /// Makes tile `(x, y)` an obstacle when `draws[y * width + x]` falls below
    /// `density`; other tiles are left as they were.
    pub fn apply_density(&mut self, draws: &Vec<u64>, density: u64)
        requires
            old(self).wf(),
            draws@.len() == old(self).width * old(self).height,
        ensures
            final(self).wf(),
            final(self).width == old(self).width,
            final(self).height == old(self).height,
            forall|x: int, y: int|
                #![trigger final(self).cell(x, y)]
                in_bounds(old(self).width as int, old(self).height as int, x, y) ==> final(self).cell(x, y)
                    == if draws@[y * old(self).width + x] < density {
                    CellType::Obstacle
                } else {
                    old(self).cell(x, y)
                },
    {
        let n = self.cells.len();
        let mut k: usize = 0;
        while k < n
            invariant
                n == self.cells@.len(),
                self.width == old(self).width,
                self.height == old(self).height,
                old(self).wf(),
                self.cells@.len() == old(self).cells@.len(),
                draws@.len() == n,
                k <= n,
                forall|j: int| 0 <= j < k ==> #[trigger] self.cells@[j] == if draws@[j] < density {
                    CellType::Obstacle
                } else {
                    old(self).cells@[j]
                },
                forall|j: int| k <= j < n ==> #[trigger] self.cells@[j] == old(self).cells@[j],
            decreases n - k,
        {
            if draws[k] < density {
                self.cells.set(k, CellType::Obstacle);
            }
            k += 1;
        }
        proof {
            assert forall|x: int, y: int|
                #![trigger self.cell(x, y)]
                in_bounds(self.width as int, self.height as int, x, y) implies self.cell(x, y) == if draws@[y
                    * self.width + x] < density {
                    CellType::Obstacle
                } else {
                    old(self).cell(x, y)
                } by {
                lemma_row_index(self.width as int, self.height as int, x, y);
            }
        }
    }

    /// Makes each tile an obstacle when a draw in `[0, DENSITY_SCALE]` falls below
    /// `density` (in thousandths); other tiles are left as they were.
    pub fn populate_obstacles(&mut self, density: u64)
        requires
            old(self).wf(),
        ensures
            final(self).wf(),
            final(self).width == old(self).width,
            final(self).height == old(self).height,
            exists|d: Seq<u64>|
                d.len() == old(self).width * old(self).height && (forall|i: int|
                    0 <= i < d.len() ==> #[trigger] d[i] <= DENSITY_SCALE) && forall|x: int, y: int|
                    #![trigger final(self).cell(x, y)]
                    in_bounds(old(self).width as int, old(self).height as int, x, y) ==> final(self).cell(
                        x,
                        y,
                    ) == if d[y * old(self).width + x] < density {
                        CellType::Obstacle
                    } else {
                        old(self).cell(x, y)
                    },
            forall|x: int, y: int|
                #![trigger final(self).cell(x, y)]
                in_bounds(old(self).width as int, old(self).height as int, x, y) ==> {
                    &&& old(self).cell(x, y) == CellType::Obstacle ==> final(self).cell(x, y)
                        == CellType::Obstacle
                    &&& density == 0 ==> final(self).cell(x, y) == old(self).cell(x, y)
                    &&& density > DENSITY_SCALE ==> final(self).cell(x, y) == CellType::Obstacle
                },
    {
        let n = self.cells.len();
        let mut draws: Vec<u64> = Vec::new();
        let mut k: usize = 0;
        while k < n
            invariant
                k <= n,
                draws@.len() == k,
                forall|i: int| 0 <= i < k ==> #[trigger] draws@[i] <= DENSITY_SCALE,
            decreases n - k,
        {
            draws.push(random_range(0, DENSITY_SCALE));
            k += 1;
        }
        self.apply_density(&draws, density);
        proof {
            let w = self.width as int;
            assert forall|x: int, y: int|
                #![trigger self.cell(x, y)]
                in_bounds(w, self.height as int, x, y) implies {
                    &&& old(self).cell(x, y) == CellType::Obstacle ==> self.cell(x, y) == CellType::Obstacle
                    &&& density == 0 ==> self.cell(x, y) == old(self).cell(x, y)
                    &&& density > DENSITY_SCALE ==> self.cell(x, y) == CellType::Obstacle
                } by {
                lemma_row_index(w, self.height as int, x, y);
                assert(draws@[y * w + x] <= DENSITY_SCALE);
            }
        }
    }
}

/// The pairs of samples in which both a start and a goal were found, in order.
pub open spec fn found_pairs(samples: Seq<(Option<Pos>, Option<Pos>)>) -> Seq<(Pos, Pos)>
    decreases samples.len(),
{
    if samples.len() == 0 {
        Seq::empty()
    } else {
        let prev = found_pairs(samples.drop_last());
        match samples.last() {
            (Some(s), Some(e)) => prev.push((s, e)),
            _ => prev,
        }
    }
}

/// Keeps the samples in which both cells were found, in order.
pub fn tasks_from_samples(samples: &Vec<(Option<Pos>, Option<Pos>)>) -> (r: Vec<(Pos, Pos)>)
    ensures
        r@ == found_pairs(samples@),
{
    let mut tasks: Vec<(Pos, Pos)> = Vec::new();
    let mut k: usize = 0;
    while k < samples.len()
        invariant
            k <= samples@.len(),
            tasks@ == found_pairs(samples@.take(k as int)),
        decreases samples@.len() - k,
    {
        assert(samples@.take(k + 1).drop_last() =~= samples@.take(k as int));
        match samples[k] {
            (Some(s), Some(e)) => tasks.push((s, e)),
            _ => {},
        }
        k += 1;
    }
    assert(samples@.take(samples@.len() as int) =~= samples@);
    tasks
}

/// Samples a start and a goal `n` times; each attempt that found both cells
/// adds that pair, in order.
pub fn generate_agent_tasks(grid: &Grid, n: usize) -> (r: Vec<(Pos, Pos)>)
    requires
        grid.wf(),
    ensures
        exists|samples: Seq<(Option<Pos>, Option<Pos>)>|
            samples.len() == n && r@ == found_pairs(samples) && forall|k: int|
                0 <= k < samples.len() ==> (#[trigger] samples[k].0 matches Some(p) ==> !grid.blocked(
                    p.0 as int,
                    p.1 as int,
                )) && (samples[k].1 matches Some(p) ==> !grid.blocked(p.0 as int, p.1 as int)),
{
    let mut samples: Vec<(Option<Pos>, Option<Pos>)> = Vec::new();
    let mut k: usize = 0;
    while k < n
        invariant
            grid.wf(),
            k <= n,
            samples@.len() == k,
            forall|i: int|
                0 <= i < samples@.len() ==> (#[trigger] samples@[i].0 matches Some(p) ==> !grid.blocked(
                    p.0 as int,
                    p.1 as int,
                )) && (samples@[i].1 matches Some(p) ==> !grid.blocked(p.0 as int, p.1 as int)),
        decreases n - k,
    {
        let start = grid.get_random_empty_cell();
        let end = grid.get_random_empty_cell();
        samples.push((start, end));
        k += 1;
    }
    tasks_from_samples(&samples)
}

/// Two in-bounds coordinates with the same row-major index are equal.
pub proof fn lemma_same_index(w: int, i: int, j: int, x: int, y: int)
    requires
        0 <= i < w,
        0 <= x < w,
        0 <= j,
        0 <= y,
        j * w + i == y * w + x,
    ensures
        i == x && j == y,
{
    if j < y {
        assert(j * w + w <= y * w) by (nonlinear_arith)
            requires
                j < y,
                0 <= w,
        ;
    } else if j > y {
        assert(y * w + w <= j * w) by (nonlinear_arith)
            requires
                y < j,
                0 <= w,
        ;
    }
}

} // verus!
