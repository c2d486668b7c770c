use vstd::prelude::*;
use crate::grid::{Pos, lemma_row_index, lemma_same_index};

verus! {

// Intensities are kept in thousandths of a unit and time in milliseconds.

/// Evaporation per millisecond (5 units per second).
pub const DECAY_RATE: u64 = 5;

/// Deposit per millisecond by an agent on its cell (100 units per second).
pub const AGENT_EMISSION: u64 = 100;

/// Above this a cell counts as occupied (0.5 units).
pub const DANGER_THRESHOLD: u64 = 500;

/// Ceiling of any cell (10 units).
pub const MAX_INTENSITY: u64 = 10000;

/// A cell after `dt` milliseconds of evaporation.
pub open spec fn decayed(c: int, dt: int) -> int {
    if c - DECAY_RATE * dt > 0 {
        c - DECAY_RATE * dt
    } else {
        0
    }
}

/// A cell after `dt` milliseconds of deposit.
pub open spec fn deposited(c: int, dt: int) -> int {
    if c + AGENT_EMISSION * dt < MAX_INTENSITY {
        c + AGENT_EMISSION * dt
    } else {
        MAX_INTENSITY as int
    }
}

/// A cell after evaporation steps of the given durations, in order.
pub open spec fn decayed_all(c: int, dts: Seq<int>) -> int
    decreases dts.len(),
{
    if dts.len() == 0 {
        c
    } else {
        decayed(decayed_all(c, dts.drop_last()), dts.last())
    }
}

/// Total of a sequence of durations.
pub open spec fn total(dts: Seq<int>) -> int
    decreases dts.len(),
{
    if dts.len() == 0 {
        0
    } else {
        total(dts.drop_last()) + dts.last()
    }
}

/// A field of decaying intensities, one per cell of a `width` x `height` map.
pub struct PheromoneManager {
    width: usize,
    height: usize,
    cells: Vec<u64>,
}

impl PheromoneManager {
    pub closed spec fn width_spec(&self) -> usize {
        self.width
    }

    pub closed spec fn height_spec(&self) -> usize {
        self.height
    }

    /// The intensity at an in-bounds cell.
    pub closed spec fn level(&self, x: int, y: int) -> int {
        self.cells@[y * self.width + x] as int
    }

    /// One intensity per cell, each in `[0, MAX_INTENSITY]`.
    pub closed spec fn wf(&self) -> bool {
        &&& self.cells@.len() == self.width * self.height
        &&& self.width * self.height <= usize::MAX
        &&& forall|i: int| 0 <= i < self.cells@.len() ==> #[trigger] self.cells@[i] <= MAX_INTENSITY
    }

    pub proof fn lemma_bounded(&self, x: int, y: int)
        requires
            self.wf(),
            0 <= x < self.width_spec(),
            0 <= y < self.height_spec(),
        ensures
            0 <= self.level(x, y) <= MAX_INTENSITY,
    {
        lemma_row_index(self.width as int, self.height as int, x, y);
    }

    /// An empty field.
    pub fn instance() -> (r: PheromoneManager)
        ensures
            r.wf(),
            r.width_spec() == 0,
            r.height_spec() == 0,
    {
        PheromoneManager { width: 0, height: 0, cells: Vec::new() }
    }

    /// Resizes the field to `width` x `height`, every cell at zero.
    pub fn init(&mut self, width: usize, height: usize)
        requires
            width * height <= usize::MAX,
        ensures
            final(self).wf(),
            final(self).width_spec() == width,
            final(self).height_spec() == height,
            forall|x: int, y: int|
                0 <= x < width && 0 <= y < height ==> #[trigger] final(self).level(x, y) == 0,
    {
        self.width = width;
        self.height = height;
        self.cells = vec![0u64; width * height];
        proof {
            assert forall|x: int, y: int| 0 <= x < width && 0 <= y < height implies #[trigger] self.level(x, y) == 0 by {
                lemma_row_index(width as int, height as int, x, y);
            }
        }
    }

    /// An agent on cell `(gx, gy)` deposits for `dt_ms` milliseconds; the cell
    /// is capped at `MAX_INTENSITY`. A cell outside the field is ignored.
    pub fn deposit(&mut self, gx: usize, gy: usize, dt_ms: u64)
        requires
            old(self).wf(),
        ensures
            final(self).wf(),
            final(self).width_spec() == old(self).width_spec(),
            final(self).height_spec() == old(self).height_spec(),
            forall|x: int, y: int|
                0 <= x < old(self).width_spec() && 0 <= y < old(self).height_spec() ==> #[trigger] final(self).level(x, y) == if x == gx && y == gy {
                    deposited(old(self).level(x, y), dt_ms as int)
                } else {
                    old(self).level(x, y)
                },
    {
        if gx < self.width && gy < self.height {
            proof {
                lemma_row_index(self.width as int, self.height as int, gx as int, gy as int);
            }
            let k = gy * self.width + gx;
            let c = self.cells[k];
            let v = if dt_ms >= MAX_INTENSITY / AGENT_EMISSION {
                MAX_INTENSITY
            } else if c + AGENT_EMISSION * dt_ms < MAX_INTENSITY {
                c + AGENT_EMISSION * dt_ms
            } else {
                MAX_INTENSITY
            };
            self.cells.set(k, v);
            proof {
                let w = self.width as int;
                assert forall|x: int, y: int|
                    0 <= x < w && 0 <= y < self.height implies #[trigger] self.level(x, y) == if x
                        == gx && y == gy {
                        deposited(old(self).level(x, y), dt_ms as int)
                    } else {
                        old(self).level(x, y)
                    } by {
                    lemma_row_index(w, self.height as int, x, y);
                    if y * w + x == k {
                        lemma_same_index(w, x, y, gx as int, gy as int);
                    }
                }
            }
        }
    }

    /// Whether cell `(gx, gy)` holds more than `DANGER_THRESHOLD`; a cell
    /// outside the field is not blocked.
    pub fn is_blocked(&self, gx: usize, gy: usize) -> (r: bool)
        requires
            self.wf(),
        ensures
            r == (gx < self.width_spec() && gy < self.height_spec() && self.level(gx as int, gy as int)
                > DANGER_THRESHOLD),
    {
        if gx < self.width && gy < self.height {
            proof {
                lemma_row_index(self.width as int, self.height as int, gx as int, gy as int);
            }
            self.cells[gy * self.width + gx] > DANGER_THRESHOLD
        } else {
            false
        }
    }

    /// Whether a move from cell `from` into cell `to` is held back: the target
    /// is another cell and is blocked. An agent never blocks itself.
    pub fn blocks_move(&self, from: Pos, to: Pos) -> (r: bool)
        requires
            self.wf(),
        ensures
            r == ((from.0 != to.0 || from.1 != to.1) && to.0 < self.width_spec() && to.1
                < self.height_spec() && self.level(to.0 as int, to.1 as int) > DANGER_THRESHOLD),
    {
        if from.0 == to.0 && from.1 == to.1 {
            false
        } else {
            self.is_blocked(to.0, to.1)
        }
    }

    /// Evaporation over `dt_ms` milliseconds, on every cell.
    pub fn update(&mut self, dt_ms: u64)
        requires
            old(self).wf(),
        ensures
            final(self).wf(),
            final(self).width_spec() == old(self).width_spec(),
            final(self).height_spec() == old(self).height_spec(),
            forall|x: int, y: int|
                0 <= x < old(self).width_spec() && 0 <= y < old(self).height_spec() ==> #[trigger] final(self).level(x, y) == decayed(old(self).level(x, y), dt_ms as int),
    {
        let n = self.cells.len();
        let mut i: usize = 0;
        while i < n
            invariant
                n == self.cells@.len(),
                self.width == old(self).width,
                self.height == old(self).height,
                self.cells@.len() == old(self).cells@.len(),
                old(self).wf(),
                i <= n,
                forall|j: int| 0 <= j < i ==> #[trigger] self.cells@[j] == decayed(
                    old(self).cells@[j] as int,
                    dt_ms as int,
                ),
                forall|j: int| i <= j < n ==> #[trigger] self.cells@[j] == old(self).cells@[j],
            decreases n - i,
        {
            let c = self.cells[i];
            let v = if dt_ms >= MAX_INTENSITY / DECAY_RATE {
                0
            } else if c > DECAY_RATE * dt_ms {
                c - DECAY_RATE * dt_ms
            } else {
                0
            };
            proof {
                assert(old(self).cells@[i as int] <= MAX_INTENSITY);
            }
            self.cells.set(i, v);
            i += 1;
        }
        proof {
            assert forall|x: int, y: int|
                0 <= x < self.width && 0 <= y < self.height implies #[trigger] self.level(x, y)
                    == decayed(old(self).level(x, y), dt_ms as int) by {
                lemma_row_index(self.width as int, self.height as int, x, y);
            }
        }
    }

    /// A copy of all intensities, row by row.
    pub fn get_grid_snapshot(&self) -> (r: Vec<u64>)
        requires
            self.wf(),
        ensures
            r@ == self.snapshot_spec(),
            r@.len() == self.width_spec() * self.height_spec(),
            forall|x: int, y: int|
                0 <= x < self.width_spec() && 0 <= y < self.height_spec() ==> #[trigger] self.level(x, y)
                    == r@[y * self.width_spec() + x] as int,
    {
        let mut r: Vec<u64> = Vec::new();
        let mut i: usize = 0;
        while i < self.cells.len()
            invariant
                i <= self.cells@.len(),
                r@ == self.cells@.take(i as int),
            decreases self.cells@.len() - i,
        {
            r.push(self.cells[i]);
            i += 1;
            assert(r@ =~= self.cells@.take(i as int));
        }
        assert(self.cells@.take(self.cells@.len() as int) =~= self.cells@);
        r
    }

    /// The intensities as laid out by `get_grid_snapshot`.
    pub closed spec fn snapshot_spec(&self) -> Seq<u64> {
        self.cells@
    }

    /// Sets every cell to zero.
    pub fn clear(&mut self)
        requires
            old(self).wf(),
        ensures
            final(self).wf(),
            final(self).width_spec() == old(self).width_spec(),
            final(self).height_spec() == old(self).height_spec(),
            forall|x: int, y: int|
                0 <= x < old(self).width_spec() && 0 <= y < old(self).height_spec() ==> #[trigger] final(self).level(x, y) == 0,
    {
        let n = self.cells.len();
        self.cells = vec![0u64; n];
        proof {
            assert forall|x: int, y: int|
                0 <= x < self.width && 0 <= y < self.height implies #[trigger] self.level(x, y) == 0 by {
                lemma_row_index(self.width as int, self.height as int, x, y);
            }
        }
    }
}

/// Without deposits, a cell that started at `c` holds, after evaporation steps
/// lasting `T` milliseconds in all, exactly `max(0, c - DECAY_RATE * T)`; in
/// particular it stays within `[0, c]`.
pub proof fn lemma_decay_bound(c: int, dts: Seq<int>)
    requires
        c >= 0,
        forall|i: int| 0 <= i < dts.len() ==> #[trigger] dts[i] >= 0,
    ensures
        decayed_all(c, dts) == if c - DECAY_RATE * total(dts) > 0 {
            c - DECAY_RATE * total(dts)
        } else {
            0
        },
        0 <= decayed_all(c, dts) <= c,
    decreases dts.len(),
{
    if dts.len() > 0 {
        let init = dts.drop_last();
        assert forall|i: int| 0 <= i < init.len() implies #[trigger] init[i] >= 0 by {
            assert(init[i] == dts[i]);
        }
        lemma_decay_bound(c, init);
        assert(dts.last() >= 0);
        assert(DECAY_RATE * total(dts) == DECAY_RATE * total(init) + DECAY_RATE * dts.last()) by (nonlinear_arith)
            requires
                total(dts) == total(init) + dts.last(),
        ;
    }
}

/// Deposits and evaporation keep a cell within `[0, MAX_INTENSITY]`.
pub proof fn lemma_levels_bounded(c: int, dt: int)
    requires
        0 <= c <= MAX_INTENSITY,
        dt >= 0,
    ensures
        0 <= deposited(c, dt) <= MAX_INTENSITY,
        0 <= decayed(c, dt) <= MAX_INTENSITY,
{
}

} // verus!
