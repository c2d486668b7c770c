use vstd::prelude::*;
use crate::grid::{CellType, Grid, Pos};
use crate::topology::{
    GridAdapter,
    HexagonalAdapter,
    RectangularCardinalAdapter,
    RectangularDiagonalAdapter,
};
use crate::pathfinding::{a_star_with_adapter, is_route, reachable, route_view, search_fits, search_outcome};
use crate::path_cache::{PathKey, PathManager, PathStats, opt_view};

verus! {

/// Which neighbourhood the planner uses.
#[derive(Clone, Copy, Debug, PartialEq, Eq, Structural)]
pub enum TopologyTag {
    /// North, south, west, east.
    Cardinal4,
    /// The four cardinal moves and the four diagonals.
    Cardinal8,
    /// Flat-top hexagons, rows offset.
    Hex,
}

/// `p` is a route from `start` to `goal` on `grid` under topology `tag`.
pub open spec fn route_under(grid: &Grid, tag: TopologyTag, p: Seq<Pos>, start: Pos, goal: Pos) -> bool {
    match tag {
        TopologyTag::Cardinal4 => is_route(&RectangularCardinalAdapter::new_spec(grid), p, start, goal),
        TopologyTag::Cardinal8 => is_route(&RectangularDiagonalAdapter::new_spec(grid), p, start, goal),
        TopologyTag::Hex => is_route(&HexagonalAdapter::new_spec(grid, true), p, start, goal),
    }
}

/// What the planner returns for `start` and `goal` on `grid` under topology `tag`.
pub open spec fn planned(grid: &Grid, tag: TopologyTag, start: Pos, goal: Pos) -> Option<Seq<Pos>> {
    match tag {
        TopologyTag::Cardinal4 => search_outcome(&RectangularCardinalAdapter::new_spec(grid), start, goal),
        TopologyTag::Cardinal8 => search_outcome(&RectangularDiagonalAdapter::new_spec(grid), start, goal),
        TopologyTag::Hex => search_outcome(&HexagonalAdapter::new_spec(grid, true), start, goal),
    }
}

/// Some route leads from `start` to `goal` on `grid` under topology `tag`.
pub open spec fn reachable_under(grid: &Grid, tag: TopologyTag, start: Pos, goal: Pos) -> bool {
    match tag {
        TopologyTag::Cardinal4 => reachable(&RectangularCardinalAdapter::new_spec(grid), start, goal),
        TopologyTag::Cardinal8 => reachable(&RectangularDiagonalAdapter::new_spec(grid), start, goal),
        TopologyTag::Hex => reachable(&HexagonalAdapter::new_spec(grid, true), start, goal),
    }
}

/// Why no route was handed out.
#[derive(Clone, Copy, Debug, PartialEq, Eq, Structural)]
pub enum SpawnError {
    /// The start or the goal is off the map or blocked.
    InvalidMap,
    /// Both ends are open but no route joins them.
    NoPath,
}

/// The map, the active topology and the path cache that belongs to them.
pub struct World {
    grid: Grid,
    topology: TopologyTag,
    cache: PathManager,
}

impl World {
    pub closed spec fn grid_spec(&self) -> Grid {
        self.grid
    }

    pub closed spec fn topology_spec(&self) -> TopologyTag {
        self.topology
    }

    /// The stored paths.
    pub closed spec fn cached(&self) -> Map<PathKey, Seq<Pos>> {
        self.cache@
    }

    pub closed spec fn stats_spec(&self) -> PathStats {
        self.cache.stats_spec()
    }

    /// The map is well formed, its costs fit, and every stored path is a route
    /// between its key's cells on the current map and topology.
    pub closed spec fn wf(&self) -> bool {
        &&& self.grid.wf()
        &&& search_fits((self.grid.width, self.grid.height))
        &&& forall|k: PathKey| #[trigger]
            self.cache@.contains_key(k) ==> route_under(&self.grid, self.topology, self.cache@[k], k.0, k.1)
                && planned(&self.grid, self.topology, k.0, k.1) == Some(self.cache@[k])
    }

    /// An empty map of `width` x `height` tiles with an empty cache.
    pub fn new_world(width: usize, height: usize, topology: TopologyTag) -> (r: World)
        requires
            search_fits((width, height)),
        ensures
            r.wf(),
            r.grid_spec().width == width,
            r.grid_spec().height == height,
            forall|x: int, y: int|
                0 <= x < width && 0 <= y < height ==> !#[trigger] r.grid_spec().blocked(x, y),
            r.topology_spec() == topology,
            r.cached() == Map::<PathKey, Seq<Pos>>::empty(),
    {
        proof {
            assert(width * height <= usize::MAX) by (nonlinear_arith)
                requires
                    search_fits((width, height)),
            ;
        }
        let grid = Grid::new(width, height);
        World { grid, topology, cache: PathManager::instance() }
    }

    /// The map.
    pub fn grid(&self) -> (r: &Grid)
        ensures
            *r == self.grid_spec(),
    {
        &self.grid
    }

    /// The active topology.
    pub fn topology(&self) -> (r: TopologyTag)
        ensures
            r == self.topology_spec(),
    {
        self.topology
    }

    /// The cache's counters.
    pub fn stats(&self) -> (r: PathStats)
        ensures
            r == self.stats_spec(),
    {
        self.cache.get_stats()
    }

    /// Writes one tile and empties the path cache.
    pub fn set_cell(&mut self, x: usize, y: usize, cell: CellType)
        requires
            old(self).wf(),
        ensures
            final(self).wf(),
            final(self).grid_spec().width == old(self).grid_spec().width,
            final(self).grid_spec().height == old(self).grid_spec().height,
            forall|i: int, j: int|
                #![trigger final(self).grid_spec().blocked(i, j)]
                (i != x || j != y) ==> final(self).grid_spec().blocked(i, j) == old(self).grid_spec().blocked(i, j),
            x < old(self).grid_spec().width && y < old(self).grid_spec().height ==> final(self).grid_spec().blocked(
                x as int,
                y as int,
            ) == (cell == CellType::Obstacle),
            final(self).topology_spec() == old(self).topology_spec(),
            final(self).cached() == Map::<PathKey, Seq<Pos>>::empty(),
    {
        self.grid.set_cell(x, y, cell);
        self.cache.clear_cache();
    }

    /// Switches the topology and empties the path cache.
    pub fn set_topology(&mut self, topology: TopologyTag)
        requires
            old(self).wf(),
        ensures
            final(self).wf(),
            final(self).grid_spec() == old(self).grid_spec(),
            final(self).topology_spec() == topology,
            final(self).cached() == Map::<PathKey, Seq<Pos>>::empty(),
    {
        self.topology = topology;
        self.cache.clear_cache();
    }

    /// Resets every tile to empty and empties the path cache.
    pub fn clear_map(&mut self)
        requires
            old(self).wf(),
        ensures
            final(self).wf(),
            final(self).grid_spec().width == old(self).grid_spec().width,
            final(self).grid_spec().height == old(self).grid_spec().height,
            forall|x: int, y: int|
                0 <= x < old(self).grid_spec().width && 0 <= y < old(self).grid_spec().height
                    ==> !#[trigger] final(self).grid_spec().blocked(x, y),
            final(self).topology_spec() == old(self).topology_spec(),
            final(self).cached() == Map::<PathKey, Seq<Pos>>::empty(),
    {
        self.grid.clear();
        self.cache.clear_cache();
    }

    /// Empties the path cache.
    pub fn clear_cache(&mut self)
        requires
            old(self).wf(),
        ensures
            final(self).wf(),
            final(self).grid_spec() == old(self).grid_spec(),
            final(self).topology_spec() == old(self).topology_spec(),
            final(self).cached() == Map::<PathKey, Seq<Pos>>::empty(),
    {
        self.cache.clear_cache();
    }

    /// A route from `start` to `goal` under the active topology, from the cache
    /// when one is stored there, else planned and stored. `None` when no route
    /// exists.
    pub fn find_path(&mut self, start: Pos, goal: Pos) -> (r: Option<Vec<Pos>>)
        requires
            old(self).wf(),
        ensures
            final(self).wf(),
            final(self).grid_spec() == old(self).grid_spec(),
            final(self).topology_spec() == old(self).topology_spec(),
            r matches Some(p) ==> route_under(&final(self).grid_spec(), final(self).topology_spec(), p@, start, goal),
            r is Some <==> reachable_under(&old(self).grid_spec(), old(self).topology_spec(), start, goal),
            old(self).cached().contains_key((start, goal)) ==> opt_view(r) == Some(old(self).cached()[(start, goal)])
                && final(self).cached() == old(self).cached(),
            !old(self).cached().contains_key((start, goal)) ==> final(self).cached() == match r {
                Some(p) => old(self).cached().insert((start, goal), p@),
                None => old(self).cached(),
            },
            route_view(r) == planned(&old(self).grid_spec(), old(self).topology_spec(), start, goal),
    {
        let grid = &self.grid;
        let topology = self.topology;
        let calculator = move || -> (r: Option<Vec<Pos>>)
            requires
                grid.wf(),
                search_fits((grid.width, grid.height)),
            ensures
                r matches Some(p) ==> route_under(grid, topology, p@, start, goal),
                r is Some <==> reachable_under(grid, topology, start, goal),
                route_view(r) == planned(grid, topology, start, goal),
            {
                match topology {
                    TopologyTag::Cardinal4 => {
                        let a = RectangularCardinalAdapter::new(grid);
                        proof {
                            RectangularCardinalAdapter::lemma_new_spec(grid);
                        }
                        a_star_with_adapter(&a, start, goal)
                    },
                    TopologyTag::Cardinal8 => {
                        let a = RectangularDiagonalAdapter::new(grid);
                        proof {
                            RectangularDiagonalAdapter::lemma_new_spec(grid);
                        }
                        a_star_with_adapter(&a, start, goal)
                    },
                    TopologyTag::Hex => {
                        let a = HexagonalAdapter::new(grid, true);
                        proof {
                            HexagonalAdapter::lemma_new_spec(grid, true);
                        }
                        a_star_with_adapter(&a, start, goal)
                    },
                }
            };
        let r = self.cache.get_or_calculate(start, goal, calculator);
        proof {
            let key = (start, goal);
            if old(self).cache@.contains_key(key) {
                assert(route_under(&self.grid, self.topology, old(self).cache@[key], start, goal));
                assert(reachable_under(&self.grid, self.topology, start, goal)) by {
                    let p = old(self).cache@[key];
                    match self.topology {
                        TopologyTag::Cardinal4 => {
                            assert(is_route(&RectangularCardinalAdapter::new_spec(&self.grid), p, start, goal));
                        },
                        TopologyTag::Cardinal8 => {
                            assert(is_route(&RectangularDiagonalAdapter::new_spec(&self.grid), p, start, goal));
                        },
                        TopologyTag::Hex => {
                            assert(is_route(&HexagonalAdapter::new_spec(&self.grid, true), p, start, goal));
                        },
                    }
                }
            }
        }
        r
    }
}

impl World {
    /// The route for a new agent from `start` to `goal`, through the cache.
    pub fn plan_route(&mut self, start: Pos, goal: Pos) -> (r: Result<Vec<Pos>, SpawnError>)
        requires
            old(self).wf(),
        ensures
            final(self).wf(),
            final(self).grid_spec() == old(self).grid_spec(),
            final(self).topology_spec() == old(self).topology_spec(),
            r matches Ok(p) ==> route_under(&final(self).grid_spec(), final(self).topology_spec(), p@, start, goal),
            r == Err::<Vec<Pos>, SpawnError>(SpawnError::InvalidMap) <==> (old(self).grid_spec().blocked(
                start.0 as int,
                start.1 as int,
            ) || old(self).grid_spec().blocked(goal.0 as int, goal.1 as int)),
            r == Err::<Vec<Pos>, SpawnError>(SpawnError::NoPath) <==> (!old(self).grid_spec().blocked(
                start.0 as int,
                start.1 as int,
            ) && !old(self).grid_spec().blocked(goal.0 as int, goal.1 as int) && !reachable_under(
                &old(self).grid_spec(),
                old(self).topology_spec(),
                start,
                goal,
            )),
    {
        if self.grid.is_obstacle(start.0, start.1) || self.grid.is_obstacle(goal.0, goal.1) {
            return Err(SpawnError::InvalidMap);
        }
        match self.find_path(start, goal) {
            Some(p) => Ok(p),
            None => Err(SpawnError::NoPath),
        }
    }
}

/// The start and goal cells of two opposing lanes per row: on every row `y`,
/// agent `k < rows_width` goes from column `k` to column `width - 1 - k`, then
/// agent `k` of the other lane goes the opposite way. Rows in order.
pub open spec fn lane_task(width: usize, rows_width: usize, i: int) -> (Pos, Pos) {
    let per_row = 2 * rows_width;
    let y = i / per_row;
    let j = i % per_row;
    if j < rows_width {
        ((j as usize, y as usize), ((width - 1 - j) as usize, y as usize))
    } else {
        (((width - 1 - (j - rows_width)) as usize, y as usize), ((j - rows_width) as usize, y as usize))
    }
}

/// The (start, goal) pairs of the opposing-lanes scenario, `2 * rows_width` per row.
pub fn lane_tasks(width: usize, height: usize, rows_width: usize) -> (r: Vec<(Pos, Pos)>)
    requires
        rows_width <= width,
        2 * rows_width * height <= usize::MAX,
    ensures
        r@.len() == 2 * rows_width * height,
        forall|i: int| 0 <= i < r@.len() ==> #[trigger] r@[i] == lane_task(width, rows_width, i),
{
    let mut r: Vec<(Pos, Pos)> = Vec::new();
    if height == 0 {
        return r;
    }
    proof {
        assert(2 * rows_width <= 2 * rows_width * height) by (nonlinear_arith)
            requires
                height >= 1,
        ;
    }
    let per_row = 2 * rows_width;
    let mut y: usize = 0;
    while y < height
        invariant
            rows_width <= width,
            per_row == 2 * rows_width,
            2 * rows_width * height <= usize::MAX,
            y <= height,
            r@.len() == per_row * y,
            forall|i: int| 0 <= i < r@.len() ==> #[trigger] r@[i] == lane_task(width, rows_width, i),
        decreases height - y,
    {
        proof {
            assert(per_row * y + per_row <= per_row * height) by (nonlinear_arith)
                requires
                    y < height,
                    per_row >= 0,
            ;
        }
        let mut k: usize = 0;
        while k < per_row
            invariant
                rows_width <= width,
                per_row == 2 * rows_width,
                y < height,
                k <= per_row,
                per_row * y + per_row <= per_row * height,
                r@.len() == per_row * y + k,
                forall|i: int| 0 <= i < r@.len() ==> #[trigger] r@[i] == lane_task(width, rows_width, i),
            decreases per_row - k,
        {
            let task = if k < rows_width {
                ((k, y), (width - 1 - k, y))
            } else {
                ((width - 1 - (k - rows_width), y), (k - rows_width, y))
            };
            proof {
                let i = per_row * y + k;
                assert(i / per_row as int == y && i % per_row as int == k) by (nonlinear_arith)
                    requires
                        i == per_row * y + k,
                        0 <= k < per_row,
                        y >= 0,
                ;
            }
            r.push(task);
            k += 1;
        }
        y += 1;
        proof {
            assert(per_row * (y - 1) + per_row == per_row * y) by (nonlinear_arith);
        }
    }
    r
}

/// A stored path is exactly what the planner returns for its key on the
/// current map and topology. Since `find_path` always returns that outcome,
/// clearing the cache and asking again gives the same path.
pub proof fn lemma_cleared_query_repeats(world: &World, key: PathKey)
    requires
        world.wf(),
        world.cached().contains_key(key),
    ensures
        planned(&world.grid_spec(), world.topology_spec(), key.0, key.1) == Some(world.cached()[key]),
{
}

/// Every path that a well-formed world holds in its cache runs from its key's
/// start to its key's goal over open cells, each step a neighbour step of the
/// active topology.
pub proof fn lemma_cached_paths_are_routes(world: &World, key: PathKey)
    requires
        world.wf(),
        world.cached().contains_key(key),
    ensures
        route_under(&world.grid_spec(), world.topology_spec(), world.cached()[key], key.0, key.1),
{
}

} // verus!
