use vstd::prelude::*;
use crate::grid::{Grid, Pos, in_bounds};

verus! {

/// The largest cost that any topology charges for a single step.
pub const MAX_STEP_COST: usize = 14;

/// Cost of an orthogonal (or hexagonal) step.
pub const STRAIGHT_COST: usize = 10;

/// Cost of a diagonal step.
pub const DIAGONAL_COST: usize = 14;

/// Whether `b` is `a` moved by one of the offsets in `offs`.
pub open spec fn is_step(offs: Seq<(i8, i8)>, a: Pos, b: Pos) -> bool {
    exists|k: int|
        0 <= k < offs.len() && b.0 == a.0 + offs[k].0 && b.1 == a.1 + offs[k].1
}

/// The open cells reached from `p` by the offsets in `offs`, in the order of
/// the offsets; offsets that lead off the map or onto an obstacle are skipped.
pub open spec fn open_steps(grid: &Grid, p: Pos, offs: Seq<(i8, i8)>) -> Seq<Pos>
    decreases offs.len(),
{
    if offs.len() == 0 {
        Seq::empty()
    } else {
        let prev = open_steps(grid, p, offs.drop_last());
        let x = p.0 + offs.last().0;
        let y = p.1 + offs.last().1;
        if !grid.blocked(x, y) {
            prev.push((x as usize, y as usize))
        } else {
            prev
        }
    }
}

/// Every cell of `open_steps` is `p` moved by one of the offsets, and there
/// are no more cells than offsets.
pub proof fn lemma_open_steps_from_offsets(grid: &Grid, p: Pos, offs: Seq<(i8, i8)>)
    ensures
        open_steps(grid, p, offs).len() <= offs.len(),
        forall|j: int|
            0 <= j < open_steps(grid, p, offs).len() ==> is_step(
                offs,
                p,
                #[trigger] open_steps(grid, p, offs)[j],
            ),
    decreases offs.len(),
{
    if offs.len() > 0 {
        let init = offs.drop_last();
        lemma_open_steps_from_offsets(grid, p, init);
        let prev = open_steps(grid, p, init);
        let cur = open_steps(grid, p, offs);
        assert forall|j: int| 0 <= j < cur.len() implies is_step(offs, p, #[trigger] cur[j]) by {
            if j < prev.len() {
                assert(cur[j] == prev[j]);
                assert(is_step(init, p, prev[j]));
                let k = choose|k: int|
                    0 <= k < init.len() && prev[j].0 == p.0 + init[k].0 && prev[j].1 == p.1
                        + init[k].1;
                assert(offs[k] == init[k]);
            } else {
                let k = offs.len() - 1;
                assert(cur[j].0 == p.0 + offs[k].0 && cur[j].1 == p.1 + offs[k].1);
            }
        }
    }
}

/// Distinct offsets give distinct cells.
pub proof fn lemma_open_steps_distinct(grid: &Grid, p: Pos, offs: Seq<(i8, i8)>)
    requires
        offs.no_duplicates(),
    ensures
        open_steps(grid, p, offs).no_duplicates(),
    decreases offs.len(),
{
    if offs.len() > 0 {
        let init = offs.drop_last();
        assert(init.no_duplicates()) by {
            assert forall|i: int, j: int| 0 <= i < init.len() && 0 <= j < init.len() && i != j implies init[i]
                != init[j] by {
                assert(init[i] == offs[i] && init[j] == offs[j]);
            }
        }
        lemma_open_steps_distinct(grid, p, init);
        lemma_open_steps_from_offsets(grid, p, init);
        let prev = open_steps(grid, p, init);
        let cur = open_steps(grid, p, offs);
        let d = offs.last();
        if cur.len() > prev.len() {
            let q = cur[prev.len() as int];
            assert forall|i: int, j: int| 0 <= i < cur.len() && 0 <= j < cur.len() && i != j implies cur[i]
                != cur[j] by {
                if i < prev.len() && j < prev.len() {
                    assert(cur[i] == prev[i] && cur[j] == prev[j]);
                } else {
                    let m = if i < prev.len() { i } else { j };
                    assert(cur[m] == prev[m]);
                    assert(is_step(init, p, prev[m]));
                    let k = choose|k: int|
                        0 <= k < init.len() && prev[m].0 == p.0 + init[k].0 && prev[m].1 == p.1
                            + init[k].1;
                    assert(offs[k] == init[k]);
                    assert(offs[offs.len() - 1] == d);
                    if prev[m] == q {
                        assert(init[k] == d);
                    }
                }
            }
        }
    }
}

/// A neighbourhood oracle over a tile map: which cells may follow a cell, and
/// at what cost.
pub trait GridAdapter {
    /// The oracle's own well-formedness.
    spec fn wf_spec(&self) -> bool;

    /// The cell lies on the map and is not blocked.
    spec fn valid_spec(&self, p: Pos) -> bool;

    /// `b` is one step from `a` under this topology, blocked or not.
    spec fn adjacent_spec(&self, a: Pos, b: Pos) -> bool;

    /// The cost of the step from `a` to `b`.
    spec fn cost_spec(&self, a: Pos, b: Pos) -> nat;

    /// Width and height of the map.
    spec fn extent_spec(&self) -> (usize, usize);

    /// The steps this topology tries from `pos`, in order.
    spec fn offsets_spec(&self, pos: Pos) -> Seq<(i8, i8)>;

    /// The neighbour list of `pos`: the open cells reached by the offsets, in
    /// the offsets' order.
    spec fn neighbors_spec(&self, pos: Pos) -> Seq<Pos>;

    /// The valid cells one step from `pos`, each once, in the order of the
    /// topology's offsets.
    fn get_neighbors(&self, pos: Pos) -> (r: Vec<Pos>)
        requires
            self.wf_spec(),
        ensures
            r@ == self.neighbors_spec(pos),
            r@.no_duplicates(),
            r@.len() <= self.offsets_spec(pos).len(),
            forall|q: Pos| #[trigger]
                r@.contains(q) <==> (self.adjacent_spec(pos, q) && self.valid_spec(q)),
    ;

    /// Whether `pos` lies on the map and is not blocked.
    fn is_valid_position(&self, pos: Pos) -> (r: bool)
        requires
            self.wf_spec(),
        ensures
            r == self.valid_spec(pos),
    ;

    /// The cost of a step between two adjacent cells.
    fn movement_cost(&self, from: Pos, to: Pos) -> (r: usize)
        requires
            self.wf_spec(),
        ensures
            r == self.cost_spec(from, to),
            1 <= r <= MAX_STEP_COST,
    ;

    /// Width and height of the map; every valid cell lies inside them.
    fn dimensions(&self) -> (r: (usize, usize))
        requires
            self.wf_spec(),
        ensures
            r == self.extent_spec(),
            r.0 * r.1 <= usize::MAX,
            forall|p: Pos| #[trigger] self.valid_spec(p) ==> p.0 < r.0 && p.1 < r.1,
    ;
}

/// The cell `p + (dx, dy)` when it lies on the map and is not blocked.
fn open_offset(grid: &Grid, p: Pos, dx: i8, dy: i8) -> (r: Option<Pos>)
    requires
        grid.wf(),
        -1 <= dx <= 1,
        -1 <= dy <= 1,
    ensures
        r matches Some(q) ==> q.0 == p.0 + dx && q.1 == p.1 + dy && !grid.blocked(
            q.0 as int,
            q.1 as int,
        ),
        r is None ==> grid.blocked(p.0 + dx, p.1 + dy),
{
    let x = if dx < 0 {
        if p.0 == 0 {
            return None;
        }
        p.0 - 1
    } else if dx > 0 {
        if p.0 >= grid.width {
            return None;
        }
        p.0 + 1
    } else {
        p.0
    };
    let y = if dy < 0 {
        if p.1 == 0 {
            return None;
        }
        p.1 - 1
    } else if dy > 0 {
        if p.1 >= grid.height {
            return None;
        }
        p.1 + 1
    } else {
        p.1
    };
    if grid.is_obstacle(x, y) {
        None
    } else {
        Some((x, y))
    }
}

/// The open cells reached from `p` by the offsets in `dirs`, in that order.
fn collect_open(grid: &Grid, p: Pos, dirs: &Vec<(i8, i8)>) -> (r: Vec<Pos>)
    requires
        grid.wf(),
        forall|k: int| 0 <= k < dirs@.len() ==> -1 <= #[trigger] dirs@[k].0 <= 1 && -1 <= dirs@[k].1 <= 1,
    ensures
        r@ == open_steps(grid, p, dirs@),
        r@.len() <= dirs@.len(),
        dirs@.no_duplicates() ==> r@.no_duplicates(),
        forall|q: Pos| #[trigger]
            r@.contains(q) <==> (is_step(dirs@, p, q) && !grid.blocked(q.0 as int, q.1 as int)),
{
    let mut out: Vec<Pos> = Vec::new();
    let mut i: usize = 0;
    while i < dirs.len()
        invariant
            grid.wf(),
            i <= dirs@.len(),
            forall|k: int| 0 <= k < dirs@.len() ==> -1 <= #[trigger] dirs@[k].0 <= 1 && -1 <= dirs@[k].1 <= 1,
            out@ == open_steps(grid, p, dirs@.take(i as int)),
            forall|q: Pos| #[trigger]
                out@.contains(q) <==> (is_step(dirs@.take(i as int), p, q) && !grid.blocked(
                    q.0 as int,
                    q.1 as int,
                )),
        decreases dirs@.len() - i,
    {
        let (dx, dy) = dirs[i];
        let found = open_offset(grid, p, dx, dy);
        let ghost old_out = out@;
        if let Some(q) = found {
            out.push(q);
        }
        proof {
            let pre = dirs@.take(i as int);
            let post = dirs@.take(i + 1);
            assert(post[i as int] == (dx, dy));
            assert(post.drop_last() =~= pre);
            if found is Some {
                assert(out@ == old_out.push(found->Some_0));
            } else {
                assert(out@ == old_out);
            }
            assert forall|q: Pos| #[trigger]
                out@.contains(q) <==> (is_step(post, p, q) && !grid.blocked(q.0 as int, q.1 as int)) by {
                if is_step(post, p, q) && !grid.blocked(q.0 as int, q.1 as int) {
                    let k = choose|k: int|
                        0 <= k < post.len() && q.0 == p.0 + post[k].0 && q.1 == p.1 + post[k].1;
                    if k < i {
                        assert(pre[k] == post[k]);
                        assert(is_step(pre, p, q));
                        assert(old_out.contains(q));
                        let j = choose|j: int| 0 <= j < old_out.len() && old_out[j] == q;
                        assert(out@[j] == q);
                    } else {
                        assert(k == i);
                        assert(q.0 == p.0 + dx && q.1 == p.1 + dy);
                        assert(found is Some);
                        let f = found->Some_0;
                        assert(f == q);
                        assert(out@[old_out.len() as int] == f);
                    }
                }
                if out@.contains(q) {
                    assert(found is None ==> out@ == old_out);
                    let j = choose|j: int| 0 <= j < out@.len() && out@[j] == q;
                    if j < old_out.len() {
                        assert(old_out[j] == q);
                        assert(old_out.contains(q));
                        let k = choose|k: int|
                            0 <= k < pre.len() && q.0 == p.0 + pre[k].0 && q.1 == p.1 + pre[k].1;
                        assert(pre[k] == post[k]);
                        assert(is_step(post, p, q));
                        assert(!grid.blocked(q.0 as int, q.1 as int));
                    } else {
                        assert(found is Some);
                        let f = found->Some_0;
                        assert(out@ == old_out.push(f));
                        assert(q == f);
                        assert(is_step(post, p, q));
                        assert(!grid.blocked(q.0 as int, q.1 as int));
                    }
                }
            }
        }
        i += 1;
    }
    assert(dirs@.take(dirs@.len() as int) =~= dirs@);
    proof {
        lemma_open_steps_from_offsets(grid, p, dirs@);
        if dirs@.no_duplicates() {
            lemma_open_steps_distinct(grid, p, dirs@);
        }
    }
    out
}

/// North, south, west, east.
pub open spec fn cardinal_offsets() -> Seq<(i8, i8)> {
    seq![(0i8, -1i8), (0i8, 1i8), (-1i8, 0i8), (1i8, 0i8)]
}

/// The four cardinal offsets followed by the four diagonals.
pub open spec fn diagonal_offsets() -> Seq<(i8, i8)> {
    seq![(0i8, -1i8), (0i8, 1i8), (-1i8, 0i8), (1i8, 0i8), (-1i8, -1i8), (1i8, -1i8), (-1i8, 1i8), (1i8, 1i8)]
}

/// The six hexagonal offsets of cell `p`. Flat-top hexagons shift even rows;
/// pointy-top hexagons shift even columns.
pub open spec fn hex_offsets(flat_top: bool, p: Pos) -> Seq<(i8, i8)> {
    if flat_top {
        if p.1 % 2 == 0 {
            seq![(0i8, -1i8), (1i8, 0i8), (1i8, 1i8), (0i8, 1i8), (-1i8, 1i8), (-1i8, 0i8)]
        } else {
            seq![(0i8, -1i8), (1i8, -1i8), (1i8, 0i8), (0i8, 1i8), (-1i8, 0i8), (-1i8, -1i8)]
        }
    } else {
        if p.0 % 2 == 0 {
            seq![(1i8, 0i8), (0i8, 1i8), (-1i8, 1i8), (-1i8, 0i8), (-1i8, -1i8), (0i8, -1i8)]
        } else {
            seq![(1i8, 0i8), (1i8, 1i8), (0i8, 1i8), (-1i8, 0i8), (0i8, -1i8), (1i8, -1i8)]
        }
    }
}

/// Four-neighbour square topology, uniform cost.
pub struct RectangularCardinalAdapter<'a> {
    grid: &'a Grid,
}

impl<'a> RectangularCardinalAdapter<'a> {
    pub fn new(grid: &'a Grid) -> (r: Self)
        ensures
            r == Self::new_spec(grid),
            r.grid() == grid,
    {
        Self { grid }
    }

    /// The oracle over `grid`.
    pub closed spec fn new_spec(grid: &'a Grid) -> Self {
        Self { grid }
    }

    /// The map this oracle reads.
    pub closed spec fn grid(&self) -> &'a Grid {
        self.grid
    }

    pub proof fn lemma_new_spec(grid: &'a Grid)
        ensures
            Self::new_spec(grid).grid() == grid,
    {
    }
}

impl<'a> GridAdapter for RectangularCardinalAdapter<'a> {
    open spec fn wf_spec(&self) -> bool {
        self.grid().wf()
    }

    open spec fn valid_spec(&self, p: Pos) -> bool {
        !self.grid().blocked(p.0 as int, p.1 as int)
    }

    open spec fn adjacent_spec(&self, a: Pos, b: Pos) -> bool {
        is_step(cardinal_offsets(), a, b)
    }

    open spec fn offsets_spec(&self, pos: Pos) -> Seq<(i8, i8)> {
        cardinal_offsets()
    }

    open spec fn neighbors_spec(&self, pos: Pos) -> Seq<Pos> {
        open_steps(self.grid(), pos, cardinal_offsets())
    }

    open spec fn cost_spec(&self, a: Pos, b: Pos) -> nat {
        STRAIGHT_COST as nat
    }

    open spec fn extent_spec(&self) -> (usize, usize) {
        (self.grid().width, self.grid().height)
    }

    fn get_neighbors(&self, pos: Pos) -> (r: Vec<Pos>) {
        let dirs: Vec<(i8, i8)> = vec![(0, -1), (0, 1), (-1, 0), (1, 0)];
        assert(dirs@ =~= cardinal_offsets());
        collect_open(self.grid, pos, &dirs)
    }

    fn is_valid_position(&self, pos: Pos) -> (r: bool) {
        !self.grid.is_obstacle(pos.0, pos.1)
    }

    fn movement_cost(&self, from: Pos, to: Pos) -> (r: usize) {
        STRAIGHT_COST
    }

    fn dimensions(&self) -> (r: (usize, usize)) {
        (self.grid.width, self.grid.height)
    }
}

/// Eight-neighbour square topology: orthogonal steps cost 10, diagonal 14.
/// Diagonal steps between two blocked orthogonal cells are allowed.
pub struct RectangularDiagonalAdapter<'a> {
    grid: &'a Grid,
}

impl<'a> RectangularDiagonalAdapter<'a> {
    pub fn new(grid: &'a Grid) -> (r: Self)
        ensures
            r == Self::new_spec(grid),
            r.grid() == grid,
    {
        Self { grid }
    }

    /// The oracle over `grid`.
    pub closed spec fn new_spec(grid: &'a Grid) -> Self {
        Self { grid }
    }

    /// The map this oracle reads.
    pub closed spec fn grid(&self) -> &'a Grid {
        self.grid
    }

    pub proof fn lemma_new_spec(grid: &'a Grid)
        ensures
            Self::new_spec(grid).grid() == grid,
    {
    }
}

impl<'a> GridAdapter for RectangularDiagonalAdapter<'a> {
    open spec fn wf_spec(&self) -> bool {
        self.grid().wf()
    }

    open spec fn valid_spec(&self, p: Pos) -> bool {
        !self.grid().blocked(p.0 as int, p.1 as int)
    }

    open spec fn adjacent_spec(&self, a: Pos, b: Pos) -> bool {
        is_step(diagonal_offsets(), a, b)
    }

    open spec fn offsets_spec(&self, pos: Pos) -> Seq<(i8, i8)> {
        diagonal_offsets()
    }

    open spec fn neighbors_spec(&self, pos: Pos) -> Seq<Pos> {
        open_steps(self.grid(), pos, diagonal_offsets())
    }

    open spec fn cost_spec(&self, a: Pos, b: Pos) -> nat {
        if a.0 != b.0 && a.1 != b.1 {
            DIAGONAL_COST as nat
        } else {
            STRAIGHT_COST as nat
        }
    }

    open spec fn extent_spec(&self) -> (usize, usize) {
        (self.grid().width, self.grid().height)
    }

    fn get_neighbors(&self, pos: Pos) -> (r: Vec<Pos>) {
        let dirs: Vec<(i8, i8)> = vec![
            (0, -1),
            (0, 1),
            (-1, 0),
            (1, 0),
            (-1, -1),
            (1, -1),
            (-1, 1),
            (1, 1),
        ];
        assert(dirs@ =~= diagonal_offsets());
        collect_open(self.grid, pos, &dirs)
    }

    fn is_valid_position(&self, pos: Pos) -> (r: bool) {
        !self.grid.is_obstacle(pos.0, pos.1)
    }

    fn movement_cost(&self, from: Pos, to: Pos) -> (r: usize) {
        if from.0 != to.0 && from.1 != to.1 {
            DIAGONAL_COST
        } else {
            STRAIGHT_COST
        }
    }

    fn dimensions(&self) -> (r: (usize, usize)) {
        (self.grid.width, self.grid.height)
    }
}

/// Six-neighbour hexagonal topology in offset coordinates, uniform cost.
pub struct HexagonalAdapter<'a> {
    grid: &'a Grid,
    /// Flat-top hexagons (rows offset) or pointy-top ones (columns offset).
    flat_top: bool,
}

impl<'a> HexagonalAdapter<'a> {
    pub fn new(grid: &'a Grid, flat_top: bool) -> (r: Self)
        ensures
            r == Self::new_spec(grid, flat_top),
            r.grid() == grid,
            r.flat_top() == flat_top,
    {
        Self { grid, flat_top }
    }

    /// The oracle over `grid` with the given orientation.
    pub closed spec fn new_spec(grid: &'a Grid, flat_top: bool) -> Self {
        Self { grid, flat_top }
    }

    pub proof fn lemma_new_spec(grid: &'a Grid, flat_top: bool)
        ensures
            Self::new_spec(grid, flat_top).grid() == grid,
            Self::new_spec(grid, flat_top).flat_top() == flat_top,
    {
    }

    /// The map this oracle reads.
    pub closed spec fn grid(&self) -> &'a Grid {
        self.grid
    }

    /// The hexagon orientation.
    pub closed spec fn flat_top(&self) -> bool {
        self.flat_top
    }
}

impl<'a> GridAdapter for HexagonalAdapter<'a> {
    open spec fn wf_spec(&self) -> bool {
        self.grid().wf()
    }

    open spec fn valid_spec(&self, p: Pos) -> bool {
        !self.grid().blocked(p.0 as int, p.1 as int)
    }

    open spec fn adjacent_spec(&self, a: Pos, b: Pos) -> bool {
        is_step(hex_offsets(self.flat_top(), a), a, b)
    }

    open spec fn offsets_spec(&self, pos: Pos) -> Seq<(i8, i8)> {
        hex_offsets(self.flat_top(), pos)
    }

    open spec fn neighbors_spec(&self, pos: Pos) -> Seq<Pos> {
        open_steps(self.grid(), pos, hex_offsets(self.flat_top(), pos))
    }

    open spec fn cost_spec(&self, a: Pos, b: Pos) -> nat {
        STRAIGHT_COST as nat
    }

    open spec fn extent_spec(&self) -> (usize, usize) {
        (self.grid().width, self.grid().height)
    }

    fn get_neighbors(&self, pos: Pos) -> (r: Vec<Pos>) {
        let dirs: Vec<(i8, i8)> = if self.flat_top {
            if pos.1 % 2 == 0 {
                vec![(0, -1), (1, 0), (1, 1), (0, 1), (-1, 1), (-1, 0)]
            } else {
                vec![(0, -1), (1, -1), (1, 0), (0, 1), (-1, 0), (-1, -1)]
            }
        } else {
            if pos.0 % 2 == 0 {
                vec![(1, 0), (0, 1), (-1, 1), (-1, 0), (-1, -1), (0, -1)]
            } else {
                vec![(1, 0), (1, 1), (0, 1), (-1, 0), (0, -1), (1, -1)]
            }
        };
        assert(dirs@ =~= hex_offsets(self.flat_top(), pos));
        collect_open(self.grid, pos, &dirs)
    }

    fn is_valid_position(&self, pos: Pos) -> (r: bool) {
        !self.grid.is_obstacle(pos.0, pos.1)
    }

    fn movement_cost(&self, from: Pos, to: Pos) -> (r: usize) {
        STRAIGHT_COST
    }

    fn dimensions(&self) -> (r: (usize, usize)) {
        (self.grid.width, self.grid.height)
    }
}

} // verus!
