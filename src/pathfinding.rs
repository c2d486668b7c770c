use vstd::prelude::*;
use crate::grid::{Grid, Pos, lemma_row_index, lemma_same_index};
use crate::topology::{
    GridAdapter,
    MAX_STEP_COST,
    STRAIGHT_COST,
    RectangularCardinalAdapter,
    cardinal_offsets,
    is_step,
};

verus! {

/// Factor applied to the Manhattan distance in the search heuristic.
pub const HEURISTIC_SCALE: usize = 10;

pub open spec fn abs_diff(a: int, b: int) -> nat {
    if a >= b {
        (a - b) as nat
    } else {
        (b - a) as nat
    }
}

/// Manhattan distance between two cells.
pub open spec fn manhattan(a: Pos, b: Pos) -> nat {
    abs_diff(a.0 as int, b.0 as int) + abs_diff(a.1 as int, b.1 as int)
}

/// A non-empty sequence of valid cells, each one step from the one before.
pub open spec fn is_walk<A: GridAdapter>(adapter: &A, p: Seq<Pos>) -> bool {
    &&& p.len() > 0
    &&& forall|i: int| 0 <= i < p.len() ==> adapter.valid_spec(#[trigger] p[i])
    &&& forall|i: int|
        #![trigger p[i]]
        0 <= i < p.len() - 1 ==> adapter.adjacent_spec(p[i], p[i + 1])
}

/// A walk from `start` to `goal`, both included.
pub open spec fn is_route<A: GridAdapter>(adapter: &A, p: Seq<Pos>, start: Pos, goal: Pos) -> bool {
    &&& is_walk(adapter, p)
    &&& p[0] == start
    &&& p.last() == goal
}

/// Some walk leads from `start` to `goal`.
pub open spec fn reachable<A: GridAdapter>(adapter: &A, start: Pos, goal: Pos) -> bool {
    exists|p: Seq<Pos>| is_route(adapter, p, start, goal)
}

/// Total step cost of a walk.
pub open spec fn walk_cost<A: GridAdapter>(adapter: &A, p: Seq<Pos>) -> int
    decreases p.len(),
{
    if p.len() <= 1 {
        0
    } else {
        walk_cost(adapter, p.drop_last()) + adapter.cost_spec(p[p.len() - 2], p[p.len() - 1])
    }
}

/// The heuristic towards `goal` drops by no more than a step costs.
pub open spec fn consistent<A: GridAdapter>(adapter: &A, goal: Pos) -> bool {
    forall|p: Pos, q: Pos|
        #[trigger] adapter.adjacent_spec(p, q) && adapter.valid_spec(p) && adapter.valid_spec(q)
            ==> HEURISTIC_SCALE * manhattan(p, goal) <= adapter.cost_spec(p, q) + HEURISTIC_SCALE
            * manhattan(q, goal)
}

/// The search's costs fit in `usize` on a map of this extent.
pub open spec fn search_fits(ext: (usize, usize)) -> bool {
    MAX_STEP_COST * (ext.0 * ext.1) + HEURISTIC_SCALE * (ext.0 + ext.1) <= usize::MAX
}

/// Scaled Manhattan distance, the search's estimate of the remaining cost.
pub fn heuristic(a: Pos, b: Pos) -> (r: usize)
    requires
        HEURISTIC_SCALE * manhattan(a, b) <= usize::MAX,
    ensures
        r == HEURISTIC_SCALE * manhattan(a, b),
{
    let dx = if a.0 >= b.0 {
        a.0 - b.0
    } else {
        b.0 - a.0
    };
    let dy = if a.1 >= b.1 {
        a.1 - b.1
    } else {
        b.1 - a.1
    };
    HEURISTIC_SCALE * (dx + dy)
}

/// An entry of the open list: a cell and its estimated total cost.
#[derive(Clone, Copy)]
struct Node {
    pos: Pos,
    f_cost: usize,
}

spec fn in_ext(ext: (usize, usize), p: Pos) -> bool {
    p.0 < ext.0 && p.1 < ext.1
}

/// The entry of a row-major table that belongs to cell `p`.
spec fn at<T>(v: Seq<T>, w: usize, p: Pos) -> T {
    v[p.1 * w + p.0]
}

spec fn distinct_pos(open: Seq<Node>) -> bool {
    forall|i: int, j: int| 0 <= i < open.len() && 0 <= j < open.len() && i != j ==> #[trigger] open[i].pos != #[trigger] open[j].pos
}

spec fn in_open(open: Seq<Node>, p: Pos) -> bool {
    exists|j: int| 0 <= j < open.len() && open[j].pos == p
}

spec fn count_true(s: Seq<bool>) -> nat
    decreases s.len(),
{
    if s.len() == 0 {
        0
    } else {
        count_true(s.drop_last()) + if s.last() {
            1nat
        } else {
            0nat
        }
    }
}

proof fn lemma_count_le(s: Seq<bool>)
    ensures
        count_true(s) <= s.len(),
    decreases s.len(),
{
    if s.len() > 0 {
        lemma_count_le(s.drop_last());
    }
}

proof fn lemma_count_set(s: Seq<bool>, i: int)
    requires
        0 <= i < s.len(),
        !s[i],
    ensures
        count_true(s.update(i, true)) == count_true(s) + 1,
    decreases s.len(),
{
    let t = s.update(i, true);
    if i == s.len() - 1 {
        assert(t.drop_last() =~= s.drop_last());
    } else {
        assert(t.drop_last() =~= s.drop_last().update(i, true));
        lemma_count_set(s.drop_last(), i);
    }
}

proof fn lemma_at_update<T>(v: Seq<T>, w: usize, h: usize, c: Pos, x: T)
    requires
        v.len() == w * h,
        c.0 < w,
        c.1 < h,
    ensures
        forall|p: Pos|
            p.0 < w && p.1 < h ==> #[trigger] at(v.update(c.1 * w + c.0, x), w, p) == if p == c {
                x
            } else {
                at(v, w, p)
            },
{
    lemma_row_index(w as int, h as int, c.0 as int, c.1 as int);
    assert forall|p: Pos| p.0 < w && p.1 < h implies #[trigger] at(v.update(c.1 * w + c.0, x), w, p)
        == if p == c {
        x
    } else {
        at(v, w, p)
    } by {
        lemma_row_index(w as int, h as int, p.0 as int, p.1 as int);
        if p.1 * w + p.0 == c.1 * w + c.0 {
            lemma_same_index(w as int, p.0 as int, p.1 as int, c.0 as int, c.1 as int);
        }
    }
}

/// The state of the search, everything but the expansion of closed cells.
spec fn search_core<A: GridAdapter>(
    a: &A,
    ext: (usize, usize),
    start: Pos,
    end: Pos,
    g: Seq<Option<usize>>,
    came: Seq<Option<Pos>>,
    closed: Seq<bool>,
    open: Seq<Node>,
) -> bool {
    let w = ext.0;
    &&& g.len() == ext.0 * ext.1
    &&& came.len() == ext.0 * ext.1
    &&& closed.len() == ext.0 * ext.1
    &&& in_ext(ext, start)
    &&& a.valid_spec(start)
    &&& at(g, w, start) == Some(0usize)
    &&& at(came, w, start) is None
    &&& forall|p: Pos| #[trigger] a.valid_spec(p) ==> in_ext(ext, p)
    &&& forall|p: Pos| in_ext(ext, p) && #[trigger] at(g, w, p) is Some ==> a.valid_spec(p)
    &&& forall|p: Pos|
        in_ext(ext, p) && #[trigger] at(g, w, p) is Some ==> at(g, w, p)->Some_0 <= MAX_STEP_COST
            * count_true(closed)
    &&& forall|p: Pos|
        in_ext(ext, p) && #[trigger] at(closed, w, p) ==> at(g, w, p) is Some && p != end
    &&& forall|p: Pos|
        #![trigger at(came, w, p)]
        in_ext(ext, p) && p != start && at(g, w, p) is Some ==> {
            &&& at(came, w, p) is Some
            &&& in_ext(ext, at(came, w, p)->Some_0)
            &&& at(closed, w, at(came, w, p)->Some_0)
            &&& at(g, w, at(came, w, p)->Some_0) is Some
            &&& a.adjacent_spec(at(came, w, p)->Some_0, p)
            &&& at(g, w, at(came, w, p)->Some_0)->Some_0 < at(g, w, p)->Some_0
            &&& at(g, w, p)->Some_0 == at(g, w, at(came, w, p)->Some_0)->Some_0 + a.cost_spec(
                at(came, w, p)->Some_0,
                p,
            )
        }
    &&& forall|p: Pos|
        in_ext(ext, p) && #[trigger] at(g, w, p) is Some && !at(closed, w, p) ==> in_open(open, p)
    &&& forall|j: int|
        0 <= j < open.len() ==> in_ext(ext, #[trigger] open[j].pos) && at(g, w, open[j].pos) is Some
    &&& forall|j: int|
        0 <= j < open.len() ==> #[trigger] open[j].f_cost == at(g, w, open[j].pos)->Some_0
            + HEURISTIC_SCALE * manhattan(open[j].pos, end)
    &&& distinct_pos(open)
}

/// Every closed cell but `skip` has offered each unclosed open neighbour a
/// cost no higher than its own plus the step.
spec fn relaxed<A: GridAdapter>(
    a: &A,
    ext: (usize, usize),
    g: Seq<Option<usize>>,
    closed: Seq<bool>,
    skip: Option<Pos>,
) -> bool {
    forall|p: Pos, q: Pos|
        #![trigger at(closed, ext.0, p), a.adjacent_spec(p, q)]
        in_ext(ext, p) && at(closed, ext.0, p) && skip != Some(p) && a.adjacent_spec(p, q)
            && a.valid_spec(q) && !at(closed, ext.0, q) ==> at(g, ext.0, q)->Some_0 <= at(
            g,
            ext.0,
            p,
        )->Some_0 + a.cost_spec(p, q)
}

/// Every closed cell holds the least cost of any walk to it from the start.
spec fn optimal<A: GridAdapter>(
    a: &A,
    ext: (usize, usize),
    start: Pos,
    g: Seq<Option<usize>>,
    closed: Seq<bool>,
) -> bool {
    forall|n: Pos, q: Seq<Pos>|
        #![trigger at(closed, ext.0, n), is_route(a, q, start, n)]
        in_ext(ext, n) && at(closed, ext.0, n) && is_route(a, q, start, n) ==> at(g, ext.0, n)->Some_0
            <= walk_cost(a, q)
}

/// A prefix of a walk is a walk.
proof fn lemma_walk_prefix<A: GridAdapter>(a: &A, q: Seq<Pos>, k: int)
    requires
        is_walk(a, q),
        1 <= k <= q.len(),
    ensures
        is_walk(a, q.take(k)),
        q.take(k)[0] == q[0],
        q.take(k).last() == q[k - 1],
{
    let t = q.take(k);
    assert forall|i: int| 0 <= i < t.len() implies a.valid_spec(#[trigger] t[i]) by {
        assert(t[i] == q[i]);
    }
    assert forall|i: int| #![trigger t[i]] 0 <= i < t.len() - 1 implies a.adjacent_spec(t[i], t[i + 1]) by {
        assert(t[i] == q[i] && t[i + 1] == q[i + 1]);
    }
}

/// Along a walk with a consistent heuristic, the estimate at cell `j` plus the
/// cost so far is at most the whole cost plus the estimate at the end.
proof fn lemma_consistent_along<A: GridAdapter>(a: &A, goal: Pos, q: Seq<Pos>, j: int)
    requires
        consistent(a, goal),
        is_walk(a, q),
        0 <= j < q.len(),
    ensures
        HEURISTIC_SCALE * manhattan(q[j], goal) + walk_cost(a, q.take(j + 1)) <= walk_cost(a, q)
            + HEURISTIC_SCALE * manhattan(q.last(), goal),
    decreases q.len(),
{
    if j == q.len() - 1 {
        assert(q.take(j + 1) =~= q);
    } else {
        let d = q.drop_last();
        let n = q.len();
        assert(is_walk(a, d)) by {
            assert forall|i: int| 0 <= i < d.len() implies a.valid_spec(#[trigger] d[i]) by {
                assert(d[i] == q[i]);
            }
            assert forall|i: int| #![trigger d[i]] 0 <= i < d.len() - 1 implies a.adjacent_spec(d[i], d[i + 1]) by {
                assert(d[i] == q[i] && d[i + 1] == q[i + 1]);
            }
        }
        lemma_consistent_along(a, goal, d, j);
        assert(d.take(j + 1) =~= q.take(j + 1));
        assert(a.adjacent_spec(q[n - 2], q[n - 1]));
        assert(a.valid_spec(q[n - 2]) && a.valid_spec(q[n - 1]));
        assert(d.last() == q[n - 2]);
    }
}

/// The first cell of a walk that is not closed, when its last cell is not.
proof fn lemma_first_unclosed(closed: Seq<bool>, w: usize, q: Seq<Pos>, i: int) -> (j: int)
    requires
        0 <= i < q.len(),
        !at(closed, w, q.last()),
        forall|k: int| 0 <= k < i ==> at(closed, w, #[trigger] q[k]),
    ensures
        i <= j < q.len(),
        !at(closed, w, q[j]),
        forall|k: int| 0 <= k < j ==> at(closed, w, #[trigger] q[k]),
    decreases q.len() - i,
{
    if !at(closed, w, q[i]) {
        i
    } else {
        lemma_first_unclosed(closed, w, q, i + 1)
    }
}

/// With a consistent heuristic, the unclosed entry the search takes next
/// holds the least cost of any walk to its cell.
proof fn lemma_taken_is_optimal<A: GridAdapter>(
    a: &A,
    ext: (usize, usize),
    start: Pos,
    end: Pos,
    g: Seq<Option<usize>>,
    came: Seq<Option<Pos>>,
    closed: Seq<bool>,
    open: Seq<Node>,
    m: int,
    q: Seq<Pos>,
)
    requires
        search_core(a, ext, start, end, g, came, closed, open),
        expanded(a, ext, g, closed, None),
        relaxed(a, ext, g, closed, None),
        optimal(a, ext, start, g, closed),
        consistent(a, end),
        0 <= m < open.len(),
        forall|j: int| 0 <= j < open.len() ==> open[m].f_cost <= #[trigger] open[j].f_cost,
        !at(closed, ext.0, open[m].pos),
        is_route(a, q, start, open[m].pos),
    ensures
        at(g, ext.0, open[m].pos)->Some_0 <= walk_cost(a, q),
{
    let w = ext.0;
    let u = open[m].pos;
    let j = lemma_first_unclosed(closed, w, q, 0);
    let v = q[j];
    assert(a.valid_spec(v));
    assert(in_ext(ext, v));
    assert(q.take(j + 1).drop_last() =~= q.take(j));
    if j == 0 {
        assert(v == start);
        assert(walk_cost(a, q.take(1)) == 0);
    } else {
        let pv = q[j - 1];
        assert(at(closed, w, pv));
        assert(a.valid_spec(pv));
        lemma_walk_prefix(a, q, j);
        assert(is_route(a, q.take(j), start, pv));
        assert(at(g, w, pv)->Some_0 <= walk_cost(a, q.take(j)));
        assert(a.adjacent_spec(q[j - 1], q[j]));
        assert(at(g, w, v) is Some);
        assert(at(g, w, v)->Some_0 <= at(g, w, pv)->Some_0 + a.cost_spec(pv, v));
        assert(q.take(j + 1)[j - 1] == pv && q.take(j + 1)[j] == v);
    }
    assert(at(g, w, v) is Some);
    assert(in_open(open, v));
    let t = choose|t: int| 0 <= t < open.len() && open[t].pos == v;
    assert(open[m].f_cost <= open[t].f_cost);
    lemma_consistent_along(a, end, q, j);
}

/// Every closed cell but `skip` has all its open neighbours discovered.
spec fn expanded<A: GridAdapter>(
    a: &A,
    ext: (usize, usize),
    g: Seq<Option<usize>>,
    closed: Seq<bool>,
    skip: Option<Pos>,
) -> bool {
    forall|p: Pos, q: Pos|
        #![trigger at(closed, ext.0, p), a.adjacent_spec(p, q)]
        in_ext(ext, p) && at(closed, ext.0, p) && skip != Some(p) && a.adjacent_spec(p, q)
            && a.valid_spec(q) ==> at(g, ext.0, q) is Some
}

/// Whether entry `a` is taken before entry `b`: lower estimated cost first,
/// then the lexicographically smaller position.
spec fn precedes_spec(a: Node, b: Node) -> bool {
    a.f_cost < b.f_cost || (a.f_cost == b.f_cost && (a.pos.0 < b.pos.0 || (a.pos.0 == b.pos.0
        && a.pos.1 < b.pos.1)))
}

fn precedes(a: &Node, b: &Node) -> (r: bool)
    ensures
        r == precedes_spec(*a, *b),
{
    a.f_cost < b.f_cost || (a.f_cost == b.f_cost && (a.pos.0 < b.pos.0 || (a.pos.0 == b.pos.0
        && a.pos.1 < b.pos.1)))
}

/// Index of the entry that the search takes next.
fn select_next(open: &Vec<Node>) -> (m: usize)
    requires
        open@.len() > 0,
    ensures
        m < open@.len(),
        forall|j: int| 0 <= j < open@.len() ==> !precedes_spec(#[trigger] open@[j], open@[m as int]),
        forall|j: int| 0 <= j < m ==> precedes_spec(open@[m as int], #[trigger] open@[j]),
{
    let mut best: usize = 0;
    let mut j: usize = 1;
    while j < open.len()
        invariant
            best < open@.len(),
            1 <= j <= open@.len(),
            forall|k: int| 0 <= k < j ==> !precedes_spec(#[trigger] open@[k], open@[best as int]),
            forall|k: int| 0 <= k < best ==> precedes_spec(open@[best as int], #[trigger] open@[k]),
        decreases open@.len() - j,
    {
        if precedes(&open[j], &open[best]) {
            best = j;
        }
        j += 1;
    }
    best
}

/// Gives cell `q` the estimate `f`: updates its entry, or appends one.
fn upsert_open(open: &mut Vec<Node>, q: Pos, f: usize)
    requires
        distinct_pos(old(open)@),
    ensures
        final(open)@.len() >= old(open)@.len(),
        forall|j: int| 0 <= j < old(open)@.len() ==> #[trigger] final(open)@[j].pos == old(open)@[j].pos,
        forall|j: int|
            0 <= j < old(open)@.len() ==> #[trigger] final(open)@[j] == if old(open)@[j].pos == q {
                (Node { pos: q, f_cost: f })
            } else {
                old(open)@[j]
            },
        forall|j: int|
            old(open)@.len() <= j < final(open)@.len() ==> #[trigger] final(open)@[j] == (Node {
                pos: q,
                f_cost: f,
            }),
        in_open(final(open)@, q),
        distinct_pos(final(open)@),
        final(open)@ == upserted(old(open)@, q, f),
{
    let mut j: usize = 0;
    while j < open.len()
        invariant
            j <= open@.len(),
            open@ == old(open)@,
            distinct_pos(old(open)@),
            forall|k: int| 0 <= k < j ==> #[trigger] open@[k].pos != q,
        decreases open@.len() - j,
    {
        if open[j].pos.0 == q.0 && open[j].pos.1 == q.1 {
            open.set(j, Node { pos: q, f_cost: f });
            assert(open@[j as int].pos == q);
            assert(in_open(old(open)@, q));
            assert(open@ =~= upserted(old(open)@, q, f));
            return;
        }
        j += 1;
    }
    open.push(Node { pos: q, f_cost: f });
    assert(open@[old(open)@.len() as int].pos == q);
    assert(!in_open(old(open)@, q));
}

/// The entry the search takes next: no entry precedes it, and it precedes
/// every entry before it.
spec fn is_pick(open: Seq<Node>, m: int) -> bool {
    &&& 0 <= m < open.len()
    &&& forall|j: int| 0 <= j < open.len() ==> !precedes_spec(#[trigger] open[j], open[m])
    &&& forall|j: int| 0 <= j < m ==> precedes_spec(open[m], #[trigger] open[j])
}

spec fn pick(open: Seq<Node>) -> int {
    choose|m: int| is_pick(open, m)
}

proof fn lemma_pick_unique(open: Seq<Node>, m: int)
    requires
        is_pick(open, m),
    ensures
        pick(open) == m,
{
    let p = pick(open);
    assert(is_pick(open, p));
    if p < m {
        assert(precedes_spec(open[m], open[p]));
    } else if m < p {
        assert(precedes_spec(open[p], open[m]));
    }
}

/// The open list after giving cell `q` the estimate `f`.
spec fn upserted(open: Seq<Node>, q: Pos, f: usize) -> Seq<Node> {
    if in_open(open, q) {
        Seq::new(open.len(), |j: int| if open[j].pos == q { Node { pos: q, f_cost: f } } else { open[j] })
    } else {
        open.push(Node { pos: q, f_cost: f })
    }
}

/// The tables after the expansion of `c` (cost `gc`) offers a step to `q`.
spec fn relax_one<A: GridAdapter>(
    a: &A,
    w: usize,
    end: Pos,
    closed: Seq<bool>,
    t: (Seq<Option<usize>>, Seq<Option<Pos>>, Seq<Node>),
    c: Pos,
    gc: usize,
    q: Pos,
) -> (Seq<Option<usize>>, Seq<Option<Pos>>, Seq<Node>) {
    let (g, came, open) = t;
    let new_g = (gc + a.cost_spec(c, q)) as usize;
    let better = match at(g, w, q) {
        Some(old_g) => new_g < old_g,
        None => true,
    };
    if !at(closed, w, q) && better {
        let f = (new_g + HEURISTIC_SCALE * manhattan(q, end)) as usize;
        (
            g.update(q.1 * w + q.0, Some(new_g)),
            came.update(q.1 * w + q.0, Some(c)),
            upserted(open, q, f),
        )
    } else {
        t
    }
}

/// The tables after the first `i` neighbours of `c` are offered a step.
spec fn relax_upto<A: GridAdapter>(
    a: &A,
    w: usize,
    end: Pos,
    closed: Seq<bool>,
    t: (Seq<Option<usize>>, Seq<Option<Pos>>, Seq<Node>),
    c: Pos,
    gc: usize,
    nbs: Seq<Pos>,
    i: int,
) -> (Seq<Option<usize>>, Seq<Option<Pos>>, Seq<Node>)
    decreases i,
{
    if i <= 0 {
        t
    } else {
        relax_one(a, w, end, closed, relax_upto(a, w, end, closed, t, c, gc, nbs, i - 1), c, gc, nbs[i - 1])
    }
}

/// The cells from the start to `cur` along predecessor links.
spec fn back_chain(g: Seq<Option<usize>>, came: Seq<Option<Pos>>, w: usize, cur: Pos) -> Seq<Pos>
    decreases at(g, w, cur)->Some_0,
{
    match at(came, w, cur) {
        Some(p) => if at(g, w, p)->Some_0 < at(g, w, cur)->Some_0 {
            back_chain(g, came, w, p).push(cur)
        } else {
            seq![cur]
        },
        None => seq![cur],
    }
}

/// A state of the search: the tables, and the outcome once it is known.
struct SearchState {
    g: Seq<Option<usize>>,
    came: Seq<Option<Pos>>,
    closed: Seq<bool>,
    open: Seq<Node>,
    outcome: Option<Option<Seq<Pos>>>,
}

/// One round of the search: take the next entry; finish on the goal; skip a
/// closed cell; otherwise close it and offer its neighbours a step.
spec fn search_step<A: GridAdapter>(a: &A, end: Pos, s: SearchState) -> SearchState {
    let w = a.extent_spec().0;
    if s.outcome is Some {
        s
    } else if s.open.len() == 0 {
        SearchState { outcome: Some(None), ..s }
    } else {
        let m = pick(s.open);
        let c = s.open[m].pos;
        let open1 = s.open.remove(m);
        if c == end {
            SearchState { open: open1, outcome: Some(Some(back_chain(s.g, s.came, w, c))), ..s }
        } else if at(s.closed, w, c) {
            SearchState { open: open1, ..s }
        } else {
            let closed2 = s.closed.update(c.1 * w + c.0, true);
            let gc = at(s.g, w, c)->Some_0;
            let nbs = a.neighbors_spec(c);
            let t = relax_upto(a, w, end, closed2, (s.g, s.came, open1), c, gc, nbs, nbs.len() as int);
            SearchState { g: t.0, came: t.1, closed: closed2, open: t.2, outcome: None }
        }
    }
}

spec fn search_run<A: GridAdapter>(a: &A, end: Pos, s: SearchState, k: nat) -> SearchState
    decreases k,
{
    if k == 0 {
        s
    } else {
        search_step(a, end, search_run(a, end, s, (k - 1) as nat))
    }
}

spec fn search_init<A: GridAdapter>(a: &A, start: Pos, end: Pos) -> SearchState {
    let ext = a.extent_spec();
    let w = ext.0;
    let n = ext.0 * ext.1;
    if !a.valid_spec(start) || !a.valid_spec(end) {
        SearchState {
            g: Seq::empty(),
            came: Seq::empty(),
            closed: Seq::empty(),
            open: Seq::empty(),
            outcome: Some(None),
        }
    } else {
        SearchState {
            g: Seq::new(n as nat, |i: int| None::<usize>).update(start.1 * w + start.0, Some(0usize)),
            came: Seq::new(n as nat, |i: int| None::<Pos>),
            closed: Seq::new(n as nat, |i: int| false),
            open: seq![Node { pos: start, f_cost: (HEURISTIC_SCALE * manhattan(start, end)) as usize }],
            outcome: None,
        }
    }
}

/// What the search returns for `start` and `end` on this oracle: the search
/// is run round by round until its outcome is known.
pub closed spec fn search_outcome<A: GridAdapter>(adapter: &A, start: Pos, end: Pos) -> Option<Seq<Pos>> {
    let s0 = search_init(adapter, start, end);
    if exists|k: nat| (#[trigger] search_run(adapter, end, s0, k)).outcome is Some {
        let k = choose|k: nat| (#[trigger] search_run(adapter, end, s0, k)).outcome is Some;
        search_run(adapter, end, s0, k).outcome->Some_0
    } else {
        None
    }
}

/// The view of an optional route.
pub open spec fn route_view(r: Option<Vec<Pos>>) -> Option<Seq<Pos>> {
    match r {
        Some(p) => Some(p@),
        None => None,
    }
}

/// Once the outcome is known, later rounds keep it.
proof fn lemma_run_settled<A: GridAdapter>(a: &A, end: Pos, s: SearchState, k1: nat, k2: nat)
    requires
        search_run(a, end, s, k1).outcome is Some,
        k1 <= k2,
    ensures
        search_run(a, end, s, k2) == search_run(a, end, s, k1),
    decreases k2,
{
    if k2 > k1 {
        lemma_run_settled(a, end, s, k1, (k2 - 1) as nat);
    }
}

/// A run whose outcome is known after `k` rounds gives the search's outcome.
proof fn lemma_outcome_at<A: GridAdapter>(a: &A, start: Pos, end: Pos, k: nat)
    requires
        search_run(a, end, search_init(a, start, end), k).outcome is Some,
    ensures
        search_outcome(a, start, end) == search_run(a, end, search_init(a, start, end), k).outcome->Some_0,
{
    let s0 = search_init(a, start, end);
    let k2 = choose|k: nat| (#[trigger] search_run(a, end, s0, k)).outcome is Some;
    assert(search_run(a, end, s0, k2).outcome is Some);
    if k2 <= k {
        lemma_run_settled(a, end, s0, k2, k);
    } else {
        lemma_run_settled(a, end, s0, k, k2);
    }
}

/// Follows the predecessor links from `current` back to the start and returns
/// the cells in start-to-`current` order.
fn reconstruct_path<A: GridAdapter>(
    Ghost(a): Ghost<&A>,
    Ghost(ext): Ghost<(usize, usize)>,
    Ghost(start): Ghost<Pos>,
    Ghost(end): Ghost<Pos>,
    Ghost(g): Ghost<Seq<Option<usize>>>,
    Ghost(closed): Ghost<Seq<bool>>,
    Ghost(open): Ghost<Seq<Node>>,
    came_from: &Vec<Option<Pos>>,
    width: usize,
    current: Pos,
) -> (r: Vec<Pos>)
    requires
        width == ext.0,
        ext.0 * ext.1 <= usize::MAX,
        search_core(a, ext, start, end, g, came_from@, closed, open),
        in_ext(ext, current),
        at(g, width, current) is Some,
    ensures
        is_route(a, r@, start, current),
        current == start ==> r@ == seq![start],
        r@.no_duplicates(),
        walk_cost(a, r@) == at(g, width, current)->Some_0,
        r@ == back_chain(g, came_from@, width, current),
        at(came_from@, width, r@[0]) is None,
        forall|i: int| 1 <= i < r@.len() ==> at(came_from@, width, #[trigger] r@[i]) == Some(r@[i - 1]),
{
    let w = width;
    let mut rev: Vec<Pos> = vec![current];
    let mut cur = current;
    proof {
        lemma_row_index(w as int, ext.1 as int, cur.0 as int, cur.1 as int);
    }
    while came_from[cur.1 * w + cur.0].is_some()
        invariant
            w == ext.0,
            ext.0 * ext.1 <= usize::MAX,
            search_core(a, ext, start, end, g, came_from@, closed, open),
            in_ext(ext, cur),
            0 <= cur.1 * w <= cur.1 * w + cur.0 < ext.0 * ext.1,
            at(g, w, cur) is Some,
            rev@.len() >= 1,
            rev@[0] == current,
            rev@.last() == cur,
            current == start ==> rev@.len() == 1,
            forall|i: int| 0 <= i < rev@.len() ==> a.valid_spec(#[trigger] rev@[i]),
            forall|i: int|
                #![trigger rev@[i]]
                0 <= i < rev@.len() - 1 ==> a.adjacent_spec(rev@[i + 1], rev@[i]),
            forall|i: int| 0 <= i < rev@.len() ==> in_ext(ext, #[trigger] rev@[i]) && at(g, w, rev@[i]) is Some,
            forall|i: int, j: int|
                0 <= i < j < rev@.len() ==> at(g, w, #[trigger] rev@[j])->Some_0 < at(g, w, #[trigger] rev@[i])->Some_0,
            forall|i: int|
                #![trigger rev@[i]]
                0 <= i < rev@.len() - 1 ==> at(came_from@, w, rev@[i]) == Some(rev@[i + 1]),
        decreases at(g, w, cur)->Some_0,
    {
        proof {
            lemma_row_index(w as int, ext.1 as int, cur.0 as int, cur.1 as int);
        }
        let prev = came_from[cur.1 * w + cur.0].unwrap();
        assert(at(came_from@, w, cur) is Some);
        let ghost old_rev = rev@;
        rev.push(prev);
        proof {
            assert(cur != start);
            assert forall|i: int, j: int|
                0 <= i < j < rev@.len() implies at(g, w, #[trigger] rev@[j])->Some_0 < at(
                g,
                w,
                #[trigger] rev@[i],
            )->Some_0 by {
                if j == rev@.len() - 1 {
                    assert(rev@[j] == prev);
                    assert(old_rev[old_rev.len() - 1] == cur);
                    if i < old_rev.len() - 1 {
                        assert(old_rev[i] == rev@[i]);
                        assert(at(g, w, old_rev[old_rev.len() - 1])->Some_0 < at(g, w, old_rev[i])->Some_0);
                    }
                } else {
                    assert(old_rev[i] == rev@[i] && old_rev[j] == rev@[j]);
                }
            }
            assert forall|i: int|
                #![trigger rev@[i]]
                0 <= i < rev@.len() - 1 implies at(came_from@, w, rev@[i]) == Some(rev@[i + 1]) by {
                if i < old_rev.len() - 1 {
                    assert(old_rev[i] == rev@[i] && old_rev[i + 1] == rev@[i + 1]);
                } else {
                    assert(rev@[i] == cur);
                }
            }
        }
        cur = prev;
        proof {
            lemma_row_index(w as int, ext.1 as int, cur.0 as int, cur.1 as int);
        }
    }
    assert(at(came_from@, w, cur) is None);
    assert(cur == start);
    let mut out: Vec<Pos> = Vec::new();
    let mut i = rev.len();
    while i > 0
        invariant
            i <= rev@.len(),
            out@.len() == rev@.len() - i,
            forall|k: int| 0 <= k < out@.len() ==> #[trigger] out@[k] == rev@[rev@.len() - 1 - k],
        decreases i,
    {
        i -= 1;
        out.push(rev[i]);
    }
    proof {
        let n = rev@.len() as int;
        assert forall|k: int| 0 <= k < out@.len() implies a.valid_spec(#[trigger] out@[k]) by {
            assert(out@[k] == rev@[n - 1 - k]);
        }
        assert forall|k: int|
            #![trigger out@[k]]
            0 <= k < out@.len() - 1 implies a.adjacent_spec(out@[k], out@[k + 1]) by {
            assert(out@[k] == rev@[n - 1 - k]);
            assert(out@[k + 1] == rev@[n - 2 - k]);
            assert(rev@[(n - 2 - k) + 1] == rev@[n - 1 - k]);
        }
        assert(out@[0] == rev@[n - 1]);
        assert(out@[out@.len() - 1] == rev@[0]);
        if current == start {
            assert(out@ =~= seq![start]);
        }
        assert forall|i: int, j: int| 0 <= i < out@.len() && 0 <= j < out@.len() && i != j implies out@[i]
            != out@[j] by {
            assert(out@[i] == rev@[n - 1 - i] && out@[j] == rev@[n - 1 - j]);
            if n - 1 - i < n - 1 - j {
                assert(at(g, w, rev@[n - 1 - j])->Some_0 < at(g, w, rev@[n - 1 - i])->Some_0);
            } else {
                assert(at(g, w, rev@[n - 1 - i])->Some_0 < at(g, w, rev@[n - 1 - j])->Some_0);
            }
        }
        assert forall|i: int| 1 <= i < out@.len() implies at(came_from@, width, #[trigger] out@[i]) == Some(
            out@[i - 1],
        ) by {
            assert(out@[i] == rev@[n - 1 - i]);
            assert(out@[i - 1] == rev@[(n - 1 - i) + 1]);
        }
        assert forall|i: int| 0 <= i < out@.len() implies in_ext(ext, #[trigger] out@[i]) && at(
            g,
            w,
            out@[i],
        ) is Some by {
            assert(out@[i] == rev@[n - 1 - i]);
        }
        lemma_chain_cost(a, ext, start, end, g, came_from@, closed, open, out@, out@.len() - 1);
        assert(out@.take(out@.len() as int) =~= out@);
        lemma_back_chain(a, ext, start, end, g, came_from@, closed, open, out@);
    }
    out
}

/// A sequence of predecessor links that starts at a cell without one is the
/// back chain of its last cell.
proof fn lemma_back_chain<A: GridAdapter>(
    a: &A,
    ext: (usize, usize),
    start: Pos,
    end: Pos,
    g: Seq<Option<usize>>,
    came: Seq<Option<Pos>>,
    closed: Seq<bool>,
    open: Seq<Node>,
    out: Seq<Pos>,
)
    requires
        search_core(a, ext, start, end, g, came, closed, open),
        out.len() >= 1,
        at(came, ext.0, out[0]) is None,
        forall|i: int| 0 <= i < out.len() ==> in_ext(ext, #[trigger] out[i]) && at(g, ext.0, out[i]) is Some,
        forall|i: int| 1 <= i < out.len() ==> at(came, ext.0, #[trigger] out[i]) == Some(out[i - 1]),
    ensures
        back_chain(g, came, ext.0, out.last()) == out,
    decreases out.len(),
{
    let n = out.len();
    if n == 1 {
        assert(back_chain(g, came, ext.0, out.last()) == seq![out[0]]);
        assert(out =~= seq![out[0]]);
    } else {
        let d = out.drop_last();
        assert forall|i: int| 0 <= i < d.len() implies in_ext(ext, #[trigger] d[i]) && at(g, ext.0, d[i]) is Some by {
            assert(d[i] == out[i]);
        }
        assert forall|i: int| 1 <= i < d.len() implies at(came, ext.0, #[trigger] d[i]) == Some(d[i - 1]) by {
            assert(d[i] == out[i] && d[i - 1] == out[i - 1]);
        }
        lemma_back_chain(a, ext, start, end, g, came, closed, open, d);
        let last = out[n - 1];
        assert(at(came, ext.0, last) == Some(out[n - 2]));
        assert(last != start);
        assert(at(g, ext.0, out[n - 2])->Some_0 < at(g, ext.0, last)->Some_0);
        assert(d.last() == out[n - 2]);
        assert(out =~= d.push(last));
    }
}

/// Along predecessor links from the start, the cost of each prefix is the cost
/// recorded for its last cell.
proof fn lemma_chain_cost<A: GridAdapter>(
    a: &A,
    ext: (usize, usize),
    start: Pos,
    end: Pos,
    g: Seq<Option<usize>>,
    came: Seq<Option<Pos>>,
    closed: Seq<bool>,
    open: Seq<Node>,
    out: Seq<Pos>,
    k: int,
)
    requires
        search_core(a, ext, start, end, g, came, closed, open),
        0 <= k < out.len(),
        out[0] == start,
        forall|i: int| 0 <= i < out.len() ==> in_ext(ext, #[trigger] out[i]) && at(g, ext.0, out[i]) is Some,
        forall|i: int| 1 <= i < out.len() ==> at(came, ext.0, #[trigger] out[i]) == Some(out[i - 1]),
    ensures
        walk_cost(a, out.take(k + 1)) == at(g, ext.0, out[k])->Some_0,
    decreases k,
{
    if k > 0 {
        lemma_chain_cost(a, ext, start, end, g, came, closed, open, out, k - 1);
        let t = out.take(k + 1);
        assert(t.drop_last() =~= out.take(k));
        assert(t[k - 1] == out[k - 1] && t[k] == out[k]);
        assert(at(came, ext.0, out[k]) == Some(out[k - 1]));
        assert(out[k] != start);
    }
}

/// With the open list empty, every walk from the start stays on discovered
/// cells.
proof fn lemma_walk_discovered<A: GridAdapter>(
    a: &A,
    ext: (usize, usize),
    start: Pos,
    end: Pos,
    g: Seq<Option<usize>>,
    came: Seq<Option<Pos>>,
    closed: Seq<bool>,
    open: Seq<Node>,
    p: Seq<Pos>,
    i: int,
)
    requires
        search_core(a, ext, start, end, g, came, closed, open),
        expanded(a, ext, g, closed, None),
        open.len() == 0,
        is_walk(a, p),
        p[0] == start,
        0 <= i < p.len(),
    ensures
        in_ext(ext, p[i]),
        at(g, ext.0, p[i]) is Some,
        at(closed, ext.0, p[i]),
    decreases i,
{
    assert(a.valid_spec(p[i]));
    if i > 0 {
        lemma_walk_discovered(a, ext, start, end, g, came, closed, open, p, i - 1);
        assert(a.adjacent_spec(p[i - 1], p[i]));
    }
    if !at(closed, ext.0, p[i]) {
        assert(in_open(open, p[i]));
    }
}

/// With the open list empty, the goal cannot be reached.
proof fn lemma_unreachable<A: GridAdapter>(
    a: &A,
    ext: (usize, usize),
    start: Pos,
    end: Pos,
    g: Seq<Option<usize>>,
    came: Seq<Option<Pos>>,
    closed: Seq<bool>,
    open: Seq<Node>,
)
    requires
        search_core(a, ext, start, end, g, came, closed, open),
        expanded(a, ext, g, closed, None),
        open.len() == 0,
    ensures
        !reachable(a, start, end),
{
    if reachable(a, start, end) {
        let p = choose|p: Seq<Pos>| is_route(a, p, start, end);
        lemma_walk_discovered(a, ext, start, end, g, came, closed, open, p, p.len() - 1);
    }
}

/// A* search over any neighbourhood oracle. Returns a walk from `start` to
/// `end`, both included, with no cell repeated, or `None` when either end is
/// invalid or no walk exists. Entries are taken by lowest estimate, then by
/// the lexicographically smallest cell; closed cells are not reopened. When
/// the heuristic is consistent for the oracle, the walk has least cost.
pub fn a_star_with_adapter<A: GridAdapter>(adapter: &A, start: Pos, end: Pos) -> (r: Option<
    Vec<Pos>,
>)
    requires
        adapter.wf_spec(),
        search_fits(adapter.extent_spec()),
    ensures
        r matches Some(p) ==> is_route(adapter, p@, start, end) && p@.no_duplicates(),
        r is Some <==> reachable(adapter, start, end),
        start == end && adapter.valid_spec(start) ==> (r matches Some(p) && p@ == seq![start]),
        consistent(adapter, end) ==> (r matches Some(p) ==> forall|q: Seq<Pos>|
            #[trigger] is_route(adapter, q, start, end) ==> walk_cost(adapter, p@) <= walk_cost(adapter, q)),
        route_view(r) == search_outcome(adapter, start, end),
{
    if !adapter.is_valid_position(start) || !adapter.is_valid_position(end) {
        proof {
            lemma_outcome_at(adapter, start, end, 0);
            if reachable(adapter, start, end) {
                let p = choose|p: Seq<Pos>| is_route(adapter, p, start, end);
                assert(adapter.valid_spec(p[0]));
                assert(adapter.valid_spec(p[p.len() - 1]));
            }
        }
        return None;
    }
    let ext = adapter.dimensions();
    let w = ext.0;
    let h = ext.1;
    let n = w * h;
    let mut g: Vec<Option<usize>> = vec![None; n];
    let mut came_from: Vec<Option<Pos>> = vec![None; n];
    let mut closed: Vec<bool> = vec![false; n];
    let ghost s0 = search_init(adapter, start, end);
    proof {
        assert(g@ =~= Seq::new(n as nat, |i: int| None::<usize>));
        assert(came_from@ =~= Seq::new(n as nat, |i: int| None::<Pos>));
        assert(closed@ =~= Seq::new(n as nat, |i: int| false));
        lemma_row_index(w as int, h as int, start.0 as int, start.1 as int);
        lemma_row_index(w as int, h as int, end.0 as int, end.1 as int);
        lemma_at_update(g@, w, h, start, Some(0usize));
        assert(manhattan(start, end) <= w + h);
        assert(HEURISTIC_SCALE * manhattan(start, end) <= HEURISTIC_SCALE * (w + h)) by (nonlinear_arith)
            requires
                manhattan(start, end) <= w + h,
        ;
    }
    g.set(start.1 * w + start.0, Some(0));
    let mut open: Vec<Node> = Vec::new();
    open.push(Node { pos: start, f_cost: heuristic(start, end) });
    proof {
        assert(open@[0].pos == start);
        assert forall|p: Pos| in_ext(ext, p) implies !#[trigger] at(closed@, w, p) by {
            lemma_row_index(w as int, h as int, p.0 as int, p.1 as int);
        }
        assert forall|p: Pos| in_ext(ext, p) && p != start implies #[trigger] at(g@, w, p) is None by {
            lemma_row_index(w as int, h as int, p.0 as int, p.1 as int);
        }
        assert(count_true(closed@) == 0) by {
            lemma_count_zero(closed@);
        }
        assert(open@ =~= s0.open);
    }
    let ghost mut rounds: nat = 0;
    while open.len() > 0
        invariant
            adapter.wf_spec(),
            ext == adapter.extent_spec(),
            w == ext.0,
            h == ext.1,
            n == w * h,
            search_fits(ext),
            in_ext(ext, end),
            search_core(adapter, ext, start, end, g@, came_from@, closed@, open@),
            expanded(adapter, ext, g@, closed@, None),
            relaxed(adapter, ext, g@, closed@, None),
            consistent(adapter, end) ==> optimal(adapter, ext, start, g@, closed@),
            s0 == search_init(adapter, start, end),
            search_run(adapter, end, s0, rounds) == (SearchState {
                g: g@,
                came: came_from@,
                closed: closed@,
                open: open@,
                outcome: None,
            }),
        decreases n - count_true(closed@), open@.len(),
    {
        let m = select_next(&open);
        let ghost open_before = open@;
        let ghost state = search_run(adapter, end, s0, rounds);
        proof {
            lemma_pick_unique(open@, m as int);
        }
        let current = open.remove(m);
        let c = current.pos;
        proof {
            assert(in_ext(ext, c));
            lemma_row_index(w as int, h as int, c.0 as int, c.1 as int);
            lemma_count_le(closed@);
        }
        proof {
            assert forall|j: int| 0 <= j < open_before.len() implies open_before[m as int].f_cost
                <= #[trigger] open_before[j].f_cost by {
                assert(!precedes_spec(open_before[j], open_before[m as int]));
            }
            if consistent(adapter, end) && !at(closed@, w, c) {
                assert forall|q: Seq<Pos>| #[trigger] is_route(adapter, q, start, c) implies at(g@, w, c)->Some_0
                    <= walk_cost(adapter, q) by {
                    lemma_taken_is_optimal(
                        adapter,
                        ext,
                        start,
                        end,
                        g@,
                        came_from@,
                        closed@,
                        open_before,
                        m as int,
                        q,
                    );
                }
            }
        }
        if c.0 == end.0 && c.1 == end.1 {
            let path = reconstruct_path::<A>(
                Ghost(adapter),
                Ghost(ext),
                Ghost(start),
                Ghost(end),
                Ghost(g@),
                Ghost(closed@),
                Ghost(open_before),
                &came_from,
                w,
                c,
            );
            proof {
                assert(search_run(adapter, end, s0, rounds + 1) == search_step(adapter, end, state));
                lemma_outcome_at(adapter, start, end, rounds + 1);
            }
            return Some(path);
        }
        let kc = c.1 * w + c.0;
        if closed[kc] {
            proof {
                lemma_remove_closed(adapter, ext, start, end, g@, came_from@, closed@, open_before, m as int);
                assert(search_run(adapter, end, s0, rounds + 1) == search_step(adapter, end, state));
                rounds = rounds + 1;
            }
            continue;
        }
        assert(at(g@, w, c) is Some);
        let gc = g[kc].unwrap();
        proof {
            lemma_close(adapter, ext, start, end, g@, came_from@, closed@, open_before, c);
        }
        closed.set(kc, true);
        proof {
            lemma_remove_closed(adapter, ext, start, end, g@, came_from@, closed@, open_before, m as int);
            assert(MAX_STEP_COST * count_true(closed@) <= MAX_STEP_COST * n) by (nonlinear_arith)
                requires
                    count_true(closed@) <= n,
            ;
        }
        let ghost closed_count = count_true(closed@);
        let neighbors = adapter.get_neighbors(c);
        let ghost g0 = g@;
        let ghost came0 = came_from@;
        let ghost open1 = open@;
        proof {
            assert(state.open.remove(m as int) == open1);
            assert(closed@ == state.closed.update(c.1 * w + c.0, true));
            assert(relax_upto(adapter, w, end, closed@, (g0, came0, open1), c, gc, neighbors@, 0) == (
            g0, came0, open1));
        }
        let mut i: usize = 0;
        while i < neighbors.len()
            invariant
                (g@, came_from@, open@) == relax_upto(
                    adapter,
                    w,
                    end,
                    closed@,
                    (g0, came0, open1),
                    c,
                    gc,
                    neighbors@,
                    i as int,
                ),
                adapter.wf_spec(),
                ext == adapter.extent_spec(),
                w == ext.0,
                h == ext.1,
                n == w * h,
                search_fits(ext),
                in_ext(ext, end),
                in_ext(ext, c),
                c != end,
                at(g@, w, c) == Some(gc),
                at(closed@, w, c),
                closed_count == count_true(closed@),
                1 <= closed_count <= n,
                gc <= MAX_STEP_COST * (closed_count - 1),
                i <= neighbors@.len(),
                forall|q: Pos| #[trigger]
                    neighbors@.contains(q) <==> (adapter.adjacent_spec(c, q) && adapter.valid_spec(q)),
                forall|k: int| 0 <= k < i ==> #[trigger] at(g@, w, neighbors@[k]) is Some,
                search_core(adapter, ext, start, end, g@, came_from@, closed@, open@),
                expanded(adapter, ext, g@, closed@, Some(c)),
                relaxed(adapter, ext, g@, closed@, Some(c)),
                consistent(adapter, end) ==> optimal(adapter, ext, start, g@, closed@),
                forall|k: int|
                    0 <= k < i && !at(closed@, w, #[trigger] neighbors@[k]) ==> at(g@, w, neighbors@[k])->Some_0
                        <= gc + adapter.cost_spec(c, neighbors@[k]),
            decreases neighbors@.len() - i,
        {
            let q = neighbors[i];
            proof {
                assert(neighbors@.contains(q));
                assert(in_ext(ext, q));
                lemma_row_index(w as int, h as int, q.0 as int, q.1 as int);
            }
            let kq = q.1 * w + q.0;
            let ghost before = (g@, came_from@, open@);
            proof {
                assert(relax_upto(adapter, w, end, closed@, (g0, came0, open1), c, gc, neighbors@, i + 1)
                    == relax_one(adapter, w, end, closed@, before, c, gc, q));
            }
            if !closed[kq] {
                let cost = adapter.movement_cost(c, q);
                proof {
                    assert(MAX_STEP_COST * (closed_count - 1) + MAX_STEP_COST == MAX_STEP_COST
                        * closed_count) by (nonlinear_arith);
                }
                let new_g = gc + cost;
                let better = match g[kq] {
                    Some(old_g) => new_g < old_g,
                    None => true,
                };
                if better {
                    proof {
                        assert(manhattan(q, end) <= w + h);
                        assert(HEURISTIC_SCALE * manhattan(q, end) <= HEURISTIC_SCALE * (w + h))
                            by (nonlinear_arith)
                            requires
                                manhattan(q, end) <= w + h,
                        ;
                    }
                    let f = new_g + heuristic(q, end);
                    let ghost open_prev = open@;
                    upsert_open(&mut open, q, f);
                    proof {
                        lemma_relax(
                            adapter,
                            ext,
                            start,
                            end,
                            g@,
                            came_from@,
                            closed@,
                            open_prev,
                            open@,
                            c,
                            q,
                            new_g,
                        );
                        lemma_at_update(g@, w, h, q, Some(new_g));
                    }
                    g.set(kq, Some(new_g));
                    came_from.set(kq, Some(c));
                    proof {
                        assert forall|k: int| 0 <= k < i implies #[trigger] at(
                            g@,
                            w,
                            neighbors@[k],
                        ) is Some by {
                            assert(neighbors@.contains(neighbors@[k]));
                        }
                        assert forall|k: int|
                            0 <= k < i && !at(closed@, w, #[trigger] neighbors@[k]) implies at(
                            g@,
                            w,
                            neighbors@[k],
                        )->Some_0 <= gc + adapter.cost_spec(c, neighbors@[k]) by {
                            assert(neighbors@.contains(neighbors@[k]));
                        }
                    }
                }
            }
            proof {
                if at(closed@, w, q) {
                }
                assert(at(g@, w, q) is Some);
                assert forall|k: int| 0 <= k < i + 1 implies #[trigger] at(g@, w, neighbors@[k]) is Some by {
                    if k == i {
                        assert(neighbors@[k] == q);
                    }
                }
                assert forall|k: int|
                    0 <= k < i + 1 && !at(closed@, w, #[trigger] neighbors@[k]) implies at(g@, w, neighbors@[k])->Some_0
                        <= gc + adapter.cost_spec(c, neighbors@[k]) by {
                    if k == i {
                        assert(neighbors@[k] == q);
                    }
                }
            }
            i += 1;
        }
        proof {
            assert forall|p: Pos, r: Pos|
                #![trigger at(closed@, ext.0, p), adapter.adjacent_spec(p, r)]
                in_ext(ext, p) && at(closed@, ext.0, p) && None::<Pos> != Some(p)
                    && adapter.adjacent_spec(p, r) && adapter.valid_spec(r) implies at(
                g@,
                ext.0,
                r,
            ) is Some by {
                if p == c {
                    assert(neighbors@.contains(r));
                    let k = choose|k: int| 0 <= k < neighbors@.len() && neighbors@[k] == r;
                    assert(at(g@, w, neighbors@[k]) is Some);
                }
            }
            assert forall|p: Pos, r: Pos|
                #![trigger at(closed@, ext.0, p), adapter.adjacent_spec(p, r)]
                in_ext(ext, p) && at(closed@, ext.0, p) && None::<Pos> != Some(p)
                    && adapter.adjacent_spec(p, r) && adapter.valid_spec(r) && !at(closed@, ext.0, r) implies at(
                g@,
                ext.0,
                r,
            )->Some_0 <= at(g@, ext.0, p)->Some_0 + adapter.cost_spec(p, r) by {
                if p == c {
                    assert(neighbors@.contains(r));
                    let k = choose|k: int| 0 <= k < neighbors@.len() && neighbors@[k] == r;
                    assert(!at(closed@, w, neighbors@[k]));
                }
            }            assert(neighbors@ == adapter.neighbors_spec(c));
            assert(pick(state.open) == m);
            assert(state.open[m as int].pos == c);
            assert(g0 == state.g && came0 == state.came);
            assert(gc == at(state.g, w, c)->Some_0);
            assert(search_run(adapter, end, s0, rounds + 1) == search_step(adapter, end, state));
            rounds = rounds + 1;
        }
    }
    proof {
        lemma_unreachable(adapter, ext, start, end, g@, came_from@, closed@, open@);
        assert(search_run(adapter, end, s0, rounds + 1) == search_step(adapter, end, search_run(adapter, end, s0, rounds)));
        lemma_outcome_at(adapter, start, end, rounds + 1);
    }
    None
}

/// Dropping an entry of a closed cell from the open list keeps the state.
proof fn lemma_remove_closed<A: GridAdapter>(
    a: &A,
    ext: (usize, usize),
    start: Pos,
    end: Pos,
    g: Seq<Option<usize>>,
    came: Seq<Option<Pos>>,
    closed: Seq<bool>,
    open: Seq<Node>,
    m: int,
)
    requires
        search_core(a, ext, start, end, g, came, closed, open),
        0 <= m < open.len(),
        at(closed, ext.0, open[m].pos),
    ensures
        search_core(a, ext, start, end, g, came, closed, open.remove(m)),
{
    let w = ext.0;
    let o2 = open.remove(m);
    assert forall|p: Pos|
        in_ext(ext, p) && #[trigger] at(g, w, p) is Some && !at(closed, w, p) implies in_open(o2, p) by {
        assert(in_open(open, p));
        let j = choose|j: int| 0 <= j < open.len() && open[j].pos == p;
        if j < m {
            assert(o2[j] == open[j]);
        } else {
            assert(j != m);
            assert(o2[j - 1] == open[j]);
        }
    }
    assert forall|j: int| 0 <= j < o2.len() implies in_ext(ext, #[trigger] o2[j].pos) && at(
        g,
        w,
        o2[j].pos,
    ) is Some by {
        if j < m {
            assert(o2[j] == open[j]);
        } else {
            assert(o2[j] == open[j + 1]);
        }
    }
}

/// Closing a discovered, open cell other than the goal keeps the state; the
/// cell itself is not yet expanded.
proof fn lemma_close<A: GridAdapter>(
    a: &A,
    ext: (usize, usize),
    start: Pos,
    end: Pos,
    g: Seq<Option<usize>>,
    came: Seq<Option<Pos>>,
    closed: Seq<bool>,
    open: Seq<Node>,
    c: Pos,
)
    requires
        search_core(a, ext, start, end, g, came, closed, open),
        expanded(a, ext, g, closed, None),
        ext.0 * ext.1 <= usize::MAX,
        in_ext(ext, c),
        at(g, ext.0, c) is Some,
        !at(closed, ext.0, c),
        c != end,
        relaxed(a, ext, g, closed, None),
        consistent(a, end) ==> optimal(a, ext, start, g, closed),
        consistent(a, end) ==> forall|q: Seq<Pos>| #[trigger]
            is_route(a, q, start, c) ==> at(g, ext.0, c)->Some_0 <= walk_cost(a, q),
    ensures
        search_core(a, ext, start, end, g, came, closed.update(c.1 * ext.0 + c.0, true), open),
        expanded(a, ext, g, closed.update(c.1 * ext.0 + c.0, true), Some(c)),
        relaxed(a, ext, g, closed.update(c.1 * ext.0 + c.0, true), Some(c)),
        consistent(a, end) ==> optimal(a, ext, start, g, closed.update(c.1 * ext.0 + c.0, true)),
        count_true(closed.update(c.1 * ext.0 + c.0, true)) == count_true(closed) + 1,
        count_true(closed) + 1 <= ext.0 * ext.1,
{
    let w = ext.0;
    let k = c.1 * w + c.0;
    let cl2 = closed.update(k, true);
    lemma_row_index(w as int, ext.1 as int, c.0 as int, c.1 as int);
    lemma_at_update(closed, w, ext.1, c, true);
    lemma_count_set(closed, k);
    lemma_count_le(cl2);
    assert forall|p: Pos|
        in_ext(ext, p) && #[trigger] at(g, w, p) is Some implies at(g, w, p)->Some_0 <= MAX_STEP_COST
        * count_true(cl2) by {
        assert(MAX_STEP_COST * count_true(closed) <= MAX_STEP_COST * count_true(cl2));
    }
    assert forall|p: Pos, q: Pos|
        #![trigger at(cl2, ext.0, p), a.adjacent_spec(p, q)]
        in_ext(ext, p) && at(cl2, ext.0, p) && Some(c) != Some(p) && a.adjacent_spec(p, q)
            && a.valid_spec(q) && !at(cl2, ext.0, q) implies at(g, ext.0, q)->Some_0 <= at(
            g,
            ext.0,
            p,
        )->Some_0 + a.cost_spec(p, q) by {
        assert(in_ext(ext, q));
        assert(at(closed, w, p));
    }
    if consistent(a, end) {
        assert forall|nn: Pos, q: Seq<Pos>|
            #![trigger at(cl2, ext.0, nn), is_route(a, q, start, nn)]
            in_ext(ext, nn) && at(cl2, ext.0, nn) && is_route(a, q, start, nn) implies at(g, ext.0, nn)->Some_0
                <= walk_cost(a, q) by {
            if nn != c {
                assert(at(closed, w, nn));
            }
        }
    }
}

/// Lowering the cost of an unclosed neighbour `q` of the cell `c` being
/// expanded, with `c` as its predecessor, keeps the state.
proof fn lemma_relax<A: GridAdapter>(
    a: &A,
    ext: (usize, usize),
    start: Pos,
    end: Pos,
    g: Seq<Option<usize>>,
    came: Seq<Option<Pos>>,
    closed: Seq<bool>,
    open: Seq<Node>,
    open2: Seq<Node>,
    c: Pos,
    q: Pos,
    new_g: usize,
)
    requires
        search_core(a, ext, start, end, g, came, closed, open),
        expanded(a, ext, g, closed, Some(c)),
        ext.0 * ext.1 <= usize::MAX,
        in_ext(ext, c),
        at(g, ext.0, c) is Some,
        at(closed, ext.0, c),
        in_ext(ext, q),
        a.valid_spec(q),
        a.adjacent_spec(c, q),
        !at(closed, ext.0, q),
        at(g, ext.0, c)->Some_0 < new_g,
        new_g <= MAX_STEP_COST * count_true(closed),
        at(g, ext.0, q) is Some ==> new_g < at(g, ext.0, q)->Some_0,
        new_g == at(g, ext.0, c)->Some_0 + a.cost_spec(c, q),
        open2.len() >= open.len(),
        forall|j: int| 0 <= j < open.len() ==> #[trigger] open2[j].pos == open[j].pos,
        forall|j: int|
            0 <= j < open.len() ==> #[trigger] open2[j] == if open[j].pos == q {
                (Node { pos: q, f_cost: (new_g + HEURISTIC_SCALE * manhattan(q, end)) as usize })
            } else {
                open[j]
            },
        forall|j: int|
            open.len() <= j < open2.len() ==> #[trigger] open2[j] == (Node {
                pos: q,
                f_cost: (new_g + HEURISTIC_SCALE * manhattan(q, end)) as usize,
            }),
        in_open(open2, q),
        distinct_pos(open2),
        new_g + HEURISTIC_SCALE * manhattan(q, end) <= usize::MAX,
        relaxed(a, ext, g, closed, Some(c)),
        consistent(a, end) ==> optimal(a, ext, start, g, closed),
    ensures
        relaxed(a, ext, g.update(q.1 * ext.0 + q.0, Some(new_g)), closed, Some(c)),
        consistent(a, end) ==> optimal(a, ext, start, g.update(q.1 * ext.0 + q.0, Some(new_g)), closed),
        search_core(
            a,
            ext,
            start,
            end,
            g.update(q.1 * ext.0 + q.0, Some(new_g)),
            came.update(q.1 * ext.0 + q.0, Some(c)),
            closed,
            open2,
        ),
        expanded(a, ext, g.update(q.1 * ext.0 + q.0, Some(new_g)), closed, Some(c)),
{
    let w = ext.0;
    let k = q.1 * w + q.0;
    let g2 = g.update(k, Some(new_g));
    let came2 = came.update(k, Some(c));
    lemma_row_index(w as int, ext.1 as int, q.0 as int, q.1 as int);
    lemma_at_update(g, w, ext.1, q, Some(new_g));
    lemma_at_update(came, w, ext.1, q, Some(c));
    assert(q != start);
    assert forall|p: Pos|
        in_ext(ext, p) && #[trigger] at(g2, w, p) is Some && !at(closed, w, p) implies in_open(
        open2,
        p,
    ) by {
        if p != q {
            assert(in_open(open, p));
            let j = choose|j: int| 0 <= j < open.len() && open[j].pos == p;
            assert(open2[j].pos == p);
        }
    }
    assert forall|j: int| 0 <= j < open2.len() implies in_ext(ext, #[trigger] open2[j].pos) && at(
        g2,
        w,
        open2[j].pos,
    ) is Some by {
        if j < open.len() {
            assert(open2[j].pos == open[j].pos);
        }
    }
    assert forall|j: int| 0 <= j < open2.len() implies #[trigger] open2[j].f_cost == at(
        g2,
        w,
        open2[j].pos,
    )->Some_0 + HEURISTIC_SCALE * manhattan(open2[j].pos, end) by {
        if j < open.len() {
            assert(open2[j].pos == open[j].pos);
        }
    }
    assert forall|p: Pos|
        #![trigger at(came2, w, p)]
        in_ext(ext, p) && p != start && at(g2, w, p) is Some implies {
        &&& at(came2, w, p) is Some
        &&& in_ext(ext, at(came2, w, p)->Some_0)
        &&& at(closed, w, at(came2, w, p)->Some_0)
        &&& at(g2, w, at(came2, w, p)->Some_0) is Some
        &&& a.adjacent_spec(at(came2, w, p)->Some_0, p)
        &&& at(g2, w, at(came2, w, p)->Some_0)->Some_0 < at(g2, w, p)->Some_0
    } by {
        if p != q {
            assert(at(came2, w, p) == at(came, w, p));
            assert(at(g, w, p) is Some);
            let pc = at(came, w, p)->Some_0;
            assert(at(closed, w, pc));
            assert(pc != q);
            assert(at(g2, w, pc) == at(g, w, pc));
        } else {
            assert(at(g2, w, c) == at(g, w, c));
        }
    }
    assert forall|p: Pos, r: Pos|
        #![trigger at(closed, ext.0, p), a.adjacent_spec(p, r)]
        in_ext(ext, p) && at(closed, ext.0, p) && Some(c) != Some(p) && a.adjacent_spec(p, r)
            && a.valid_spec(r) implies at(g2, ext.0, r) is Some by {
        assert(in_ext(ext, r));
        assert(at(g, ext.0, r) is Some);
    }
    assert forall|p: Pos, r: Pos|
        #![trigger at(closed, ext.0, p), a.adjacent_spec(p, r)]
        in_ext(ext, p) && at(closed, ext.0, p) && Some(c) != Some(p) && a.adjacent_spec(p, r)
            && a.valid_spec(r) && !at(closed, ext.0, r) implies at(g2, ext.0, r)->Some_0 <= at(
            g2,
            ext.0,
            p,
        )->Some_0 + a.cost_spec(p, r) by {
        assert(in_ext(ext, r));
        assert(p != q);
        assert(at(g, ext.0, r) is Some);
    }
    if consistent(a, end) {
        assert forall|nn: Pos, qq: Seq<Pos>|
            #![trigger at(closed, ext.0, nn), is_route(a, qq, start, nn)]
            in_ext(ext, nn) && at(closed, ext.0, nn) && is_route(a, qq, start, nn) implies at(g2, ext.0, nn)->Some_0
                <= walk_cost(a, qq) by {
            assert(nn != q);
        }
    }
}

/// A four-neighbour route on the map: non-empty, from `start` to `goal`, over
/// open tiles, each step moving one tile north, south, west or east.
pub open spec fn is_grid_route(grid: &Grid, p: Seq<Pos>, start: Pos, goal: Pos) -> bool {
    &&& p.len() > 0
    &&& p[0] == start
    &&& p.last() == goal
    &&& forall|i: int| 0 <= i < p.len() ==> !grid.blocked(#[trigger] p[i].0 as int, p[i].1 as int)
    &&& forall|i: int| #![trigger p[i]] 0 <= i < p.len() - 1 ==> manhattan(p[i], p[i + 1]) == 1
}

proof fn lemma_cardinal_step(a: Pos, b: Pos)
    ensures
        is_step(cardinal_offsets(), a, b) <==> manhattan(a, b) == 1,
{
    let offs = cardinal_offsets();
    if manhattan(a, b) == 1 {
        if b.1 + 1 == a.1 {
            assert(b.0 == a.0 + offs[0].0 && b.1 == a.1 + offs[0].1);
        } else if b.1 == a.1 + 1 {
            assert(b.0 == a.0 + offs[1].0 && b.1 == a.1 + offs[1].1);
        } else if b.0 + 1 == a.0 {
            assert(b.0 == a.0 + offs[2].0 && b.1 == a.1 + offs[2].1);
        } else {
            assert(b.0 == a.0 + offs[3].0 && b.1 == a.1 + offs[3].1);
        }
    }
}

proof fn lemma_cardinal_route(grid: &Grid, p: Seq<Pos>, start: Pos, goal: Pos)
    ensures
        is_route(&RectangularCardinalAdapter::new_spec(grid), p, start, goal) <==> is_grid_route(
            grid,
            p,
            start,
            goal,
        ),
{
    let a = RectangularCardinalAdapter::new_spec(grid);
    RectangularCardinalAdapter::lemma_new_spec(grid);
    assert forall|i: int| 0 <= i < p.len() - 1 implies #[trigger] a.adjacent_spec(p[i], p[i + 1])
        <==> manhattan(p[i], p[i + 1]) == 1 by {
        lemma_cardinal_step(p[i], p[i + 1]);
    }
    if is_grid_route(grid, p, start, goal) {
        assert forall|i: int|
            #![trigger p[i]]
            0 <= i < p.len() - 1 implies a.adjacent_spec(p[i], p[i + 1]) by {
            assert(a.adjacent_spec(p[i], p[i + 1]) <==> manhattan(p[i], p[i + 1]) == 1);
        }
        assert forall|i: int| 0 <= i < p.len() implies a.valid_spec(#[trigger] p[i]) by {
            assert(!grid.blocked(p[i].0 as int, p[i].1 as int));
        }
    }
    if is_route(&a, p, start, goal) {
        assert forall|i: int|
            #![trigger p[i]]
            0 <= i < p.len() - 1 implies manhattan(p[i], p[i + 1]) == 1 by {
            assert(a.adjacent_spec(p[i], p[i + 1]) <==> manhattan(p[i], p[i + 1]) == 1);
        }
        assert forall|i: int| 0 <= i < p.len() implies !grid.blocked(
            #[trigger] p[i].0 as int,
            p[i].1 as int,
        ) by {
            assert(a.valid_spec(p[i]));
        }
    }
}

proof fn lemma_cardinal_consistent(grid: &Grid, goal: Pos)
    ensures
        consistent(&RectangularCardinalAdapter::new_spec(grid), goal),
{
    let a = RectangularCardinalAdapter::new_spec(grid);
    assert forall|p: Pos, q: Pos|
        #[trigger] a.adjacent_spec(p, q) && a.valid_spec(p) && a.valid_spec(q) implies HEURISTIC_SCALE
        * manhattan(p, goal) <= a.cost_spec(p, q) + HEURISTIC_SCALE * manhattan(q, goal) by {
        lemma_cardinal_step(p, q);
        assert(manhattan(p, goal) <= 1 + manhattan(q, goal));
    }
}

proof fn lemma_cardinal_cost(grid: &Grid, q: Seq<Pos>)
    requires
        q.len() >= 1,
    ensures
        walk_cost(&RectangularCardinalAdapter::new_spec(grid), q) == STRAIGHT_COST * (q.len() - 1),
    decreases q.len(),
{
    if q.len() > 1 {
        lemma_cardinal_cost(grid, q.drop_last());
    }
}

/// A* with four-neighbour moves on a tile map.
pub fn a_star_search(grid: &Grid, start: Pos, end: Pos) -> (r: Option<Vec<Pos>>)
    requires
        grid.wf(),
        search_fits((grid.width, grid.height)),
    ensures
        r matches Some(p) ==> is_grid_route(grid, p@, start, end) && p@.no_duplicates(),
        r is Some <==> exists|p: Seq<Pos>| is_grid_route(grid, p, start, end),
        start == end && !grid.blocked(start.0 as int, start.1 as int) ==> (r matches Some(p)
            && p@ == seq![start]),
        r matches Some(p) ==> forall|q: Seq<Pos>| #[trigger]
            is_grid_route(grid, q, start, end) ==> p@.len() <= q.len(),
        route_view(r) == search_outcome(&RectangularCardinalAdapter::new_spec(grid), start, end),
{
    let adapter = RectangularCardinalAdapter::new(grid);
    let r = a_star_with_adapter(&adapter, start, end);
    proof {
        match &r {
            Some(p) => {
                lemma_cardinal_route(grid, p@, start, end);
                lemma_cardinal_consistent(grid, end);
                lemma_cardinal_cost(grid, p@);
                assert forall|q: Seq<Pos>| #[trigger] is_grid_route(grid, q, start, end) implies p@.len()
                    <= q.len() by {
                    lemma_cardinal_route(grid, q, start, end);
                    lemma_cardinal_cost(grid, q);
                }
            },
            None => {
                assert forall|p: Seq<Pos>| !is_grid_route(grid, p, start, end) by {
                    lemma_cardinal_route(grid, p, start, end);
                }
            },
        }
    }
    r
}

/// A strategy that plans a four-neighbour route on a tile map.
pub trait PathfindingAlgorithm {
    fn find_path(&self, grid: &Grid, start: Pos, end: Pos) -> (r: Option<Vec<Pos>>)
        requires
            grid.wf(),
            search_fits((grid.width, grid.height)),
        ensures
            r matches Some(p) ==> is_grid_route(grid, p@, start, end) && p@.no_duplicates(),
            r is Some <==> exists|p: Seq<Pos>| is_grid_route(grid, p, start, end),
            r matches Some(p) ==> forall|q: Seq<Pos>| #[trigger]
                is_grid_route(grid, q, start, end) ==> p@.len() <= q.len(),
            route_view(r) == search_outcome(&RectangularCardinalAdapter::new_spec(grid), start, end),
    ;
}

/// A* with four-neighbour moves.
pub struct AStarCardinal;

impl PathfindingAlgorithm for AStarCardinal {
    fn find_path(&self, grid: &Grid, start: Pos, end: Pos) -> (r: Option<Vec<Pos>>) {
        a_star_search(grid, start, end)
    }
}

proof fn lemma_count_zero(s: Seq<bool>)
    requires
        forall|i: int| 0 <= i < s.len() ==> !s[i],
    ensures
        count_true(s) == 0,
    decreases s.len(),
{
    if s.len() > 0 {
        lemma_count_zero(s.drop_last());
    }
}

} // verus!
