use vstd::prelude::*;
use crate::grid::Pos;

verus! {

/// Side of a square tile, in pixels.
pub const CELL_SIZE: usize = 20;

/// Pixel centre of square tile `p`: `(x + 1/2, y + 1/2) * CELL_SIZE`.
pub open spec fn center_spec(p: Pos) -> (int, int) {
    (p.0 * CELL_SIZE + CELL_SIZE / 2, p.1 * CELL_SIZE + CELL_SIZE / 2)
}

/// Pixel centre of a square tile.
pub fn grid_to_screen_center(pos: Pos) -> (r: (usize, usize))
    requires
        pos.0 * CELL_SIZE + CELL_SIZE <= usize::MAX,
        pos.1 * CELL_SIZE + CELL_SIZE <= usize::MAX,
    ensures
        r.0 == center_spec(pos).0,
        r.1 == center_spec(pos).1,
{
    let x = pos.0;
    let y = pos.1;
    (x * CELL_SIZE + CELL_SIZE / 2, y * CELL_SIZE + CELL_SIZE / 2)
}

/// The square tile that holds pixel `(x, y)`.
pub fn screen_to_grid(x: usize, y: usize) -> (r: Pos)
    ensures
        r.0 == x as int / (CELL_SIZE as int),
        r.1 == y as int / (CELL_SIZE as int),
{
    (x / CELL_SIZE, y / CELL_SIZE)
}

/// The tile's centre lies in the tile: projecting a tile to its pixel centre
/// and back gives the same tile.
pub proof fn lemma_center_round_trip(p: Pos)
    ensures
        center_spec(p).0 / (CELL_SIZE as int) == p.0,
        center_spec(p).1 / (CELL_SIZE as int) == p.1,
{
    let c = CELL_SIZE as int;
    assert((p.0 * c + c / 2) / c == p.0) by (nonlinear_arith)
        requires
            c == 20,
            p.0 >= 0,
    ;
    assert((p.1 * c + c / 2) / c == p.1) by (nonlinear_arith)
        requires
            c == 20,
            p.1 >= 0,
    ;
}

} // verus!
