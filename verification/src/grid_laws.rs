//! What holds of the grid whatever is done to it.
use crate::grid::{default_end, valid_size, GridView};
use crate::tile::{Sprite, TileType};
use vstd::prelude::*;

verus! {

/// A new grid is well formed and has exactly one start and one end.
pub proof fn lemma_fresh_marked(size: usize)
    requires
        valid_size(size),
    ensures
        GridView::fresh(size).wf(),
        GridView::fresh(size).marked(),
{
    let view = GridView::fresh(size);
    assert forall|x: int, y: int| 0 <= x < size && 0 <= y < size implies {
        &&& (#[trigger] view.cells[y][x]).position == (x as usize, y as usize)
        &&& view.cells[y][x].entity == crate::grid::entity_at(size as int, x, y)
    } by {
        crate::grid::lemma_entity_bound(size as int, x, y);
    }
}

/// Resetting a grid a second time changes nothing: neither a tile nor a
/// marker, nor the colour of any sprite.
pub proof fn lemma_reset_idempotent(grid: GridView, sprites: Seq<Sprite>)
    requires
        grid.shaped(),
    ensures
        grid.reset().reset() == grid.reset(),
        grid.reset().reset().repainted(
            grid.reset().repainted(sprites, false, grid.size * grid.size),
            false,
            grid.size * grid.size,
        ) == grid.reset().repainted(sprites, false, grid.size * grid.size),
{
    let once = grid.reset();
    let twice = once.reset();
    assert(twice.cells =~~= once.cells);
    let tiles = grid.size * grid.size;
    assert(twice.repainted(once.repainted(sprites, false, tiles), false, tiles) =~= once.repainted(
        sprites,
        false,
        tiles,
    ));
}

/// A reset grid is well formed, has no wall, and has exactly one start, at
/// `(1, 1)`, and one end, at `default_end`.
pub proof fn lemma_reset_marked(grid: GridView)
    requires
        grid.shaped(),
    ensures
        grid.reset().wf(),
        grid.reset().marked(),
        grid.reset().start == (1usize, 1usize),
        grid.reset().end == default_end(grid.size),
        forall|x: int, y: int|
            0 <= x < grid.size && 0 <= y < grid.size ==> (#[trigger] grid.reset().cells[y][x]).tile_type
                != TileType::Wall,
{
}

/// A resize keeps what is inside both grids. The tile at `p` keeps its kind
/// and its parent if `p` lies in the old grid and in the new one and no marker
/// has to do with it: it holds no marker, and it is none of the two places to
/// which a resize brings a marker back, unless both markers lie inside the new
/// grid, so that none is brought back.
pub proof fn lemma_resize_keeps_inside(grid: GridView, size: usize, p: (usize, usize))
    requires
        grid.wf(),
        valid_size(size),
        grid.in_bounds(p),
        p.0 < size,
        p.1 < size,
        p != grid.start,
        p != grid.end,
        (p != (1usize, 1usize) && p != default_end(size)) || (grid.start.0 < size && grid.start.1
            < size && grid.end.0 < size && grid.end.1 < size),
    ensures
        grid.resized(size).in_bounds(p),
        grid.resized(size).tile(p).tile_type == grid.tile(p).tile_type,
        grid.resized(size).tile(p).parent == grid.tile(p).parent,
{
}

/// A resize drops what lies outside the new grid: the new grid is a square of
/// the new side and holds no tile at `p`. If the grid later grows again, the
/// tile that then stands at `p` was made anew: it is `Empty` and has no parent,
/// unless a marker was brought back to that place.
pub proof fn lemma_resize_drops_outside(grid: GridView, size: usize, again: usize, p: (usize, usize))
    requires
        grid.wf(),
        valid_size(size),
        valid_size(again),
        size <= again,
        !(p.0 < size && p.1 < size),
        p.0 < again,
        p.1 < again,
    ensures
        grid.resized(size).wf(),
        grid.resized(size).size == size,
        !grid.resized(size).in_bounds(p),
        grid.resized(size).resized(again).tile(p).tile_type == TileType::Empty,
        grid.resized(size).resized(again).tile(p).parent.is_none(),
{
    let view = grid.reshaped(size);
    crate::grid::lemma_rebuilt_shaped(grid.cells, grid.size, size, false, grid.start, grid.end);
    assert(view.cells =~~= crate::grid::rebuilt_rows(grid.cells, grid.size, size, false));
    view.lemma_relocated_shaped();
}

/// Moving the start marker to a place other than the end keeps the grid well
/// formed, with exactly one start and one end.
pub proof fn lemma_set_start_marked(grid: GridView, new: (usize, usize))
    requires
        grid.wf(),
        grid.marked(),
        new != grid.end,
    ensures
        grid.set_start(new).wf(),
        grid.set_start(new).marked(),
{
}

/// Moving the end marker to a place other than the start keeps the grid well
/// formed, with exactly one start and one end.
pub proof fn lemma_set_end_marked(grid: GridView, new: (usize, usize))
    requires
        grid.wf(),
        grid.marked(),
        new != grid.start,
    ensures
        grid.set_end(new).wf(),
        grid.set_end(new).marked(),
{
}

/// A resize keeps the grid well formed, with exactly one start and one end.
pub proof fn lemma_resize_marked(grid: GridView, size: usize)
    requires
        grid.wf(),
        grid.marked(),
    ensures
        grid.resized(size).wf(),
        grid.resized(size).marked(),
{
    if valid_size(size) {
        let view = grid.reshaped(size);
        crate::grid::lemma_rebuilt_shaped(grid.cells, grid.size, size, false, grid.start, grid.end);
        assert(view.cells =~~= crate::grid::rebuilt_rows(grid.cells, grid.size, size, false));
        view.lemma_relocated_shaped();
    }
}

/// One of the operations that move a marker.
pub enum MarkerOp {
    SetStart((usize, usize)),
    SetEnd((usize, usize)),
    Resize(usize),
}

impl GridView {
    /// The grid after `op`.
    pub open spec fn after(self, op: MarkerOp) -> GridView {
        match op {
            MarkerOp::SetStart(new) => self.set_start(new),
            MarkerOp::SetEnd(new) => self.set_end(new),
            MarkerOp::Resize(size) => self.resized(size),
        }
    }

    /// The grid after the operations `ops`, one after the other.
    pub open spec fn after_all(self, ops: Seq<MarkerOp>) -> GridView
        decreases ops.len(),
    {
        if ops.len() == 0 {
            self
        } else {
            self.after(ops[0]).after_all(ops.skip(1))
        }
    }

    /// No operation of `ops` puts one marker on the other.
    pub open spec fn keeps_apart(self, ops: Seq<MarkerOp>) -> bool
        decreases ops.len(),
    {
        if ops.len() == 0 {
            true
        } else {
            &&& match ops[0] {
                MarkerOp::SetStart(new) => new != self.end,
                MarkerOp::SetEnd(new) => new != self.start,
                MarkerOp::Resize(_) => true,
            }
            &&& self.after(ops[0]).keeps_apart(ops.skip(1))
        }
    }
}

/// After any sequence of marker moves and resizes that never puts one marker
/// on the other, the grid has exactly one start tile and exactly one end tile.
pub proof fn lemma_markers_exclusive(grid: GridView, ops: Seq<MarkerOp>)
    requires
        grid.wf(),
        grid.marked(),
        grid.keeps_apart(ops),
    ensures
        grid.after_all(ops).wf(),
        grid.after_all(ops).marked(),
    decreases ops.len(),
{
    if ops.len() > 0 {
        match ops[0] {
            MarkerOp::SetStart(new) => lemma_set_start_marked(grid, new),
            MarkerOp::SetEnd(new) => lemma_set_end_marked(grid, new),
            MarkerOp::Resize(size) => lemma_resize_marked(grid, size),
        }
        lemma_markers_exclusive(grid.after(ops[0]), ops.skip(1));
    }
}

} // verus!
