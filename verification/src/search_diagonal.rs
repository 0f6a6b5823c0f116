//! The search on a grid without walls: the way it finds is the diagonal.
use crate::cost::Weight;
use crate::grid::{default_end, valid_size, GridView};
use crate::grid_laws::lemma_fresh_marked;
use crate::heuristic_laws::{
    adjacent, is_walk, lemma_diagonal_admissible, lemma_walk_push, step_weight, walk_weight,
};
use crate::search::{neighbor, search, PLACES};
use crate::search_best::lemma_search_shortest;
use crate::search_reach::{has_way, is_way, lemma_search_finds, next_to_end, reachable};
use crate::solver::{diagonal_distance, Heuristic};
use crate::tile::TileType;
use vstd::prelude::*;

verus! {

/// The first `count` positions of the diagonal that begins at `(1, 1)`.
pub open spec fn diagonal(count: nat) -> Seq<(usize, usize)> {
    Seq::new(count, |i: int| ((1 + i) as usize, (1 + i) as usize))
}

/// A walk has one step fewer than positions.
pub proof fn lemma_walk_steps(path: Seq<(usize, usize)>)
    requires
        path.len() >= 1,
    ensures
        walk_weight(path).units + walk_weight(path).diagonals == path.len() - 1,
    decreases path.len(),
{
    if path.len() > 1 {
        lemma_walk_steps(path.drop_last());
    }
}

/// A walk moves no further in each direction than it has steps.
pub proof fn lemma_walk_span(path: Seq<(usize, usize)>, from: int, to: int)
    requires
        is_walk(path),
        0 <= from <= to < path.len(),
    ensures
        path[to].0 - path[from].0 <= to - from,
        path[from].0 - path[to].0 <= to - from,
        path[to].1 - path[from].1 <= to - from,
        path[from].1 - path[to].1 <= to - from,
    decreases to - from,
{
    if from < to {
        lemma_walk_span(path, from, to - 1);
        assert(adjacent(path[to - 1], path[to - 1 + 1]));
    }
}

/// The diagonal of a new grid costs one diagonal step for each position but
/// the first.
pub proof fn lemma_diagonal_weight(count: nat)
    requires
        1 <= count < usize::MAX,
    ensures
        is_walk(diagonal(count)),
        walk_weight(diagonal(count)) == (Weight { units: 0, diagonals: count - 1 }),
    decreases count,
{
    let path = diagonal(count);
    if count > 1 {
        lemma_diagonal_weight((count - 1) as nat);
        assert(path.drop_last() =~= diagonal((count - 1) as nat));
    }
}

/// On a new grid the diagonal is a way from the start to the tile before the
/// end.
pub proof fn lemma_diagonal_way(size: usize)
    requires
        valid_size(size),
    ensures
        is_way(GridView::fresh(size), diagonal((size - 3) as nat)),
        adjacent(diagonal((size - 3) as nat).last(), default_end(size)),
        has_way(GridView::fresh(size)),
{
    let grid = GridView::fresh(size);
    let path = diagonal((size - 3) as nat);
    lemma_diagonal_weight((size - 3) as nat);
    assert(is_way(grid, path));
    let p = path.last();
    assert(p == ((size - 3) as usize, (size - 3) as usize));
    assert(reachable(grid, p));
    assert(neighbor(p, 8, size) == Some(default_end(size)));
    assert(grid.tile(default_end(size)).tile_type == TileType::End);
    assert(next_to_end(grid, p));
}

/// A walk from `(1, 1)` to `(n, n)` that costs `n - 1` diagonal steps and no
/// more goes up the diagonal.
pub proof fn lemma_on_diagonal(whole: Seq<(usize, usize)>, n: usize)
    requires
        1 <= n < usize::MAX,
        whole.len() >= 1,
        is_walk(whole),
        whole.first() == (1usize, 1usize),
        whole.last() == (n, n),
        walk_weight(whole) == (Weight { units: 0, diagonals: n - 1 }),
    ensures
        whole == diagonal(n as nat),
{
    lemma_walk_steps(whole);
    assert forall|i: int| 0 <= i < whole.len() implies whole[i] == diagonal(n as nat)[i] by {
        lemma_walk_span(whole, 0, i);
        lemma_walk_span(whole, i, whole.len() - 1);
    }
    assert(whole =~= diagonal(n as nat));
}

/// A way to a tile next to the end that, with the step to the end, costs no
/// more than the diagonal distance from the start to the end costs just that.
pub proof fn lemma_least_cost(way: Seq<(usize, usize)>, end: (usize, usize), least: Weight)
    requires
        way.len() >= 1,
        is_walk(way),
        adjacent(way.last(), end),
        least == diagonal_distance(way.first(), end)@,
        walk_weight(way).plus(step_weight(way.last(), end)).le(least),
    ensures
        is_walk(way.push(end)),
        walk_weight(way.push(end)) == least,
{
    let whole = way.push(end);
    lemma_walk_push(way, end);
    assert forall|i: int| 0 <= i < whole.len() - 1 implies adjacent(
        #[trigger] whole[i],
        whole[i + 1],
    ) by {
        if i < way.len() - 1 {
            assert(whole[i] == way[i]);
            assert(adjacent(way[i], way[i + 1]));
        }
    }
    lemma_diagonal_admissible(whole);
    assert(whole.first() == way.first());
    walk_weight(whole).lemma_lt_total(least);
}

/// On a new grid of any side, where no wall stands, the search finds the end,
/// and the way it finds is the diagonal: the tiles `(1, 1)`, `(2, 2)` and so on
/// up to the tile before the end. That way has three tiles fewer than the grid
/// has on a side.
pub proof fn lemma_fresh_grid_diagonal(size: usize, heuristic: Heuristic)
    requires
        valid_size(size),
    ensures
        search(GridView::fresh(size), heuristic).found,
        search(GridView::fresh(size), heuristic).shortest(GridView::fresh(size)),
        search(GridView::fresh(size), heuristic).way() == diagonal((size - 3) as nat),
        search(GridView::fresh(size), heuristic).way().len() == size - 3,
{
    let grid = GridView::fresh(size);
    let end = default_end(size);
    lemma_fresh_marked(size);
    lemma_diagonal_way(size);
    lemma_search_finds(grid, heuristic);
    lemma_search_shortest(grid, heuristic);
    let way = search(grid, heuristic).way();
    lemma_found_diagonal(grid, size, way);
}

/// The shortest way on a new grid is the diagonal.
proof fn lemma_found_diagonal(grid: GridView, size: usize, way: Seq<(usize, usize)>)
    requires
        valid_size(size),
        grid.start == (1usize, 1usize),
        grid.end == default_end(size),
        is_way(grid, diagonal((size - 3) as nat)),
        is_way(grid, way),
        adjacent(way.last(), grid.end),
        walk_weight(way).plus(step_weight(way.last(), grid.end)).le(
            walk_weight(diagonal((size - 3) as nat)).plus(
                step_weight(diagonal((size - 3) as nat).last(), grid.end),
            ),
        ),
    ensures
        way == diagonal((size - 3) as nat),
{
    let end = grid.end;
    let straight = diagonal((size - 3) as nat);
    lemma_diagonal_weight((size - 3) as nat);
    let least = Weight { units: 0, diagonals: size - 3 };
    assert(walk_weight(straight).plus(step_weight(straight.last(), end)) == least);
    assert(diagonal_distance(way.first(), end)@ == least);
    lemma_least_cost(way, end, least);
    let whole = way.push(end);
    lemma_on_diagonal(whole, (size - 2) as usize);
    assert(way =~= whole.drop_last());
    assert(whole.drop_last() =~= straight);
}

} // verus!
