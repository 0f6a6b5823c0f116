//! The choice of algorithm and heuristic, and the items of the search lists.
use crate::cost::Cost;
use crate::grid::{entity_at, lemma_entity_bound, Grid, GridError, GridView};
use crate::search::{
    best, best_from, find, find_from, neighbor, on_path, search, step_cost, trace, Search, PLACES,
};
use crate::search_best::lemma_search_shortest;
use crate::search_reach::{all_plain, has_way, lemma_no_way, lemma_search_finds, reach};
use crate::search_sound::lemma_search_sound;
use crate::solve_buffer::{SolveBuffer, TileColorEvent};
use crate::tile::{Tile, TileType, CLOSED_COLOR, OPEN_COLOR, PATH_COLOR};
use vstd::prelude::*;

verus! {

/// The search algorithms that can be selected. Only `AStar` is implemented.
#[derive(Clone, Copy, Debug, PartialEq, Eq, Structural)]
pub enum Algorithm {
    AStar,
    Dijkstra,
}

impl Default for Algorithm {
    fn default() -> (algorithm: Algorithm)
        ensures
            algorithm == Algorithm::AStar,
    {
        Algorithm::AStar
    }
}

/// The estimates of the distance that is left. `Diagonal` is the length of
/// the shortest way over a grid without walls, where a step to a side costs 1
/// and a diagonal step √2: as many diagonal steps as the smaller of the two
/// coordinate differences, and side steps for the rest.
#[derive(Clone, Copy, Debug, PartialEq, Eq, Structural)]
pub enum Heuristic {
    Diagonal,
}

impl Default for Heuristic {
    fn default() -> (heuristic: Heuristic)
        ensures
            heuristic == Heuristic::Diagonal,
    {
        Heuristic::Diagonal
    }
}

/// The distance between two coordinates.
pub open spec fn gap(a: usize, b: usize) -> int {
    if a < b {
        b - a
    } else {
        a - b
    }
}

/// The diagonal distance from `a` to `b`.
pub open spec fn diagonal_distance(a: (usize, usize), b: (usize, usize)) -> Cost {
    let dx = gap(a.0, b.0);
    let dy = gap(a.1, b.1);
    if dx < dy {
        Cost { units: (dy - dx) as u128, diagonals: dx as u128 }
    } else {
        Cost { units: (dx - dy) as u128, diagonals: dy as u128 }
    }
}

impl Heuristic {
    /// The estimate of the cost of the way from `a` to `b`.
    pub open spec fn estimate(&self, a: (usize, usize), b: (usize, usize)) -> Cost {
        match *self {
            Heuristic::Diagonal => diagonal_distance(a, b),
        }
    }

    /// Computes the estimate of the cost of the way from `a` to `b`.
    #[verifier::when_used_as_spec(estimate)]
    pub fn get_heuristic(&self, a: (usize, usize), b: (usize, usize)) -> (cost: Cost)
        ensures
            cost == self.estimate(a, b),
    {
        match *self {
            Heuristic::Diagonal => {
                let dx = if a.0 < b.0 {
                    b.0 - a.0
                } else {
                    a.0 - b.0
                };
                let dy = if a.1 < b.1 {
                    b.1 - a.1
                } else {
                    a.1 - b.1
                };
                if dx < dy {
                    Cost { units: (dy - dx) as u128, diagonals: dx as u128 }
                } else {
                    Cost { units: (dx - dy) as u128, diagonals: dy as u128 }
                }
            },
        }
    }
}

impl Algorithm {
    /// Whether the algorithm can be run.
    pub open spec fn implemented(&self) -> bool {
        *self == Algorithm::AStar
    }

    /// Runs the selected algorithm on `grid`. An algorithm that is not
    /// implemented is reported, and nothing changes.
    pub fn get_algorithm(
        &self,
        grid: &mut Grid,
        solve_buffer: &mut SolveBuffer,
        heuristic: &Heuristic,
    ) -> (result: Result<bool, GridError>)
        requires
            old(grid)@.wf(),
        ensures
            final(grid)@.wf(),
            self.implemented() ==> search_left(
                search(old(grid)@, *heuristic),
                old(grid)@,
                final(grid)@,
                old(solve_buffer)@,
                final(solve_buffer)@,
                result,
            ),
            self.implemented() ==> search_owed(old(grid)@, *heuristic, result),
            !self.implemented() ==> {
                &&& result == Err::<bool, GridError>(GridError::NotImplemented)
                &&& final(grid)@ == old(grid)@
                &&& final(solve_buffer)@ == old(solve_buffer)@
            },
    {
        match *self {
            Algorithm::AStar => a_star(grid, solve_buffer, heuristic),
            Algorithm::Dijkstra => Err(GridError::NotImplemented),
        }
    }
}

/// What the host has selected for the next search.
#[derive(Clone, Copy, Debug, PartialEq, Eq, Structural)]
pub struct SolverState {
    pub algorithm: Algorithm,
    pub heuristic: Heuristic,
}

impl Default for SolverState {
    fn default() -> (state: SolverState)
        ensures
            state == (SolverState { algorithm: Algorithm::AStar, heuristic: Heuristic::Diagonal }),
    {
        SolverState { algorithm: Algorithm::default(), heuristic: Heuristic::default() }
    }
}

/// An item of the open or the closed list: a copy of the tile as it was when
/// it was opened, the cost `d` of the way from the start to it, and the
/// estimate `h` of the cost of the way from it to the end.
#[derive(Clone, Copy, Debug)]
pub struct ListItem {
    pub tile: Tile,
    pub d: Cost,
    pub h: Cost,
}

impl ListItem {
    pub fn new(tile: Tile, d: Cost, h: Cost) -> (item: ListItem)
        ensures
            item == (ListItem { tile, d, h }),
    {
        ListItem { tile, d, h }
    }
}

/// The `k`-th place around `p`, if it lies inside the grid.
fn neighbor_of(p: (usize, usize), k: usize, size: usize) -> (at: Option<(usize, usize)>)
    requires
        k < PLACES,
        p.0 < size,
        p.1 < size,
    ensures
        at == neighbor(p, k as int, size),
{
    let right = k / 3;
    let up = k % 3;
    if k == 4 {
        return None;
    }
    let x = if right == 0 {
        if p.0 == 0 {
            return None;
        }
        p.0 - 1
    } else if right == 1 {
        p.0
    } else {
        if p.0 + 1 >= size {
            return None;
        }
        p.0 + 1
    };
    let y = if up == 0 {
        if p.1 == 0 {
            return None;
        }
        p.1 - 1
    } else if up == 1 {
        p.1
    } else {
        if p.1 + 1 >= size {
            return None;
        }
        p.1 + 1
    };
    Some((x, y))
}

/// The cost of the step to the `k`-th place.
fn step_cost_of(k: usize) -> (cost: Cost)
    requires
        k < PLACES,
    ensures
        cost == step_cost(k as int),
{
    if k / 3 != 1 && k % 3 != 1 {
        Cost { units: 0, diagonals: 1 }
    } else {
        Cost { units: 1, diagonals: 0 }
    }
}

/// The index of the first item whose total is least.
fn pick_best(list: &Vec<ListItem>) -> (index: usize)
    requires
        list@.len() > 0,
        forall|i: int| 0 <= i < list@.len() ==> (#[trigger] list@[i]).d.fits_plus(list@[i].h),
    ensures
        index == best(list@),
        index < list@.len(),
{
    let mut index: usize = 0;
    let mut i: usize = 1;
    while i < list.len()
        invariant
            0 <= index < i <= list@.len(),
            forall|i: int| 0 <= i < list@.len() ==> (#[trigger] list@[i]).d.fits_plus(list@[i].h),
            best(list@) == best_from(list@, i as int, index as int),
        decreases list@.len() - i,
    {
        let here = list[i].d.plus(list[i].h);
        let least = list[index].d.plus(list[index].h);
        if here.lt(least) {
            index = i;
        }
        i += 1;
    }
    index
}

/// The index of the first item at `p`, or the length of the list.
fn index_of(list: &Vec<ListItem>, p: (usize, usize)) -> (index: usize)
    ensures
        index == find(list@, p),
{
    let mut i: usize = 0;
    while i < list.len()
        invariant
            i <= list@.len(),
            find(list@, p) == find_from(list@, p, i as int),
        decreases list@.len() - i,
    {
        let q = list[i].tile.position;
        if q.0 == p.0 && q.1 == p.1 {
            return i;
        }
        i += 1;
    }
    i
}

/// Queues one batch for each tile on the way back from `p` to the start, as
/// `trace` says. Returns whether the start was reached.
fn trace_path(grid: &Grid, solve_buffer: &mut SolveBuffer, p: (usize, usize), fuel: usize) -> (reached:
    bool)
    requires
        grid@.shaped(),
    ensures
        final(solve_buffer)@ == old(solve_buffer)@ + trace(grid@.cells, grid@.size, p, fuel as nat).0,
        reached == trace(grid@.cells, grid@.size, p, fuel as nat).1,
{
    let ghost way = trace(grid@.cells, grid@.size, p, fuel as nat);
    let mut at = p;
    let mut left = fuel;
    proof {
        grid.lemma_rows_fit();
        assert(solve_buffer@ + way.0 =~= old(solve_buffer)@ + way.0);
    }
    loop
        invariant
            grid@.shaped(),
            grid.rows_fit(),
            way == trace(grid@.cells, grid@.size, p, fuel as nat),
            solve_buffer@ + trace(grid@.cells, grid@.size, at, left as nat).0 == old(solve_buffer)@ + way.0,
            trace(grid@.cells, grid@.size, at, left as nat).1 == way.1,
        decreases left,
    {
        let ghost before = solve_buffer@;
        let ghost here = trace(grid@.cells, grid@.size, at, left as nat);
        if at.0 >= grid.grid_size || at.1 >= grid.grid_size {
            proof {
                assert(before + here.0 =~= before);
            }
            return false;
        }
        let tile = grid.grid[at.1][at.0];
        assert(tile == grid@.cells[at.1 as int][at.0 as int]);
        if tile.tile_type == TileType::Start {
            proof {
                assert(before + here.0 =~= before);
            }
            return true;
        }
        if left == 0 {
            proof {
                assert(before + here.0 =~= before);
            }
            return false;
        }
        let mut batch: Vec<TileColorEvent> = Vec::new();
        batch.push(TileColorEvent::new(tile.entity, PATH_COLOR));
        assert(batch@ =~= seq![on_path(tile)]);
        solve_buffer.enqueue(batch);
        match tile.parent {
            None => {
                proof {
                    assert(here.0 =~= seq![seq![on_path(tile)]]);
                    assert(solve_buffer@ =~= before + here.0);
                }
                return false;
            },
            Some(parent) => {
                proof {
                    let rest = trace(grid@.cells, grid@.size, parent, (left - 1) as nat);
                    assert(here.0 == seq![seq![on_path(tile)]] + rest.0);
                    assert(solve_buffer@ + rest.0 =~= before + here.0);
                }
                at = parent;
                left = left - 1;
            },
        }
    }
}

/// What the search leaves behind, as `done` says: the parents in the grid and
/// the batches behind those that `queued` held.
pub open spec fn search_left(
    done: Search,
    before: GridView,
    after: GridView,
    queued: Seq<Seq<TileColorEvent>>,
    buffer: Seq<Seq<TileColorEvent>>,
    result: Result<bool, GridError>,
) -> bool {
    &&& after == (GridView { cells: done.cells, ..before })
    &&& buffer == queued + done.batches
    &&& result == if done.broken {
        Err::<bool, GridError>(GridError::OutOfBounds)
    } else {
        Ok::<bool, GridError>(done.found)
    }
}

/// What the search owes on a grid whose start marker stands on a `Start`
/// tile. It succeeds, and it tells whether there is a way from the start to a
/// tile next to an `End` tile. If there is none, it queues one batch for each
/// tile that can be reached from the start, and none of them colours a way.
/// If there is one, and the grid has exactly one start and one end, the way
/// that it colours is a shortest way: see [`Search::shortest`].
pub open spec fn search_owed(
    grid: GridView,
    heuristic: Heuristic,
    result: Result<bool, GridError>,
) -> bool {
    &&& grid.start_marked() ==> result == Ok::<bool, GridError>(has_way(grid))
    &&& grid.start_marked() && !has_way(grid) ==> {
        &&& all_plain(search(grid, heuristic).batches)
        &&& reach(grid).finite()
        &&& search(grid, heuristic).batches.len() == reach(grid).len()
    }
    &&& grid.marked() && has_way(grid) ==> search(grid, heuristic).shortest(grid)
}

/// Proves what the search owes from what it is.
pub proof fn lemma_search_owed(grid: GridView, heuristic: Heuristic)
    requires
        grid.wf(),
    ensures
        grid.start_marked() ==> !search(grid, heuristic).broken && search(grid, heuristic).found
            == has_way(grid),
        search_owed(
            grid,
            heuristic,
            if search(grid, heuristic).broken {
                Err::<bool, GridError>(GridError::OutOfBounds)
            } else {
                Ok::<bool, GridError>(search(grid, heuristic).found)
            },
        ),
{
    if grid.start_marked() {
        lemma_search_sound(grid, heuristic);
        lemma_search_finds(grid, heuristic);
        if !has_way(grid) {
            lemma_no_way(grid, heuristic);
        }
        if grid.marked() {
            lemma_search_shortest(grid, heuristic);
        }
    }
}

/// Searches the shortest way from the start of `grid` to its end, over `Empty`
/// tiles, in steps to the eight places around a tile.
///
/// The search does what [`search`] says. It sets the parent of each tile it
/// reaches and queues one batch of colour changes for each step, and, if it
/// finds the end, one batch for each tile of the way, from the end back to the
/// start. It returns whether it found the end. It fails if the way back breaks
/// off, which cannot happen while the tile at the start marker is a `Start`.
pub fn a_star(grid: &mut Grid, solve_buffer: &mut SolveBuffer, heuristic: &Heuristic) -> (result:
    Result<bool, GridError>)
    requires
        old(grid)@.wf(),
    ensures
        search_left(
            search(old(grid)@, *heuristic),
            old(grid)@,
            final(grid)@,
            old(solve_buffer)@,
            final(solve_buffer)@,
            result,
        ),
        final(grid)@.wf(),
        search_owed(old(grid)@, *heuristic, result),
{
    let ghost before = grid@;
    let ghost queued = solve_buffer@;
    let size = grid.grid_size;
    let end = grid.end;
    let mut open_list: Vec<ListItem> = Vec::new();
    open_list.push(ListItem::new(grid.get_start(), Cost::zero(), Cost::zero()));
    let mut closed_list: Vec<ListItem> = Vec::new();
    let ghost mut state = Search::begin(before, *heuristic);
    let ghost mut fuel: nat = (size * size + 1) as nat;
    let ghost mut unclosed: Set<int> = vstd::set_lib::set_int_range(0, size * size);
    proof {
        lemma_search_owed(before, *heuristic);
        vstd::set_lib::lemma_int_range(0, size * size);
        assert(open_list@ =~= state.open);
        assert(solve_buffer@ =~= queued + state.batches);
        assert forall|x: int, y: int| 0 <= x < size && 0 <= y < size implies unclosed.contains(
            #[trigger] entity_at(size as int, x, y),
        ) by {
            lemma_entity_bound(size as int, x, y);
        }
    }
    while open_list.len() > 0
        invariant
            before == old(grid)@,
            before.wf(),
            search_owed(
                before,
                *heuristic,
                if search(before, *heuristic).broken {
                    Err::<bool, GridError>(GridError::OutOfBounds)
                } else {
                    Ok::<bool, GridError>(search(before, *heuristic).found)
                },
            ),
            queued == old(solve_buffer)@,
            size == before.size,
            end == before.end,
            grid@ == (GridView { cells: state.cells, ..before }),
            open_list@ == state.open,
            closed_list@ == state.closed,
            solve_buffer@ == queued + state.batches,
            state.size == size,
            state.start == before.start,
            state.end == end,
            state.heuristic == *heuristic,
            state.tidy(),
            !state.found,
            search(before, *heuristic) == state.run(fuel),
            unclosed.finite(),
            fuel == unclosed.len() + 1,
            forall|x: int, y: int|
                0 <= x < size && 0 <= y < size && find(state.closed, (x as usize, y as usize))
                    == state.closed.len() ==> unclosed.contains(
                    #[trigger] entity_at(size as int, x, y),
                ),
        decreases unclosed.len(),
    {
        let mut event_list: Vec<TileColorEvent> = Vec::new();
        let closed_count = closed_list.len();
        proof {
            assert forall|i: int| 0 <= i < open_list@.len() implies (
            #[trigger] open_list@[i]).d.fits_plus(open_list@[i].h) by {
                assert(state.open[i].d.units + state.open[i].d.diagonals <= closed_count);
            }
        }
        let index = pick_best(&open_list);
        let cur = open_list.remove(index);
        let ghost target = state.taken().expand(cur, 0);
        let ghost mut around = state.taken();
        proof {
            state.lemma_taken();
            state.lemma_step();
            assert(event_list@ =~= around.events);
        }
        let mut k: usize = 0;
        let mut found = false;
        while k < PLACES && !found
            invariant
                size == before.size,
                end == before.end,
                k <= PLACES,
                grid@ == (GridView { cells: around.cells, ..before }),
                open_list@ == around.open,
                closed_list@ == around.closed,
                event_list@ == around.events,
                around.batches == state.batches,
                around.size == size,
                around.start == before.start,
                around.end == end,
                around.heuristic == *heuristic,
                around.tidy_around(cur),
                around.found == found,
                closed_count == closed_list@.len(),
                target == around.expand(cur, k as int),
            decreases
                    PLACES - k + if found {
                        0int
                    } else {
                        1int
                    },
        {
            proof {
                match neighbor(cur.tile.position, k as int, size) {
                    Some(at) => {
                        around.lemma_look(cur, k as int, at);
                    },
                    None => {},
                }
                grid.lemma_rows_fit();
            }
            match neighbor_of(cur.tile.position, k, size) {
                None => {},
                Some(at) => {
                    let tile = grid.grid[at.1][at.0];
                    assert(tile == around.cells[at.1 as int][at.0 as int]);
                    match tile.tile_type {
                        TileType::End => {
                            found = true;
                        },
                        TileType::Empty => {
                            let d = cur.d.plus(step_cost_of(k));
                            let h = heuristic.get_heuristic(at, end);
                            if index_of(&closed_list, at) >= closed_list.len() {
                                let i = index_of(&open_list, at);
                                if i < open_list.len() {
                                    if d.lt(open_list[i].d) {
                                        let item = open_list[i];
                                        open_list[i] = ListItem { d, h, ..item };
                                        grid.grid[at.1][at.0].parent = Some(cur.tile.position);
                                    }
                                } else {
                                    grid.grid[at.1][at.0].parent = Some(cur.tile.position);
                                    open_list.push(ListItem::new(tile, d, h));
                                    event_list.push(TileColorEvent::new(tile.entity, OPEN_COLOR));
                                }
                            }
                        },
                        _ => {},
                    }
                },
            }
            proof {
                let next = around.visit(cur, k as int);
                assert(grid@.cells =~~= next.cells);
                assert(around.expand(cur, k as int) == next.expand(cur, k + 1));
                if next.found {
                    assert(next.expand(cur, k + 1) == next);
                    assert(next.expand(cur, k as int) == next);
                }
                around = next;
            }
            if !found {
                k += 1;
            }
        }
        if found {
            proof {
                assert(state.step() == around.finish(cur));
            }
            solve_buffer.enqueue(event_list);
            let reached = trace_path(grid, solve_buffer, cur.tile.position, closed_list.len());
            proof {
                let last = around.finish(cur);
                assert(solve_buffer@ =~= queued + last.batches);
                assert(state.run(fuel) == state.step().run((fuel - 1) as nat));
                assert(last.run((fuel - 1) as nat) == last);
            }
            if reached {
                return Ok(true);
            } else {
                return Err(GridError::OutOfBounds);
            }
        }
        proof {
            assert(state.step() == around.settle(cur));
        }
        closed_list.push(cur);
        if cur.tile.tile_type == TileType::Empty {
            event_list.push(TileColorEvent::new(cur.tile.entity, CLOSED_COLOR));
        }
        solve_buffer.enqueue(event_list);
        proof {
            let next = around.settle(cur);
            assert(solve_buffer@ =~= queued + next.batches);
            let at = cur.tile.position;
            let entity = entity_at(size as int, at.0 as int, at.1 as int);
            crate::search_laws::lemma_find(state.closed, at);
            assert(unclosed.contains(entity));
            assert forall|x: int, y: int|
                0 <= x < size && 0 <= y < size && find(next.closed, (x as usize, y as usize))
                    == next.closed.len() implies unclosed.remove(entity).contains(
                #[trigger] entity_at(size as int, x, y),
            ) by {
                let p = (x as usize, y as usize);
                crate::search_laws::lemma_find(next.closed, p);
                assert(next.closed[state.closed.len() as int] == cur);
                assert forall|j: int| 0 <= j < state.closed.len() implies (
                #[trigger] state.closed[j]).tile.position != p by {
                    assert(next.closed[j] == state.closed[j]);
                }
                crate::search_laws::lemma_find_is(state.closed, p, state.closed.len() as int);
                crate::grid::lemma_entity_div_mod(size as int, x, y);
                crate::grid::lemma_entity_div_mod(size as int, at.0 as int, at.1 as int);
            }
            assert(state.run(fuel) == next.run((fuel - 1) as nat));
            unclosed = unclosed.remove(entity);
            fuel = (fuel - 1) as nat;
            state = next;
        }
    }
    Ok(false)
}

} // verus!
