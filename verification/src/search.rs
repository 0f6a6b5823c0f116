//! The search as a mathematical function: what each step does to the lists,
//! to the parents in the grid and to the queue of batches.
use crate::cost::{Cost, Weight};
use crate::grid::GridView;
use crate::solve_buffer::TileColorEvent;
use crate::solver::{Heuristic, ListItem};
use crate::tile::{Tile, TileType, CLOSED_COLOR, OPEN_COLOR, PATH_COLOR};
use vstd::prelude::*;

verus! {

/// A search under way.
pub struct Search {
    /// The tiles of the grid, with the parents set so far.
    pub cells: Seq<Seq<Tile>>,
    /// The side of the grid.
    pub size: usize,
    /// The position of the start marker.
    pub start: (usize, usize),
    /// The position of the end marker.
    pub end: (usize, usize),
    pub heuristic: Heuristic,
    /// The tiles that were reached and not yet expanded.
    pub open: Seq<ListItem>,
    /// The tiles that were expanded, in that order.
    pub closed: Seq<ListItem>,
    /// The colour changes of the step under way.
    pub events: Seq<TileColorEvent>,
    /// The batches queued so far.
    pub batches: Seq<Seq<TileColorEvent>>,
    /// Whether a tile next to the end was expanded.
    pub found: bool,
    /// The position of the tile next to the end that was expanded, once there
    /// is one.
    pub last: Option<(usize, usize)>,
    /// Whether the way back to the start broke off: a tile on it had no
    /// parent inside the grid, or the way was longer than any way can be.
    pub broken: bool,
}

/// The number of places around a tile, the tile's own included.
pub const PLACES: usize = 9;

/// The `k`-th place around `p`: `k / 3 - 1` to the right and `k % 3 - 1` up.
/// There is none if that is `p` itself or lies outside the grid.
pub open spec fn neighbor(p: (usize, usize), k: int, size: usize) -> Option<(usize, usize)> {
    let x = p.0 + k / 3 - 1;
    let y = p.1 + k % 3 - 1;
    if k == 4 || x < 0 || x >= size || y < 0 || y >= size {
        None
    } else {
        Some((x as usize, y as usize))
    }
}

/// The cost of the step to the `k`-th place: √2 for a diagonal step, else 1.
pub open spec fn step_cost(k: int) -> Cost {
    if k / 3 != 1 && k % 3 != 1 {
        Cost { units: 0, diagonals: 1 }
    } else {
        Cost { units: 1, diagonals: 0 }
    }
}

/// The estimated cost of the whole way through `item`.
pub open spec fn total(item: ListItem) -> Weight {
    item.d@.plus(item.h@)
}

/// The index from `from` on of the first item of `list` at position `p`, or
/// the length of `list` if there is none.
pub open spec fn find_from(list: Seq<ListItem>, p: (usize, usize), from: int) -> int
    decreases list.len() - from,
{
    if from >= list.len() {
        list.len() as int
    } else if list[from].tile.position == p {
        from
    } else {
        find_from(list, p, from + 1)
    }
}

/// The index of the first item of `list` at position `p`, or the length of
/// `list` if there is none.
pub open spec fn find(list: Seq<ListItem>, p: (usize, usize)) -> int {
    find_from(list, p, 0)
}

/// The better of the item at `best` and the items from `from` on: an item
/// takes the place of an earlier one only if its total is strictly less.
pub open spec fn best_from(list: Seq<ListItem>, from: int, best: int) -> int
    decreases list.len() - from,
{
    if from >= list.len() {
        best
    } else if total(list[from]).lt(total(list[best])) {
        best_from(list, from + 1, from)
    } else {
        best_from(list, from + 1, best)
    }
}

/// The index of the first item of `list` whose total is least.
pub open spec fn best(list: Seq<ListItem>) -> int {
    best_from(list, 1, 0)
}

/// The tiles after the tile at `p` took the parent `parent`.
pub open spec fn with_parent(cells: Seq<Seq<Tile>>, p: (usize, usize), parent: (usize, usize)) -> Seq<
    Seq<Tile>,
> {
    cells.update(
        p.1 as int,
        cells[p.1 as int].update(p.0 as int, cells[p.1 as int][p.0 as int].with_parent(parent)),
    )
}

pub open spec fn opened(tile: Tile) -> TileColorEvent {
    TileColorEvent { sprite_entity: tile.entity, color: OPEN_COLOR }
}

pub open spec fn closed(tile: Tile) -> TileColorEvent {
    TileColorEvent { sprite_entity: tile.entity, color: CLOSED_COLOR }
}

pub open spec fn on_path(tile: Tile) -> TileColorEvent {
    TileColorEvent { sprite_entity: tile.entity, color: PATH_COLOR }
}

impl Search {
    /// The search before its first step: the start tile alone is open.
    pub open spec fn begin(grid: GridView, heuristic: Heuristic) -> Search {
        Search {
            cells: grid.cells,
            size: grid.size,
            start: grid.start,
            end: grid.end,
            heuristic,
            open: seq![ListItem { tile: grid.tile(grid.start), d: Cost::spec_zero(), h: Cost::spec_zero() }],
            closed: Seq::empty(),
            events: Seq::empty(),
            batches: Seq::empty(),
            found: false,
            last: None,
            broken: false,
        }
    }

    /// The grid of the search.
    pub open spec fn grid(self) -> GridView {
        GridView { cells: self.cells, start: self.start, end: self.end, size: self.size }
    }

    /// Whether steps are left to do.
    pub open spec fn active(self) -> bool {
        !self.found && self.open.len() > 0
    }

    /// Looks at the tile `at` next to `cur`, reached by the `k`-th step.
    ///
    /// An `End` tile ends the search. An `Empty` tile that is closed is left
    /// alone. One that is open gets the new cost and `cur` as its parent if the
    /// new cost is strictly less than the cost it has. One that is neither is
    /// opened, with `cur` as its parent. Any other tile is left alone.
    pub open spec fn look(self, cur: ListItem, k: int, at: (usize, usize)) -> Search {
        let tile = self.cells[at.1 as int][at.0 as int];
        match tile.tile_type {
            TileType::End => Search { found: true, ..self },
            TileType::Empty => {
                let d = cur.d.spec_plus(step_cost(k));
                let h = self.heuristic.estimate(at, self.end);
                let i = find(self.open, at);
                if find(self.closed, at) < self.closed.len() {
                    self
                } else if i < self.open.len() {
                    if d@.lt(self.open[i].d@) {
                        Search {
                            open: self.open.update(i, ListItem { d, h, ..self.open[i] }),
                            cells: with_parent(self.cells, at, cur.tile.position),
                            ..self
                        }
                    } else {
                        self
                    }
                } else {
                    Search {
                        cells: with_parent(self.cells, at, cur.tile.position),
                        open: self.open.push(ListItem { tile, d, h }),
                        events: self.events.push(opened(tile)),
                        ..self
                    }
                }
            },
            _ => self,
        }
    }

    /// Looks at the `k`-th place around `cur`, if there is a tile.
    pub open spec fn visit(self, cur: ListItem, k: int) -> Search {
        match neighbor(cur.tile.position, k, self.size) {
            Some(at) => self.look(cur, k, at),
            None => self,
        }
    }

    /// Looks at the places around `cur` from the `k`-th on, until the end is
    /// found.
    pub open spec fn expand(self, cur: ListItem, k: int) -> Search
        decreases PLACES - k,
    {
        if k >= PLACES || self.found {
            self
        } else {
            self.visit(cur, k).expand(cur, k + 1)
        }
    }

    /// Closes `cur` after all places around it were looked at, and queues the
    /// batch of the step.
    pub open spec fn settle(self, cur: ListItem) -> Search {
        let events = if cur.tile.tile_type == TileType::Empty {
            self.events.push(closed(cur.tile))
        } else {
            self.events
        };
        Search {
            closed: self.closed.push(cur),
            batches: self.batches.push(events),
            events: Seq::empty(),
            ..self
        }
    }

    /// Queues the batch of the step that found the end, and then one batch
    /// for each tile on the way back from `cur` to the start.
    pub open spec fn finish(self, cur: ListItem) -> Search {
        let way = trace(self.cells, self.size, cur.tile.position, self.closed.len());
        Search {
            batches: self.batches.push(self.events) + way.0,
            events: Seq::empty(),
            last: Some(cur.tile.position),
            broken: !way.1,
            ..self
        }
    }

    /// One step: takes the best open item off the open list and expands it.
    pub open spec fn step(self) -> Search {
        let index = best(self.open);
        let cur = self.open[index];
        let expanded = (Search { open: self.open.remove(index), ..self }).expand(cur, 0);
        if expanded.found {
            expanded.finish(cur)
        } else {
            expanded.settle(cur)
        }
    }

    /// At most `fuel` steps, as long as steps are left to do.
    pub open spec fn run(self, fuel: nat) -> Search
        decreases fuel,
    {
        if fuel == 0 || !self.active() {
            self
        } else {
            self.step().run((fuel - 1) as nat)
        }
    }
}

/// The way back from the tile at `p` to the start: one batch with one event
/// for each tile, up to the first `Start` tile, which gets none. The way is
/// followed over at most `fuel` tiles. The second part tells whether a `Start`
/// tile was reached.
pub open spec fn trace(cells: Seq<Seq<Tile>>, size: usize, p: (usize, usize), fuel: nat) -> (
    Seq<Seq<TileColorEvent>>,
    bool,
)
    decreases fuel,
{
    if p.0 >= size || p.1 >= size {
        (Seq::empty(), false)
    } else {
        let tile = cells[p.1 as int][p.0 as int];
        if tile.tile_type == TileType::Start {
            (Seq::empty(), true)
        } else if fuel == 0 {
            (Seq::empty(), false)
        } else {
            let rest = match tile.parent {
                Some(parent) => trace(cells, size, parent, (fuel - 1) as nat),
                None => (Seq::empty(), false),
            };
            (seq![seq![on_path(tile)]] + rest.0, rest.1)
        }
    }
}

/// The search on `grid` from its first step to its last. The search ends when
/// a tile next to the end is expanded or no tile is open any more. Each step
/// closes another tile of the grid, so a step for each tile and one more are
/// enough.
pub open spec fn search(grid: GridView, heuristic: Heuristic) -> Search {
    Search::begin(grid, heuristic).run((grid.size * grid.size + 1) as nat)
}

} // verus!
