//! What the search leaves behind: it ends, it changes nothing but parents, and
//! the parents lead from every tile it closed back to the start.
use crate::grid::{entity_at, lemma_entity_bound, lemma_entity_div_mod, GridView};
use crate::heuristic_laws::adjacent;
use crate::search::{best, find, neighbor, search, trace, with_parent, Search, PLACES};
use crate::search_laws::{lemma_best, lemma_find, lemma_find_is, lemma_neighbor};
use crate::solver::{Heuristic, ListItem};
use crate::tile::TileType;
use vstd::prelude::*;

verus! {

/// The position of an item of the search, if there is one.
pub open spec fn place(cur: Option<ListItem>) -> Option<(usize, usize)> {
    match cur {
        Some(item) => Some(item.tile.position),
        None => None,
    }
}

impl Search {
    pub open spec fn kind_at(self, p: (usize, usize)) -> TileType {
        self.cells[p.1 as int][p.0 as int].tile_type
    }

    pub open spec fn parent_at(self, p: (usize, usize)) -> Option<(usize, usize)> {
        self.cells[p.1 as int][p.0 as int].parent
    }

    /// The search is one on the grid `origin`: it has changed nothing but
    /// parents.
    pub open spec fn kept(self, origin: GridView) -> bool {
        &&& self.size == origin.size
        &&& self.start == origin.start
        &&& self.end == origin.end
        &&& forall|x: int, y: int|
            0 <= x < self.size && 0 <= y < self.size ==> (#[trigger] self.cells[y][x]).tile_type
                == origin.cells[y][x].tile_type
    }

    /// The tile at `p` is an `Empty` tile that was reached from one of the
    /// first `limit` closed tiles, or from the tile at `cur`.
    pub open spec fn hangs(self, p: (usize, usize), limit: int, cur: Option<(usize, usize)>) -> bool {
        &&& self.kind_at(p) == TileType::Empty
        &&& self.parent_at(p).is_some()
        &&& adjacent(self.parent_at(p).unwrap(), p)
        &&& (find(self.closed, self.parent_at(p).unwrap()) < limit || cur == self.parent_at(p))
    }

    /// No tile is closed twice.
    pub open spec fn closed_once(self) -> bool {
        forall|i: int, j: int|
            0 <= i < j < self.closed.len() ==> (#[trigger] self.closed[i]).tile.position != (
            #[trigger] self.closed[j]).tile.position
    }

    /// The parents lead back to the start: the first tile closed is the start
    /// tile, and every other tile that is closed or open was reached from a
    /// tile closed before it, or from `cur`, the tile that is being expanded.
    pub open spec fn linked(self, cur: Option<ListItem>) -> bool {
        &&& self.kind_at(self.start) == TileType::Start
        &&& self.closed_once()
        &&& self.closed.len() > 0 ==> self.closed[0].tile.position == self.start
        &&& forall|j: int|
            1 <= j < self.closed.len() ==> self.hangs((#[trigger] self.closed[j]).tile.position, j, None)
        &&& if self.closed.len() == 0 {
            match cur {
                Some(item) => item.tile.position == self.start,
                None => self.open.len() == 1 && self.open[0].tile.position == self.start,
            }
        } else {
            match cur {
                Some(item) => self.hangs(item.tile.position, self.closed.len() as int, None),
                None => true,
            }
        }
        &&& (self.closed.len() > 0 || cur.is_some()) ==> forall|i: int|
            0 <= i < self.open.len() ==> self.hangs(
                (#[trigger] self.open[i]).tile.position,
                self.closed.len() as int,
                place(cur),
            )
    }

    /// A look keeps the search on its grid and the parents linked.
    pub proof fn lemma_look_linked(self, origin: GridView, cur: ListItem, k: int, at: (usize, usize))
        requires
            self.tidy_around(cur),
            self.kept(origin),
            self.linked(Some(cur)),
            0 <= k < PLACES,
            neighbor(cur.tile.position, k, self.size) == Some(at),
        ensures
            self.look(cur, k, at).kept(origin),
            self.look(cur, k, at).linked(Some(cur)),
    {
        let after = self.look(cur, k, at);
        self.lemma_look(cur, k, at);
        lemma_neighbor(cur.tile.position, k, self.size);
        lemma_find(self.open, at);
        lemma_find(self.closed, at);
        lemma_find(self.open, cur.tile.position);
        lemma_find(self.closed, cur.tile.position);
        let tile = self.cells[at.1 as int][at.0 as int];
        if after.cells != self.cells {
            assert(after.cells == with_parent(self.cells, at, cur.tile.position));
            assert(tile.tile_type == TileType::Empty);
            assert(find(self.closed, at) == self.closed.len());
            assert(after.hangs(at, self.closed.len() as int, Some(cur.tile.position)));
            assert forall|p: (usize, usize)| p != at && self.grid().in_bounds(p) implies after.kind_at(
                p,
            ) == self.kind_at(p) && after.parent_at(p) == self.parent_at(p) by {}
            assert forall|j: int| 1 <= j < after.closed.len() implies after.hangs(
                (#[trigger] after.closed[j]).tile.position,
                j,
                None,
            ) by {
                assert(self.hangs(self.closed[j].tile.position, j, None));
            }
            let i = find(self.open, at);
            assert forall|j: int| 0 <= j < after.open.len() implies after.hangs(
                (#[trigger] after.open[j]).tile.position,
                after.closed.len() as int,
                Some(cur.tile.position),
            ) by {
                if j < self.open.len() && j != i {
                    assert(self.hangs(
                        self.open[j].tile.position,
                        self.closed.len() as int,
                        Some(cur.tile.position),
                    ));
                    assert(after.open[j].tile.position == self.open[j].tile.position);
                    assert(self.open[j].tile.position != at);
                } else {
                    assert(after.open[j].tile.position == at);
                }
            }
        }
    }

    /// The looks around a tile keep the search on its grid and the parents
    /// linked.
    pub proof fn lemma_expand_linked(self, origin: GridView, cur: ListItem, k: int)
        requires
            self.tidy_around(cur),
            self.kept(origin),
            self.linked(Some(cur)),
            0 <= k <= PLACES,
        ensures
            self.expand(cur, k).kept(origin),
            self.expand(cur, k).linked(Some(cur)),
        decreases PLACES - k,
    {
        if k < PLACES && !self.found {
            match neighbor(cur.tile.position, k, self.size) {
                Some(at) => {
                    self.lemma_look(cur, k, at);
                    self.lemma_look_linked(origin, cur, k, at);
                },
                None => {},
            }
            self.visit(cur, k).lemma_expand_linked(origin, cur, k + 1);
        }
    }

    /// Taking the best item off the open list keeps the parents linked.
    pub proof fn lemma_taken_linked(self)
        requires
            self.tidy(),
            self.active(),
            self.linked(None),
        ensures
            self.taken().linked(Some(self.open[best(self.open)])),
    {
        lemma_best(self.open);
        let index = best(self.open);
        let rest = self.open.remove(index);
        assert forall|j: int| 0 <= j < rest.len() implies #[trigger] rest[j] == self.open[if j
            < index {
            j
        } else {
            j + 1
        }] by {}
        let after = self.taken();
        if self.closed.len() > 0 {
            assert(self.hangs(self.open[index].tile.position, self.closed.len() as int, None));
            assert forall|i: int| 0 <= i < after.open.len() implies after.hangs(
                (#[trigger] after.open[i]).tile.position,
                after.closed.len() as int,
                Some(self.open[index].tile.position),
            ) by {
                let from = if i < index {
                    i
                } else {
                    i + 1
                };
                assert(self.hangs(self.open[from].tile.position, self.closed.len() as int, None));
            }
        }
    }

    /// A step keeps the search on its grid. If it does not find the end, it
    /// keeps the parents linked.
    pub proof fn lemma_step_linked(self, origin: GridView)
        requires
            self.tidy(),
            self.active(),
            self.kept(origin),
            self.linked(None),
        ensures
            self.step().kept(origin),
            !self.step().found ==> self.step().linked(None),
            self.step().found ==> !self.step().broken,
    {
        self.lemma_taken();
        self.lemma_taken_linked();
        let cur = self.open[best(self.open)];
        self.taken().lemma_expand(cur, 0);
        self.taken().lemma_expand_linked(origin, cur, 0);
        let expanded = self.taken().expand(cur, 0);
        lemma_find(expanded.closed, cur.tile.position);
        if !expanded.found {
            let after = expanded.settle(cur);
            let count = expanded.closed.len() as int;
            assert(after.closed == expanded.closed.push(cur));
            assert forall|q: (usize, usize)| find(expanded.closed, q) < count implies find(
                after.closed,
                q,
            ) == find(expanded.closed, q) by {
                lemma_find(expanded.closed, q);
                lemma_find_is(after.closed, q, find(expanded.closed, q));
            }
            lemma_find_is(after.closed, cur.tile.position, count);
            assert forall|j: int| 1 <= j < after.closed.len() implies after.hangs(
                (#[trigger] after.closed[j]).tile.position,
                j,
                None,
            ) by {
                if j < count {
                    assert(expanded.hangs(expanded.closed[j].tile.position, j, None));
                } else {
                    assert(expanded.hangs(cur.tile.position, count, None));
                }
            }
            assert forall|i: int| 0 <= i < after.open.len() implies after.hangs(
                (#[trigger] after.open[i]).tile.position,
                after.closed.len() as int,
                None,
            ) by {
                assert(expanded.hangs(
                    expanded.open[i].tile.position,
                    count,
                    Some(cur.tile.position),
                ));
            }
            assert forall|i: int, j: int| 0 <= i < j < after.closed.len() implies (
            #[trigger] after.closed[i]).tile.position != (
            #[trigger] after.closed[j]).tile.position by {
                if j < count {
                    assert(expanded.closed[i].tile.position != expanded.closed[j].tile.position);
                }
            }
        } else {
            expanded.lemma_way_back(cur);
        }
    }

    /// The way back from a closed tile reaches the start, over no more tiles
    /// than were closed before it.
    pub proof fn lemma_way_from_closed(self, cur: Option<ListItem>, j: int, fuel: nat)
        requires
            self.placed(),
            self.linked(cur),
            0 <= j < self.closed.len(),
            fuel >= j,
        ensures
            trace(self.cells, self.size, self.closed[j].tile.position, fuel).1,
        decreases j,
    {
        let p = self.closed[j].tile.position;
        if j > 0 {
            assert(self.hangs(p, j, None));
            let q = self.parent_at(p).unwrap();
            lemma_find(self.closed, q);
            self.lemma_way_from_closed(cur, find(self.closed, q), (fuel - 1) as nat);
        }
    }

    /// The way back from the tile that found the end reaches the start.
    pub proof fn lemma_way_back(self, cur: ListItem)
        requires
            self.tidy_around(cur),
            self.linked(Some(cur)),
        ensures
            !self.finish(cur).broken,
    {
        let p = cur.tile.position;
        if self.closed.len() > 0 {
            assert(self.hangs(p, self.closed.len() as int, None));
            let q = self.parent_at(p).unwrap();
            lemma_find(self.closed, q);
            self.lemma_way_from_closed(
                Some(cur),
                find(self.closed, q),
                (self.closed.len() - 1) as nat,
            );
        }
    }

    /// No more tiles are closed than the grid has.
    pub proof fn lemma_closed_count(self)
        requires
            self.placed(),
            self.closed_once(),
        ensures
            self.closed.len() <= self.size * self.size,
    {
        let size = self.size as int;
        let ids = Seq::new(
            self.closed.len(),
            |i: int|
                entity_at(
                    size,
                    self.closed[i].tile.position.0 as int,
                    self.closed[i].tile.position.1 as int,
                ),
        );
        assert forall|i: int, j: int| 0 <= i < ids.len() && 0 <= j < ids.len() && i != j implies ids[i]
            != ids[j] by {
            let a = self.closed[i].tile.position;
            let b = self.closed[j].tile.position;
            assert(self.grid().in_bounds(a) && self.grid().in_bounds(b));
            if i < j {
                assert(a != b);
            } else {
                assert(self.closed[j].tile.position != self.closed[i].tile.position);
            }
            lemma_entity_div_mod(size, a.0 as int, a.1 as int);
            lemma_entity_div_mod(size, b.0 as int, b.1 as int);
        }
        ids.unique_seq_to_set();
        let all = vstd::set_lib::set_int_range(0, size * size);
        vstd::set_lib::lemma_int_range(0, size * size);
        assert forall|id: int| ids.to_set().contains(id) implies all.contains(id) by {
            let i = choose|i: int| 0 <= i < ids.len() && ids[i] == id;
            let a = self.closed[i].tile.position;
            assert(self.grid().in_bounds(a));
            lemma_entity_bound(size, a.0 as int, a.1 as int);
        }
        vstd::set_lib::lemma_len_subset(ids.to_set(), all);
    }

    /// With a step of fuel for each tile that is not closed yet, and one more,
    /// the search runs to its end: it stops because the end was found or no
    /// tile is open, not for want of fuel.
    pub proof fn lemma_run_linked(self, origin: GridView, fuel: nat)
        requires
            self.tidy(),
            !self.found,
            self.kept(origin),
            self.linked(None),
            fuel + self.closed.len() >= self.size * self.size + 1,
        ensures
            !self.run(fuel).active(),
            !self.run(fuel).broken,
            self.run(fuel).kept(origin),
            self.run(fuel).placed(),
        decreases fuel,
    {
        self.lemma_closed_count();
        if self.active() {
            self.lemma_step();
            self.lemma_step_linked(origin);
            let next = self.step();
            if next.found {
                assert(next.run((fuel - 1) as nat) == next);
                self.lemma_step_placed();
            } else {
                next.lemma_run_linked(origin, (fuel - 1) as nat);
            }
        }
    }

    /// A step leaves the lists on the grid, whether it finds the end or not.
    pub proof fn lemma_step_placed(self)
        requires
            self.tidy(),
            self.active(),
        ensures
            self.step().placed(),
    {
        self.lemma_taken();
        let cur = self.open[best(self.open)];
        self.taken().lemma_expand(cur, 0);
        self.lemma_step();
    }
}

/// A look keeps the search on its grid.
pub proof fn lemma_look_kept(state: Search, origin: GridView, cur: ListItem, k: int, at: (usize, usize))
    requires
        state.tidy_around(cur),
        state.kept(origin),
        0 <= k < PLACES,
        neighbor(cur.tile.position, k, state.size) == Some(at),
    ensures
        state.look(cur, k, at).kept(origin),
{
    state.lemma_look(cur, k, at);
    lemma_neighbor(cur.tile.position, k, state.size);
}

/// The search before its first step is as every step needs it.
pub proof fn lemma_begin(grid: GridView, heuristic: Heuristic)
    requires
        grid.wf(),
        grid.start_marked(),
    ensures
        Search::begin(grid, heuristic).tidy(),
        Search::begin(grid, heuristic).kept(grid),
        Search::begin(grid, heuristic).linked(None),
        !Search::begin(grid, heuristic).found,
{
}

/// The search ends, and the way back from the end does not break off, on every
/// grid whose start marker stands on a `Start` tile. The search changes no
/// tile's kind: it leaves the grid well formed, with the markers where they
/// were.
pub proof fn lemma_search_sound(grid: GridView, heuristic: Heuristic)
    requires
        grid.wf(),
        grid.start_marked(),
    ensures
        !search(grid, heuristic).active(),
        !search(grid, heuristic).broken,
        search(grid, heuristic).kept(grid),
        (GridView { cells: search(grid, heuristic).cells, ..grid }).wf(),
        grid.marked() ==> (GridView { cells: search(grid, heuristic).cells, ..grid }).marked(),
{
    lemma_begin(grid, heuristic);
    Search::begin(grid, heuristic).lemma_run_linked(grid, (grid.size * grid.size + 1) as nat);
}

} // verus!
