//! The way that the search finds is a shortest one.
use crate::cost::{Cost, Weight};
use crate::grid::GridView;
use crate::heuristic_laws::{
    adjacent, is_walk, lemma_diagonal_along, lemma_diagonal_near, lemma_walk_not_negative,
    lemma_walk_part, lemma_walk_push, lemma_walk_split, step_weight, walk_weight,
};
use crate::search::{best, find, neighbor, on_path, search, step_cost, total, trace, Search, PLACES};
use crate::search_laws::{lemma_best, lemma_best_least, lemma_find, lemma_find_is, lemma_neighbor};
use crate::search_reach::{
    is_way, lemma_adjacent_neighbor, lemma_begin_explored, lemma_find_push, lemma_neighbor_adjacent,
    next_to_end,
};
use crate::search_sound::{lemma_begin, lemma_look_kept, place};
use crate::solve_buffer::TileColorEvent;
use crate::solver::{diagonal_distance, Heuristic, ListItem};
use crate::tile::{Tile, TileType};
use vstd::prelude::*;

verus! {

/// The cost of the step to a place is the cost of the step to the tile there.
pub proof fn lemma_step_weight(p: (usize, usize), k: int, size: usize)
    requires
        0 <= k < PLACES,
        neighbor(p, k, size).is_some(),
    ensures
        step_cost(k)@ == step_weight(p, neighbor(p, k, size).unwrap()),
{
}

/// Different places around a tile hold different tiles.
pub proof fn lemma_neighbor_injective(p: (usize, usize), k: int, other: int, size: usize)
    requires
        0 <= k < PLACES,
        0 <= other < PLACES,
        neighbor(p, k, size).is_some(),
        neighbor(p, k, size) == neighbor(p, other, size),
    ensures
        k == other,
{
}

/// The first positions of a way are a way.
pub proof fn lemma_way_take(grid: GridView, path: Seq<(usize, usize)>, count: int)
    requires
        is_way(grid, path),
        1 <= count <= path.len(),
    ensures
        is_way(grid, path.take(count)),
        path.take(count).last() == path[count - 1],
{
    let part = path.take(count);
    lemma_walk_part(path, 0, count);
    assert(part =~= path.subrange(0, count));
    assert forall|i: int| 0 <= i < part.len() implies grid.in_bounds(#[trigger] part[i]) by {
        assert(part[i] == path[i]);
    }
    assert forall|i: int| 1 <= i < part.len() implies grid.tile(#[trigger] part[i]).tile_type
        == TileType::Empty by {
        assert(part[i] == path[i]);
    }
}

/// Whether no way to the tile at `p` costs less than `d`.
pub open spec fn cheapest(grid: GridView, p: (usize, usize), d: Cost) -> bool {
    forall|path: Seq<(usize, usize)>|
        #[trigger] is_way(grid, path) && path.last() == p ==> d@.le(walk_weight(path))
}

/// The way from the start to the tile at `p` that the parents tell, followed
/// back over at most `fuel` tiles.
pub open spec fn way_to(cells: Seq<Seq<Tile>>, size: usize, p: (usize, usize), fuel: nat) -> Seq<
    (usize, usize),
>
    decreases fuel,
{
    if p.0 >= size || p.1 >= size || fuel == 0 || cells[p.1 as int][p.0 as int].tile_type
        == TileType::Start {
        seq![p]
    } else {
        match cells[p.1 as int][p.0 as int].parent {
            Some(parent) => way_to(cells, size, parent, (fuel - 1) as nat).push(p),
            None => seq![p],
        }
    }
}

/// The batches that colour the way `path`: one for each of its tiles but the
/// first, from the last tile back.
pub open spec fn way_batches(cells: Seq<Seq<Tile>>, path: Seq<(usize, usize)>) -> Seq<
    Seq<TileColorEvent>,
> {
    Seq::new(
        (path.len() - 1) as nat,
        |i: int|
            {
                let p = path[path.len() - 1 - i];
                seq![on_path(cells[p.1 as int][p.0 as int])]
            },
    )
}

impl Search {
    /// The way from the start to the tile from which the end was found.
    pub open spec fn way(self) -> Seq<(usize, usize)> {
        way_to(self.cells, self.size, self.last.unwrap(), self.closed.len())
    }

    /// The cost `d` of the item at `p` is the cost of the item it was reached
    /// from and the step from there.
    pub open spec fn paid(self, p: (usize, usize), d: Cost, cur: Option<ListItem>) -> bool {
        let q = self.parent_at(p).unwrap();
        let i = find(self.closed, q);
        if i < self.closed.len() {
            d@ == self.closed[i].d@.plus(step_weight(q, p))
        } else {
            cur.is_some() && d@ == cur.unwrap().d@.plus(step_weight(q, p))
        }
    }

    /// The cost `d` of the item at `p` is at most the cost of any closed item
    /// next to it and the step from there, and the same for the item `cur` if
    /// the tile at `p` is at one of the first `done` places around it.
    pub open spec fn capped(self, p: (usize, usize), d: Cost, cur: Option<ListItem>, done: int) -> bool {
        &&& forall|j: int, k: int|
            0 <= j < self.closed.len() && 0 <= k < PLACES && #[trigger] neighbor(
                self.closed[j].tile.position,
                k,
                self.size,
            ) == Some(p) ==> d@.le(self.closed[j].d@.plus(step_cost(k)@))
        &&& cur.is_some() ==> forall|k: int|
            0 <= k < done && #[trigger] neighbor(cur.unwrap().tile.position, k, self.size) == Some(
                p,
            ) ==> d@.le(cur.unwrap().d@.plus(step_cost(k)@))
    }

    /// What an open item is worth: its cost is paid for and capped, and its
    /// estimate is the heuristic's.
    pub open spec fn worth(self, item: ListItem, cur: Option<ListItem>, done: int) -> bool {
        &&& self.paid(item.tile.position, item.d, cur)
        &&& self.capped(item.tile.position, item.d, cur, done)
        &&& item.h == self.heuristic.estimate(item.tile.position, self.end)
    }

    /// The costs are right: no way to a closed tile, or to the tile `cur` that
    /// is being expanded, costs less than the item's cost, and each item's cost
    /// is the cost of the way that the parents tell.
    pub open spec fn priced(self, grid: GridView, cur: Option<ListItem>, done: int) -> bool {
        &&& self.closed.len() > 0 ==> self.closed[0].d@ == Weight::zero()
        &&& forall|j: int|
            0 <= j < self.closed.len() ==> cheapest(
                grid,
                (#[trigger] self.closed[j]).tile.position,
                self.closed[j].d,
            )
        &&& forall|j: int|
            1 <= j < self.closed.len() ==> self.paid(
                (#[trigger] self.closed[j]).tile.position,
                self.closed[j].d,
                None,
            )
        &&& match cur {
            Some(item) => {
                &&& cheapest(grid, item.tile.position, item.d)
                &&& if self.closed.len() == 0 {
                    item.d@ == Weight::zero()
                } else {
                    &&& self.paid(item.tile.position, item.d, None)
                    &&& item.h == self.heuristic.estimate(item.tile.position, self.end)
                }
            },
            None => self.closed.len() == 0 ==> self.open[0].d@ == Weight::zero(),
        }
        &&& (self.closed.len() > 0 || cur.is_some()) ==> forall|i: int|
            0 <= i < self.open.len() ==> self.worth(#[trigger] self.open[i], cur, done)
    }

    /// On a way from the start, the tiles up to some tile are closed, and that
    /// tile, if the way goes so far, is open. Returns the index of that tile.
    pub proof fn lemma_frontier(self, grid: GridView, path: Seq<(usize, usize)>, upto: int) -> (i:
        int)
        requires
            self.tidy(),
            self.kept(grid),
            self.explored(grid, None, 0),
            is_way(grid, path),
            0 <= upto < path.len(),
        ensures
            0 <= i <= upto + 1,
            forall|t: int| 0 <= t < i ==> find(self.closed, #[trigger] path[t]) < self.closed.len(),
            i <= upto ==> find(self.open, path[i]) < self.open.len(),
            i <= upto ==> find(self.closed, path[i]) == self.closed.len(),
        decreases upto,
    {
        lemma_find(self.closed, path[upto]);
        lemma_find(self.open, path[upto]);
        if upto == 0 {
            if find(self.closed, self.start) < self.closed.len() {
                1
            } else {
                0
            }
        } else {
            let i = self.lemma_frontier(grid, path, upto - 1);
            if i <= upto - 1 {
                i
            } else {
                let p = path[upto - 1];
                let q = path[upto];
                lemma_find(self.closed, p);
                let j = find(self.closed, p);
                assert(adjacent(path[upto - 1], path[upto - 1 + 1]));
                assert(grid.in_bounds(q));
                lemma_adjacent_neighbor(p, q, self.size);
                let k = 3 * (q.0 - p.0 + 1) + (q.1 - p.1 + 1);
                assert(self.dealt(grid, self.closed[j].tile.position, k, None));
                assert(grid.tile(q).tile_type == TileType::Empty);
                if find(self.closed, q) < self.closed.len() {
                    upto + 1
                } else {
                    upto
                }
            }
        }
    }

    /// The open item on a way from the start that comes behind closed tiles
    /// only costs no more than the way up to it.
    pub proof fn lemma_frontier_cost(self, grid: GridView, path: Seq<(usize, usize)>, i: int)
        requires
            self.tidy(),
            self.kept(grid),
            self.linked(None),
            self.priced(grid, None, 0),
            self.closed.len() > 0,
            is_way(grid, path),
            0 <= i < path.len(),
            forall|t: int| 0 <= t < i ==> find(self.closed, #[trigger] path[t]) < self.closed.len(),
            find(self.open, path[i]) < self.open.len(),
            find(self.closed, path[i]) == self.closed.len(),
        ensures
            i >= 1,
            self.open[find(self.open, path[i])].d@.le(walk_weight(path.take(i + 1))),
    {
        let v = path[i];
        lemma_find(self.open, v);
        lemma_find(self.closed, self.start);
        lemma_find_is(self.closed, self.start, 0);
        if i == 0 {
            assert(find(self.closed, path[0]) == 0);
        } else {
            let item = self.open[find(self.open, v)];
            let p = path[i - 1];
            lemma_find(self.closed, p);
            let j = find(self.closed, p);
            assert(adjacent(path[i - 1], path[i - 1 + 1]));
            assert(grid.in_bounds(v));
            lemma_adjacent_neighbor(p, v, self.size);
            let k = 3 * (v.0 - p.0 + 1) + (v.1 - p.1 + 1);
            lemma_step_weight(p, k, self.size);
            assert(self.worth(item, None, 0));
            assert(neighbor(self.closed[j].tile.position, k, self.size) == Some(v));
            assert(item.d@.le(self.closed[j].d@.plus(step_cost(k)@)));
            let before = path.take(i);
            lemma_way_take(grid, path, i);
            assert(cheapest(grid, self.closed[j].tile.position, self.closed[j].d));
            assert(is_way(grid, before) && before.last() == p);
            assert(self.closed[j].d@.le(walk_weight(before)));
            lemma_walk_push(before, v);
            assert(path.take(i + 1) =~= before.push(v));
            let step = step_weight(p, v);
            self.closed[j].d@.lemma_plus_monotone(walk_weight(before), step);
            item.d@.lemma_le_transitive(
                self.closed[j].d@.plus(step),
                walk_weight(before).plus(step),
            );
        }
    }

    /// On a way from the start to a tile that is not closed, some open item
    /// comes behind closed tiles only. Its cost is at most the cost of the way
    /// up to it, its estimate is the heuristic's, and the total of the best open
    /// item is no more than its total. Returns the index of its tile on the way.
    pub proof fn lemma_frontier_item(self, grid: GridView, path: Seq<(usize, usize)>) -> (i: int)
        requires
            self.tidy(),
            self.active(),
            self.kept(grid),
            self.linked(None),
            self.explored(grid, None, 0),
            self.priced(grid, None, 0),
            self.closed.len() > 0,
            is_way(grid, path),
            find(self.closed, path.last()) == self.closed.len(),
        ensures
            1 <= i < path.len(),
            find(self.open, path[i]) < self.open.len(),
            self.open[find(self.open, path[i])].d@.le(walk_weight(path.take(i + 1))),
            self.open[find(self.open, path[i])].h == diagonal_distance(path[i], self.end),
            self.open[best(self.open)].h == diagonal_distance(
                self.open[best(self.open)].tile.position,
                self.end,
            ),
            total(self.open[best(self.open)]).le(total(self.open[find(self.open, path[i])])),
    {
        lemma_best(self.open);
        lemma_best_least(self.open);
        let last = path.len() - 1;
        let i = self.lemma_frontier(grid, path, last);
        self.lemma_frontier_cost(grid, path, i);
        lemma_find(self.open, path[i]);
        assert(self.worth(self.open[find(self.open, path[i])], None, 0));
        assert(self.worth(self.open[best(self.open)], None, 0));
        i
    }

    /// No way to the tile of the best open item costs less than the item's
    /// cost.
    pub proof fn lemma_best_cheapest(self, grid: GridView, path: Seq<(usize, usize)>)
        requires
            self.tidy(),
            self.active(),
            self.kept(grid),
            self.linked(None),
            self.explored(grid, None, 0),
            self.priced(grid, None, 0),
            is_way(grid, path),
            path.last() == self.open[best(self.open)].tile.position,
        ensures
            self.open[best(self.open)].d@.le(walk_weight(path)),
    {
        lemma_best(self.open);
        let cur = self.open[best(self.open)];
        if self.closed.len() == 0 {
            lemma_walk_not_negative(path);
            assert(self.open.len() == 1);
            assert(cur.d@ == Weight::zero());
        } else {
            assert(find(self.closed, cur.tile.position) == self.closed.len()) by {
                lemma_find(self.closed, cur.tile.position);
            }
            let i = self.lemma_frontier_item(grid, path);
            let item = self.open[find(self.open, path[i])];
            lemma_through(path, i, self.end, cur.d@, cur.h@, item.d@, item.h@, cur.h@);
            cur.d@.lemma_plus_monotone(walk_weight(path), cur.h@);
        }
    }

    /// The way through the best open item to the end next to it costs no more
    /// than any way to the end.
    pub proof fn lemma_best_shortest(self, grid: GridView, path: Seq<(usize, usize)>)
        requires
            grid.wf(),
            grid.marked(),
            self.tidy(),
            self.active(),
            self.kept(grid),
            self.linked(None),
            self.explored(grid, None, 0),
            self.priced(grid, None, 0),
            adjacent(self.open[best(self.open)].tile.position, grid.end),
            is_way(grid, path),
            adjacent(path.last(), grid.end),
        ensures
            self.open[best(self.open)].d@.plus(
                step_weight(self.open[best(self.open)].tile.position, grid.end),
            ).le(walk_weight(path).plus(step_weight(path.last(), grid.end))),
    {
        lemma_best(self.open);
        let cur = self.open[best(self.open)];
        let end = grid.end;
        lemma_diagonal_near(path.last(), end);
        lemma_diagonal_near(cur.tile.position, end);
        if self.closed.len() == 0 {
            lemma_diagonal_along(path, end);
            assert(self.open.len() == 1);
            assert(cur.tile.position == path[0]);
            assert(cur.d@ == Weight::zero());
            assert(cur.d@.plus(step_weight(cur.tile.position, end)) == diagonal_distance(
                path.first(),
                end,
            )@);
        } else {
            self.lemma_end_not_closed(grid, path.last());
            let i = self.lemma_frontier_item(grid, path);
            let item = self.open[find(self.open, path[i])];
            lemma_through(
                path,
                i,
                end,
                cur.d@,
                cur.h@,
                item.d@,
                item.h@,
                step_weight(path.last(), end),
            );
        }
    }

    /// No closed tile is next to the end.
    pub proof fn lemma_end_not_closed(self, grid: GridView, p: (usize, usize))
        requires
            grid.marked(),
            grid.in_bounds(grid.end),
            self.kept(grid),
            self.explored(grid, None, 0),
            adjacent(p, grid.end),
        ensures
            find(self.closed, p) == self.closed.len(),
    {
        lemma_find(self.closed, p);
        if find(self.closed, p) < self.closed.len() {
            let j = find(self.closed, p);
            let end = grid.end;
            lemma_adjacent_neighbor(p, end, self.size);
            let k = 3 * (end.0 - p.0 + 1) + (end.1 - p.1 + 1);
            assert(self.dealt(grid, self.closed[j].tile.position, k, None));
            assert(grid.cells[end.1 as int][end.0 as int].tile_type == TileType::End);
        }
    }

    /// A look keeps the costs right.
    pub proof fn lemma_look_priced(self, grid: GridView, cur: ListItem, k: int, at: (usize, usize))
        requires
            self.tidy_around(cur),
            self.kept(grid),
            self.linked(Some(cur)),
            self.explored(grid, Some(cur), k),
            self.priced(grid, Some(cur), k),
            !self.found,
            0 <= k < PLACES,
            neighbor(cur.tile.position, k, self.size) == Some(at),
        ensures
            self.look(cur, k, at).priced(grid, Some(cur), 0),
            !self.look(cur, k, at).found ==> self.look(cur, k, at).priced(grid, Some(cur), k + 1),
    {
        let after = self.look(cur, k, at);
        self.lemma_look(cur, k, at);
        self.lemma_closed_count();
        lemma_neighbor(cur.tile.position, k, self.size);
        lemma_step_weight(cur.tile.position, k, self.size);
        lemma_find(self.open, at);
        lemma_find(self.closed, at);
        lemma_find(self.closed, cur.tile.position);
        let tile = self.cells[at.1 as int][at.0 as int];
        let d = cur.d.spec_plus(step_cost(k));
        assert(d@ == cur.d@.plus(step_cost(k)@));
        d@.lemma_lt_irreflexive();
        assert forall|p: (usize, usize)| p != at && self.grid().in_bounds(p) implies after.parent_at(
            p,
        ) == self.parent_at(p) by {}
        assert forall|j: int| 1 <= j < after.closed.len() implies after.paid(
            (#[trigger] after.closed[j]).tile.position,
            after.closed[j].d,
            None,
        ) by {
            assert(self.paid(self.closed[j].tile.position, self.closed[j].d, None));
        }
        if !after.found {
            let changed = after.open != self.open;
            let i = find(self.open, at);
            assert forall|n: int| 0 <= n < after.open.len() implies after.worth(
                #[trigger] after.open[n],
                Some(cur),
                k + 1,
            ) by {
                let item = after.open[n];
                let p = item.tile.position;
                if changed && ((n == i && i < self.open.len()) || n >= self.open.len()) {
                    // the item at `at`, with the new cost
                    assert(p == at);
                    assert(item.d == d);
                    assert(after.parent_at(at) == Some(cur.tile.position));
                    assert forall|j: int, k2: int|
                        0 <= j < after.closed.len() && 0 <= k2 < PLACES && #[trigger] neighbor(
                            after.closed[j].tile.position,
                            k2,
                            after.size,
                        ) == Some(at) implies d@.le(after.closed[j].d@.plus(step_cost(k2)@)) by {
                        if i < self.open.len() {
                            assert(self.worth(self.open[i], Some(cur), k));
                            d@.lemma_lt_le(
                                self.open[i].d@,
                                self.closed[j].d@.plus(step_cost(k2)@),
                            );
                            d@.lemma_lt_asymmetric(self.closed[j].d@.plus(step_cost(k2)@));
                        } else {
                            assert(self.dealt(
                                grid,
                                self.closed[j].tile.position,
                                k2,
                                Some(cur.tile.position),
                            ));
                            assert(grid.tile(at).tile_type == tile.tile_type);
                            assert(false);
                        }
                    }
                    assert forall|k2: int|
                        0 <= k2 < k + 1 && #[trigger] neighbor(cur.tile.position, k2, after.size)
                            == Some(at) implies d@.le(cur.d@.plus(step_cost(k2)@)) by {
                        lemma_neighbor_injective(cur.tile.position, k, k2, self.size);
                    }
                } else {
                    assert(n < self.open.len());
                    assert(item.tile.position == self.open[n].tile.position);
                    assert(item == self.open[n]);
                    assert(self.worth(self.open[n], Some(cur), k));
                    if p == at {
                        // the item at `at` keeps its cost, which is not above the new one
                        assert(n == i);
                        assert(after.cells == self.cells);
                    } else {
                        assert(after.parent_at(p) == self.parent_at(p));
                    }
                    assert forall|k2: int|
                        0 <= k2 < k + 1 && #[trigger] neighbor(cur.tile.position, k2, after.size)
                            == Some(p) implies item.d@.le(cur.d@.plus(step_cost(k2)@)) by {
                        if k2 == k {
                            assert(p == at);
                        }
                    }
                }
            }
        }
    }

    /// The looks around a tile keep the costs right.
    pub proof fn lemma_expand_priced(self, grid: GridView, cur: ListItem, k: int)
        requires
            self.tidy_around(cur),
            self.kept(grid),
            self.linked(Some(cur)),
            self.explored(grid, Some(cur), k),
            self.priced(grid, Some(cur), k),
            !self.found,
            0 <= k <= PLACES,
        ensures
            self.expand(cur, k).priced(grid, Some(cur), 0),
            !self.expand(cur, k).found ==> self.expand(cur, k).priced(
                grid,
                Some(cur),
                PLACES as int,
            ),
            self.expand(cur, k).found ==> next_to_end(grid, cur.tile.position),
        decreases PLACES - k,
    {
        if k < PLACES {
            let next = self.visit(cur, k);
            match neighbor(cur.tile.position, k, self.size) {
                Some(at) => {
                    self.lemma_look(cur, k, at);
                    self.lemma_look_linked(grid, cur, k, at);
                    self.lemma_look_explored(grid, cur, k, at);
                    self.lemma_look_priced(grid, cur, k, at);
                    lemma_look_kept(self, grid, cur, k, at);
                    lemma_neighbor(cur.tile.position, k, self.size);
                    if next.found {
                        assert(self.cells[at.1 as int][at.0 as int].tile_type == grid.tile(
                            at,
                        ).tile_type);
                        assert(next_to_end(grid, cur.tile.position));
                    }
                },
                None => {
                    assert forall|k2: int| 0 <= k2 < k + 1 implies #[trigger] self.dealt(
                        grid,
                        cur.tile.position,
                        k2,
                        None,
                    ) by {
                        if k2 < k {
                            assert(self.dealt(grid, cur.tile.position, k2, None));
                        }
                    }
                    assert forall|n: int| 0 <= n < self.open.len() implies self.worth(
                        #[trigger] self.open[n],
                        Some(cur),
                        k + 1,
                    ) by {
                        assert(self.worth(self.open[n], Some(cur), k));
                    }
                },
            }
            assert(self.expand(cur, k) == next.expand(cur, k + 1));
            if !next.found {
                next.lemma_expand_priced(grid, cur, k + 1);
            } else {
                assert(next.expand(cur, k + 1) == next);
            }
        } else {
            assert(self.expand(cur, k) == self);
            assert forall|n: int| 0 <= n < self.open.len() implies self.worth(
                #[trigger] self.open[n],
                Some(cur),
                0,
            ) by {
                assert(self.worth(self.open[n], Some(cur), k));
            }
        }
    }

    /// Taking the best item off the open list keeps the costs right.
    pub proof fn lemma_taken_priced(self, grid: GridView)
        requires
            self.tidy(),
            self.active(),
            self.kept(grid),
            self.linked(None),
            self.explored(grid, None, 0),
            self.priced(grid, None, 0),
        ensures
            self.taken().priced(grid, Some(self.open[best(self.open)]), 0),
    {
        lemma_best(self.open);
        let index = best(self.open);
        let cur = self.open[index];
        let taken = self.taken();
        assert(cheapest(grid, cur.tile.position, cur.d)) by {
            assert forall|path: Seq<(usize, usize)>|
                #[trigger] is_way(grid, path) && path.last()
                    == cur.tile.position implies cur.d@.le(walk_weight(path)) by {
                self.lemma_best_cheapest(grid, path);
            }
        }
        if self.closed.len() > 0 {
            assert(self.worth(cur, None, 0));
            lemma_find(self.closed, cur.tile.position);
            assert forall|n: int| 0 <= n < taken.open.len() implies taken.worth(
                #[trigger] taken.open[n],
                Some(cur),
                0,
            ) by {
                let from = if n < index {
                    n
                } else {
                    n + 1
                };
                assert(taken.open[n] == self.open[from]);
                assert(self.worth(self.open[from], None, 0));
                assert(self.hangs(
                    self.open[from].tile.position,
                    self.closed.len() as int,
                    None,
                ));
            }
        } else {
            assert(index == 0);
            assert(taken.open.len() == 0);
        }
        assert forall|j: int| 1 <= j < taken.closed.len() implies taken.paid(
            (#[trigger] taken.closed[j]).tile.position,
            taken.closed[j].d,
            None,
        ) by {
            assert(self.paid(self.closed[j].tile.position, self.closed[j].d, None));
        }
    }

    /// Closing the tile whose places were all looked at keeps the costs right.
    pub proof fn lemma_settle_priced(self, grid: GridView, cur: ListItem)
        requires
            self.tidy_around(cur),
            self.kept(grid),
            self.linked(Some(cur)),
            self.priced(grid, Some(cur), PLACES as int),
            !self.found,
        ensures
            self.settle(cur).priced(grid, None, 0),
    {
        let after = self.settle(cur);
        let count = self.closed.len() as int;
        assert(after.closed == self.closed.push(cur));
        lemma_find(self.closed, cur.tile.position);
        lemma_find_is(after.closed, cur.tile.position, count);
        assert forall|q: (usize, usize)| find(self.closed, q) < count implies find(
            after.closed,
            q,
        ) == find(self.closed, q) by {
            lemma_find_push(self.closed, cur, q);
        }
        assert forall|j: int| 0 <= j < after.closed.len() implies cheapest(
            grid,
            (#[trigger] after.closed[j]).tile.position,
            after.closed[j].d,
        ) by {
            if j < count {
                assert(after.closed[j] == self.closed[j]);
                assert(cheapest(grid, self.closed[j].tile.position, self.closed[j].d));
            }
        }
        assert forall|j: int| 1 <= j < after.closed.len() implies after.paid(
            (#[trigger] after.closed[j]).tile.position,
            after.closed[j].d,
            None,
        ) by {
            let p = after.closed[j].tile.position;
            assert(after.parent_at(p) == self.parent_at(p));
            let q = self.parent_at(p).unwrap();
            lemma_find_push(self.closed, cur, q);
            lemma_find(self.closed, q);
            if j < count {
                assert(after.closed[j] == self.closed[j]);
                assert(self.paid(self.closed[j].tile.position, self.closed[j].d, None));
                assert(self.hangs(self.closed[j].tile.position, j, None));
            } else {
                assert(after.closed[j] == cur);
                assert(self.hangs(cur.tile.position, count, None));
                assert(self.paid(cur.tile.position, cur.d, None));
            }
            assert(after.closed[find(self.closed, q)] == self.closed[find(self.closed, q)]);
        }
        assert forall|i: int| 0 <= i < after.open.len() implies after.worth(
            #[trigger] after.open[i],
            None,
            0,
        ) by {
            let item = self.open[i];
            let p = item.tile.position;
            assert(after.open[i] == item);
            assert(self.worth(item, Some(cur), PLACES as int));
            assert(self.hangs(p, count, Some(cur.tile.position)));
            assert(after.parent_at(p) == self.parent_at(p));
            let q = self.parent_at(p).unwrap();
            lemma_find_push(self.closed, cur, q);
            lemma_find(self.closed, q);
            if find(self.closed, q) < count {
                assert(after.closed[find(self.closed, q)] == self.closed[find(self.closed, q)]);
            } else {
                assert(q == cur.tile.position);
                assert(after.closed[count] == cur);
            }
            assert(after.paid(p, item.d, None));
            assert forall|j: int, k: int|
                0 <= j < after.closed.len() && 0 <= k < PLACES && #[trigger] neighbor(
                    after.closed[j].tile.position,
                    k,
                    after.size,
                ) == Some(p) implies item.d@.le(after.closed[j].d@.plus(step_cost(k)@)) by {
                if j < count {
                    assert(after.closed[j] == self.closed[j]);
                    assert(neighbor(self.closed[j].tile.position, k, self.size) == Some(p));
                } else {
                    assert(after.closed[j] == cur);
                    assert(neighbor(cur.tile.position, k, self.size) == Some(p));
                }
            }
        }
    }

    /// The way that the parents tell from the start to a closed tile is a way
    /// over the grid, it costs what the closed item says, and it is the way
    /// that `trace` colours.
    pub proof fn lemma_way_to_closed(self, grid: GridView, cur: Option<ListItem>, j: int, fuel: nat)
        requires
            self.placed(),
            self.kept(grid),
            self.linked(cur),
            self.priced(grid, cur, 0),
            0 <= j < self.closed.len(),
            fuel >= j,
        ensures
            is_way(grid, way_to(self.cells, self.size, self.closed[j].tile.position, fuel)),
            way_to(self.cells, self.size, self.closed[j].tile.position, fuel).last()
                == self.closed[j].tile.position,
            walk_weight(way_to(self.cells, self.size, self.closed[j].tile.position, fuel))
                == self.closed[j].d@,
            trace(self.cells, self.size, self.closed[j].tile.position, fuel) == (
                way_batches(
                    self.cells,
                    way_to(self.cells, self.size, self.closed[j].tile.position, fuel),
                ),
                true,
            ),
        decreases j,
    {
        let p = self.closed[j].tile.position;
        let way = way_to(self.cells, self.size, p, fuel);
        assert(self.grid().in_bounds(p));
        if j == 0 {
            assert(way == seq![p]);
            assert(is_way(grid, way));
            assert(way_batches(self.cells, way) =~= Seq::<Seq<TileColorEvent>>::empty());
        } else {
            assert(self.hangs(p, j, None));
            assert(self.paid(p, self.closed[j].d, None));
            let q = self.parent_at(p).unwrap();
            lemma_find(self.closed, q);
            let from = find(self.closed, q);
            self.lemma_way_to_closed(grid, cur, from, (fuel - 1) as nat);
            let before = way_to(self.cells, self.size, q, (fuel - 1) as nat);
            assert(way == before.push(p));
            lemma_way_push(grid, before, p);
            lemma_walk_push(before, p);
            lemma_way_batches_push(self.cells, before, p);
            assert(self.cells[p.1 as int][p.0 as int].tile_type == grid.tile(p).tile_type);
        }
    }

    /// What a step that finds the end leaves: the way that the parents tell
    /// from the start to the tile next to the end is a way over the grid of
    /// the cost that the tile's item had, and it is the way that was coloured.
    pub proof fn lemma_finish(self, grid: GridView, cur: ListItem)
        requires
            self.tidy_around(cur),
            self.kept(grid),
            self.linked(Some(cur)),
            self.priced(grid, Some(cur), 0),
            self.batches.len() == self.closed.len(),
        ensures
            self.finish(cur).last == Some(cur.tile.position),
            is_way(grid, self.finish(cur).way()),
            self.finish(cur).way().last() == cur.tile.position,
            walk_weight(self.finish(cur).way()) == cur.d@,
            !self.finish(cur).broken,
            self.finish(cur).batches.skip(self.closed.len() as int + 1) == way_batches(
                self.finish(cur).cells,
                self.finish(cur).way(),
            ),
    {
        let after = self.finish(cur);
        let p = cur.tile.position;
        let fuel = self.closed.len();
        let way = way_to(self.cells, self.size, p, fuel);
        assert(after.way() == way);
        let traced = trace(self.cells, self.size, p, fuel);
        if self.closed.len() == 0 {
            assert(way == seq![p]);
            assert(is_way(grid, way));
            assert(way_batches(self.cells, way) =~= Seq::<Seq<TileColorEvent>>::empty());
        } else {
            assert(self.hangs(p, fuel as int, None));
            assert(self.paid(p, cur.d, None));
            let q = self.parent_at(p).unwrap();
            lemma_find(self.closed, q);
            let from = find(self.closed, q);
            self.lemma_way_to_closed(grid, Some(cur), from, (fuel - 1) as nat);
            let before = way_to(self.cells, self.size, q, (fuel - 1) as nat);
            assert(way == before.push(p));
            lemma_way_push(grid, before, p);
            lemma_walk_push(before, p);
            lemma_way_batches_push(self.cells, before, p);
            assert(self.cells[p.1 as int][p.0 as int].tile_type == grid.tile(p).tile_type);
        }
        assert(traced == (way_batches(self.cells, way), true));
        assert(after.batches.skip(self.closed.len() as int + 1) =~= traced.0);
    }

    /// What a search that found the end has found: the way that the parents
    /// tell from the start to the tile from which the end was found is a way
    /// over the grid, to a tile next to the end; the batches behind those of
    /// the steps colour its tiles, from the last back to the first after the
    /// start; and with the step to the end it costs no more than any way from
    /// the start to the end.
    pub open spec fn shortest(self, grid: GridView) -> bool {
        &&& self.last.is_some()
        &&& !self.broken
        &&& is_way(grid, self.way())
        &&& adjacent(self.way().last(), grid.end)
        &&& self.batches.skip(self.closed.len() as int + 1) == way_batches(self.cells, self.way())
        &&& forall|path: Seq<(usize, usize)>|
            #[trigger] is_way(grid, path) && adjacent(path.last(), grid.end) ==> walk_weight(
                self.way(),
            ).plus(step_weight(self.way().last(), grid.end)).le(
                walk_weight(path).plus(step_weight(path.last(), grid.end)),
            )
    }

    /// A step keeps the costs right; if it finds the end, it has found a
    /// shortest way.
    pub proof fn lemma_step_priced(self, grid: GridView)
        requires
            grid.wf(),
            grid.marked(),
            self.tidy(),
            self.active(),
            self.kept(grid),
            self.linked(None),
            self.explored(grid, None, 0),
            self.priced(grid, None, 0),
        ensures
            !self.step().found ==> self.step().priced(grid, None, 0),
            self.step().found ==> self.step().shortest(grid),
    {
        self.lemma_taken();
        self.lemma_taken_linked();
        self.lemma_taken_explored(grid);
        self.lemma_taken_priced(grid);
        let cur = self.open[best(self.open)];
        let taken = self.taken();
        taken.lemma_expand(cur, 0);
        taken.lemma_expand_linked(grid, cur, 0);
        taken.lemma_expand_priced(grid, cur, 0);
        let expanded = taken.expand(cur, 0);
        if expanded.found {
            expanded.lemma_finish(grid, cur);
            let after = expanded.finish(cur);
            assert(self.step() == after);
            lemma_next_to_end(grid, cur.tile.position);
            assert forall|path: Seq<(usize, usize)>|
                #[trigger] is_way(grid, path) && adjacent(path.last(), grid.end) implies walk_weight(
                after.way(),
            ).plus(step_weight(after.way().last(), grid.end)).le(
                walk_weight(path).plus(step_weight(path.last(), grid.end)),
            ) by {
                self.lemma_best_shortest(grid, path);
            }
        } else {
            expanded.lemma_settle_priced(grid, cur);
        }
    }

    /// The run of a search whose costs are right finds a shortest way, if it
    /// finds the end.
    pub proof fn lemma_run_priced(self, grid: GridView, fuel: nat)
        requires
            grid.wf(),
            grid.marked(),
            self.tidy(),
            !self.found,
            self.kept(grid),
            self.linked(None),
            self.explored(grid, None, 0),
            self.priced(grid, None, 0),
        ensures
            self.run(fuel).found ==> self.run(fuel).shortest(grid),
        decreases fuel,
    {
        if fuel > 0 && self.active() {
            self.lemma_step();
            self.lemma_step_linked(grid);
            self.lemma_step_explored(grid);
            self.lemma_step_priced(grid);
            let next = self.step();
            if next.found {
                assert(next.run((fuel - 1) as nat) == next);
            } else {
                next.lemma_run_priced(grid, (fuel - 1) as nat);
            }
        }
    }
}

/// On a grid with one end, a tile next to an `End` tile is next to the end
/// marker.
pub proof fn lemma_next_to_end(grid: GridView, p: (usize, usize))
    requires
        grid.wf(),
        grid.marked(),
        next_to_end(grid, p),
    ensures
        adjacent(p, grid.end),
{
    let k = choose|k: int|
        0 <= k < PLACES && (#[trigger] neighbor(p, k, grid.size)).is_some() && grid.tile(
            neighbor(p, k, grid.size).unwrap(),
        ).tile_type == TileType::End;
    let q = neighbor(p, k, grid.size).unwrap();
    lemma_neighbor(p, k, grid.size);
    lemma_neighbor_adjacent(p, k, grid.size);
    assert(grid.cells[q.1 as int][q.0 as int].tile_type == TileType::End);
}

/// The way that the search finds is a shortest one. On a grid with exactly one
/// start and one end, a search that finds the end has coloured a way from the
/// start to a tile next to the end that costs, with the step to the end, no
/// more than any way over `Empty` tiles from the start to the end.
pub proof fn lemma_search_shortest(grid: GridView, heuristic: Heuristic)
    requires
        grid.wf(),
        grid.marked(),
    ensures
        search(grid, heuristic).found ==> search(grid, heuristic).shortest(grid),
{
    lemma_begin(grid, heuristic);
    lemma_begin_explored(grid, heuristic);
    let begin = Search::begin(grid, heuristic);
    assert(begin.priced(grid, None, 0));
    begin.lemma_run_priced(grid, (grid.size * grid.size + 1) as nat);
}

/// The sum that bounds the best item's total by a way through an open item on
/// it: if the total `d + h` is at most the open item's total `dv + hv`, the
/// open item's cost `dv` is at most the cost of the way up to its tile, and its
/// estimate `hv` is the diagonal distance from there, then `d + h` is at most
/// the cost of the whole way and `beyond`, what the diagonal distance from the
/// way's last tile is.
pub proof fn lemma_through(
    path: Seq<(usize, usize)>,
    i: int,
    end: (usize, usize),
    d: Weight,
    h: Weight,
    dv: Weight,
    hv: Weight,
    beyond: Weight,
)
    requires
        is_walk(path),
        0 <= i < path.len(),
        d.plus(h).le(dv.plus(hv)),
        dv.le(walk_weight(path.take(i + 1))),
        hv == diagonal_distance(path[i], end)@,
        beyond == diagonal_distance(path.last(), end)@,
    ensures
        d.plus(h).le(walk_weight(path).plus(beyond)),
{
    let rest = path.skip(i);
    lemma_walk_part(path, i, path.len() as int);
    assert(rest =~= path.subrange(i, path.len() as int));
    lemma_diagonal_along(rest, end);
    lemma_walk_split(path, i);
    let first = walk_weight(path.take(i + 1));
    let second = walk_weight(rest);
    assert(rest.last() == path.last());
    assert(rest.first() == path[i]);
    assert(hv.le(second.plus(beyond)));
    dv.lemma_plus_le(first, hv, second.plus(beyond));
    assert(first.plus(second.plus(beyond)) == walk_weight(path).plus(beyond));
    d.plus(h).lemma_le_transitive(dv.plus(hv), walk_weight(path).plus(beyond));
}

/// A way with one more step to an `Empty` tile next to its last is a way.
pub proof fn lemma_way_push(grid: GridView, path: Seq<(usize, usize)>, q: (usize, usize))
    requires
        is_way(grid, path),
        adjacent(path.last(), q),
        grid.in_bounds(q),
        grid.tile(q).tile_type == TileType::Empty,
    ensures
        is_way(grid, path.push(q)),
{
    let longer = path.push(q);
    assert forall|i: int| 0 <= i < longer.len() - 1 implies adjacent(
        #[trigger] longer[i],
        longer[i + 1],
    ) by {
        if i < path.len() - 1 {
            assert(longer[i] == path[i]);
            assert(adjacent(path[i], path[i + 1]));
        }
    }
    assert forall|i: int| 0 <= i < longer.len() implies grid.in_bounds(#[trigger] longer[i]) by {
        if i < path.len() {
            assert(longer[i] == path[i]);
        }
    }
    assert forall|i: int| 1 <= i < longer.len() implies grid.tile(
        #[trigger] longer[i],
    ).tile_type == TileType::Empty by {
        if i < path.len() {
            assert(longer[i] == path[i]);
        }
    }
}

/// The batches of a way with one more tile are the batch of that tile and then
/// the batches of the way.
pub proof fn lemma_way_batches_push(cells: Seq<Seq<Tile>>, path: Seq<(usize, usize)>, q: (usize, usize))
    requires
        path.len() >= 1,
    ensures
        way_batches(cells, path.push(q)) == seq![seq![on_path(cells[q.1 as int][q.0 as int])]]
            + way_batches(cells, path),
{
    let longer = path.push(q);
    let left = way_batches(cells, longer);
    let right = seq![seq![on_path(cells[q.1 as int][q.0 as int])]] + way_batches(cells, path);
    assert(left.len() == right.len());
    assert forall|i: int| 0 <= i < left.len() implies left[i] == right[i] by {
        if i > 0 {
            assert(longer[longer.len() - 1 - i] == path[path.len() - 1 - (i - 1)]);
        }
    }
    assert(left =~= right);
}

} // verus!
