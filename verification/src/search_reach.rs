//! Which tiles the search reaches: it finds the end exactly if there is a way
//! to it, and else it closes every tile that can be reached, each once.
use crate::grid::GridView;
use crate::heuristic_laws::{adjacent, is_walk};
use crate::search::{best, find, neighbor, search, Search, PLACES};
use crate::search_laws::{lemma_best, lemma_find, lemma_find_is, lemma_neighbor};
use crate::search_sound::{lemma_begin, place};
use crate::solve_buffer::TileColorEvent;
use crate::solver::{Heuristic, ListItem};
use crate::tile::{TileType, PATH_COLOR};
use vstd::prelude::*;

verus! {

/// Whether `path` is a way over the grid: it begins at the start marker and
/// goes on in steps to one of the eight places around, over `Empty` tiles.
pub open spec fn is_way(grid: GridView, path: Seq<(usize, usize)>) -> bool {
    &&& path.len() >= 1
    &&& path[0] == grid.start
    &&& is_walk(path)
    &&& forall|i: int| 0 <= i < path.len() ==> grid.in_bounds(#[trigger] path[i])
    &&& forall|i: int|
        1 <= i < path.len() ==> grid.tile(#[trigger] path[i]).tile_type == TileType::Empty
}

/// Whether a way leads to the tile at `p`.
pub open spec fn reachable(grid: GridView, p: (usize, usize)) -> bool {
    exists|path: Seq<(usize, usize)>| is_way(grid, path) && #[trigger] path.last() == p
}

/// Whether one of the eight places around `p` holds an `End` tile.
pub open spec fn next_to_end(grid: GridView, p: (usize, usize)) -> bool {
    exists|k: int|
        0 <= k < PLACES && (#[trigger] neighbor(p, k, grid.size)).is_some() && grid.tile(
            neighbor(p, k, grid.size).unwrap(),
        ).tile_type == TileType::End
}

/// Whether there is a way from the start to a tile next to an `End` tile.
pub open spec fn has_way(grid: GridView) -> bool {
    exists|p: (usize, usize)| #[trigger] reachable(grid, p) && next_to_end(grid, p)
}

/// The tiles that can be reached from the start.
pub open spec fn reach(grid: GridView) -> Set<(usize, usize)> {
    Set::new(|p: (usize, usize)| reachable(grid, p))
}

/// Whether no event of `events` gives a tile the colour of the way.
pub open spec fn plain(events: Seq<TileColorEvent>) -> bool {
    forall|i: int| 0 <= i < events.len() ==> (#[trigger] events[i]).color != PATH_COLOR
}

/// Whether no batch of `batches` gives a tile the colour of the way.
pub open spec fn all_plain(batches: Seq<Seq<TileColorEvent>>) -> bool {
    forall|i: int| 0 <= i < batches.len() ==> plain(#[trigger] batches[i])
}

/// The start can be reached.
pub proof fn lemma_reach_start(grid: GridView)
    requires
        grid.wf(),
    ensures
        reachable(grid, grid.start),
{
    let path = seq![grid.start];
    assert(is_way(grid, path));
    assert(path.last() == grid.start);
}

/// An `Empty` tile next to a tile that can be reached can be reached.
pub proof fn lemma_reach_step(grid: GridView, p: (usize, usize), q: (usize, usize))
    requires
        reachable(grid, p),
        adjacent(p, q),
        grid.in_bounds(q),
        grid.tile(q).tile_type == TileType::Empty,
    ensures
        reachable(grid, q),
{
    let path = choose|path: Seq<(usize, usize)>| is_way(grid, path) && #[trigger] path.last() == p;
    let longer = path.push(q);
    assert forall|i: int| 0 <= i < longer.len() - 1 implies adjacent(
        #[trigger] longer[i],
        longer[i + 1],
    ) by {
        if i < path.len() - 1 {
            assert(longer[i] == path[i]);
            assert(adjacent(path[i], path[i + 1]));
        }
    }
    assert forall|i: int| 0 <= i < longer.len() implies grid.in_bounds(#[trigger] longer[i]) by {
        if i < path.len() {
            assert(longer[i] == path[i]);
        }
    }
    assert forall|i: int| 1 <= i < longer.len() implies grid.tile(
        #[trigger] longer[i],
    ).tile_type == TileType::Empty by {
        if i < path.len() {
            assert(longer[i] == path[i]);
        }
    }
    assert(is_way(grid, longer));
    assert(longer.last() == q);
}

/// The places around a tile are the tiles next to it.
pub proof fn lemma_neighbor_adjacent(p: (usize, usize), k: int, size: usize)
    requires
        0 <= k < PLACES,
        neighbor(p, k, size).is_some(),
    ensures
        adjacent(p, neighbor(p, k, size).unwrap()),
{
}

/// A tile next to another is at one of the places around it.
pub proof fn lemma_adjacent_neighbor(p: (usize, usize), q: (usize, usize), size: usize)
    requires
        adjacent(p, q),
        q.0 < size,
        q.1 < size,
    ensures
        0 <= 3 * (q.0 - p.0 + 1) + (q.1 - p.1 + 1) < PLACES,
        neighbor(p, 3 * (q.0 - p.0 + 1) + (q.1 - p.1 + 1), size) == Some(q),
{
}

/// Items at the same positions are found at the same index.
pub proof fn lemma_find_same(a: Seq<ListItem>, b: Seq<ListItem>, q: (usize, usize))
    requires
        a.len() == b.len(),
        forall|i: int| 0 <= i < a.len() ==> (#[trigger] a[i]).tile.position == b[i].tile.position,
    ensures
        find(a, q) == find(b, q),
{
    lemma_find(a, q);
    assert forall|j: int| 0 <= j < find(a, q) implies (#[trigger] b[j]).tile.position != q by {
        assert(a[j].tile.position != q);
    }
    if find(a, q) < a.len() {
        assert(a[find(a, q)].tile.position == q);
    }
    lemma_find_is(b, q, find(a, q));
}

/// What was in a list is in the list with one more item, and so is that item.
pub proof fn lemma_find_push(list: Seq<ListItem>, item: ListItem, q: (usize, usize))
    ensures
        find(list, q) < list.len() ==> find(list.push(item), q) == find(list, q),
        find(list, q) == list.len() && item.tile.position == q ==> find(list.push(item), q)
            == list.len(),
        find(list, q) == list.len() && item.tile.position != q ==> find(list.push(item), q)
            == list.len() + 1,
{
    lemma_find(list, q);
    let longer = list.push(item);
    assert forall|j: int| 0 <= j < find(list, q) implies (#[trigger] longer[j]).tile.position
        != q by {
        assert(list[j].tile.position != q);
    }
    if find(list, q) < list.len() {
        assert(longer[find(list, q)] == list[find(list, q)]);
        lemma_find_is(longer, q, find(list, q));
    } else if item.tile.position == q {
        lemma_find_is(longer, q, list.len() as int);
    } else {
        lemma_find_is(longer, q, list.len() as int + 1);
    }
}

/// What was in a list is in the list without one item, but for that item.
pub proof fn lemma_find_remove(list: Seq<ListItem>, index: int, q: (usize, usize))
    requires
        0 <= index < list.len(),
        list[index].tile.position != q,
        find(list, q) < list.len(),
    ensures
        find(list.remove(index), q) < list.len() - 1,
{
    lemma_find(list, q);
    let rest = list.remove(index);
    lemma_find(rest, q);
    let at = find(list, q);
    let to = if at < index {
        at
    } else {
        at - 1
    };
    assert(rest[to] == list[at]);
    if find(rest, q) >= rest.len() {
        assert(rest[to].tile.position != q);
    }
}

impl Search {
    /// Whether the tile at `q` is in one of the lists.
    pub open spec fn seen(self, q: (usize, usize)) -> bool {
        find(self.closed, q) < self.closed.len() || find(self.open, q) < self.open.len()
    }

    /// Whether the `k`-th place around `p` was dealt with: it holds no `End`
    /// tile, and if it holds an `Empty` tile, that tile is in a list or is the
    /// tile that is being expanded.
    pub open spec fn dealt(
        self,
        grid: GridView,
        p: (usize, usize),
        k: int,
        cur: Option<(usize, usize)>,
    ) -> bool {
        neighbor(p, k, grid.size).is_some() ==> {
            let q = neighbor(p, k, grid.size).unwrap();
            &&& grid.tile(q).tile_type != TileType::End
            &&& grid.tile(q).tile_type == TileType::Empty ==> self.seen(q) || cur == Some(q)
        }
    }

    /// What the search has explored: every tile in a list can be reached; all
    /// places around a closed tile were dealt with, and the first `done` places
    /// around the tile `cur` that is being expanded; the start is in a list;
    /// one batch was queued for each tile closed, and none colours the way.
    pub open spec fn explored(self, grid: GridView, cur: Option<ListItem>, done: int) -> bool {
        &&& forall|i: int|
            0 <= i < self.open.len() ==> reachable(grid, (#[trigger] self.open[i]).tile.position)
        &&& forall|j: int|
            0 <= j < self.closed.len() ==> reachable(
                grid,
                (#[trigger] self.closed[j]).tile.position,
            )
        &&& cur.is_some() ==> reachable(grid, cur.unwrap().tile.position)
        &&& forall|j: int, k: int|
            0 <= j < self.closed.len() && 0 <= k < PLACES ==> #[trigger] self.dealt(
                grid,
                self.closed[j].tile.position,
                k,
                place(cur),
            )
        &&& cur.is_some() ==> forall|k: int|
            0 <= k < done ==> #[trigger] self.dealt(grid, cur.unwrap().tile.position, k, None)
        &&& self.seen(self.start) || place(cur) == Some(self.start)
        &&& self.batches.len() == self.closed.len()
        &&& all_plain(self.batches)
        &&& plain(self.events)
    }

    /// A look at a place finds the end only if there is a way to it; else it
    /// deals with the place.
    pub proof fn lemma_look_explored(self, grid: GridView, cur: ListItem, k: int, at: (usize, usize))
        requires
            self.tidy_around(cur),
            self.kept(grid),
            self.explored(grid, Some(cur), k),
            !self.found,
            0 <= k < PLACES,
            neighbor(cur.tile.position, k, self.size) == Some(at),
        ensures
            self.look(cur, k, at).found ==> has_way(grid),
            !self.look(cur, k, at).found ==> self.look(cur, k, at).explored(grid, Some(cur), k + 1),
    {
        let after = self.look(cur, k, at);
        self.lemma_look(cur, k, at);
        lemma_neighbor(cur.tile.position, k, self.size);
        lemma_neighbor_adjacent(cur.tile.position, k, self.size);
        lemma_find(self.open, at);
        lemma_find(self.closed, at);
        let tile = self.cells[at.1 as int][at.0 as int];
        assert(tile.tile_type == grid.tile(at).tile_type);
        if tile.tile_type == TileType::End {
            assert(next_to_end(grid, cur.tile.position));
            assert(has_way(grid));
        } else {
            // every tile that was seen is still seen
            assert forall|q: (usize, usize)| self.seen(q) implies after.seen(q) by {
                if after.open != self.open {
                    if after.open.len() == self.open.len() {
                        lemma_find_same(self.open, after.open, q);
                    } else {
                        lemma_find_push(self.open, after.open.last(), q);
                        assert(after.open == self.open.push(after.open.last()));
                    }
                }
            }
            if tile.tile_type == TileType::Empty {
                lemma_reach_step(grid, cur.tile.position, at);
                if find(self.closed, at) == self.closed.len() && find(self.open, at)
                    == self.open.len() {
                    lemma_find_push(self.open, after.open.last(), at);
                    assert(after.open == self.open.push(after.open.last()));
                    assert(after.open.last().tile.position == at);
                }
                assert(after.seen(at));
            }
            assert forall|i: int| 0 <= i < after.open.len() implies reachable(
                grid,
                (#[trigger] after.open[i]).tile.position,
            ) by {
                if i < self.open.len() {
                    assert(after.open[i].tile.position == self.open[i].tile.position);
                    assert(reachable(grid, self.open[i].tile.position));
                }
            }
            assert forall|j: int, k2: int|
                0 <= j < after.closed.len() && 0 <= k2 < PLACES implies #[trigger] after.dealt(
                grid,
                after.closed[j].tile.position,
                k2,
                Some(cur.tile.position),
            ) by {
                assert(self.dealt(grid, self.closed[j].tile.position, k2, Some(cur.tile.position)));
            }
            assert forall|k2: int| 0 <= k2 < k + 1 implies #[trigger] after.dealt(
                grid,
                cur.tile.position,
                k2,
                None,
            ) by {
                if k2 < k {
                    assert(self.dealt(grid, cur.tile.position, k2, None));
                }
            }
            assert(plain(after.events)) by {
                assert forall|i: int| 0 <= i < after.events.len() implies (
                #[trigger] after.events[i]).color != PATH_COLOR by {
                    if i < self.events.len() {
                        assert(after.events[i] == self.events[i]);
                    }
                }
            }
        }
    }

    /// The looks around a tile find the end only if there is a way to it; else
    /// they deal with all places around the tile.
    pub proof fn lemma_expand_explored(self, grid: GridView, cur: ListItem, k: int)
        requires
            self.tidy_around(cur),
            self.kept(grid),
            self.explored(grid, Some(cur), k),
            !self.found,
            0 <= k <= PLACES,
        ensures
            self.expand(cur, k).found ==> has_way(grid),
            !self.expand(cur, k).found ==> self.expand(cur, k).explored(
                grid,
                Some(cur),
                PLACES as int,
            ),
        decreases PLACES - k,
    {
        if k < PLACES {
            let next = self.visit(cur, k);
            match neighbor(cur.tile.position, k, self.size) {
                Some(at) => {
                    self.lemma_look(cur, k, at);
                    self.lemma_look_explored(grid, cur, k, at);
                    crate::search_sound::lemma_look_kept(self, grid, cur, k, at);
                },
                None => {
                    assert forall|k2: int| 0 <= k2 < k + 1 implies #[trigger] self.dealt(
                        grid,
                        cur.tile.position,
                        k2,
                        None,
                    ) by {
                        if k2 < k {
                            assert(self.dealt(grid, cur.tile.position, k2, None));
                        }
                    }
                },
            }
            if !next.found {
                next.lemma_expand_explored(grid, cur, k + 1);
            }
        }
    }

    /// Taking the best item off the open list leaves the search explored.
    pub proof fn lemma_taken_explored(self, grid: GridView)
        requires
            self.tidy(),
            self.active(),
            self.kept(grid),
            self.explored(grid, None, 0),
        ensures
            self.taken().explored(grid, Some(self.open[best(self.open)]), 0),
    {
        lemma_best(self.open);
        let index = best(self.open);
        let cur = self.open[index];
        let taken = self.taken();
        assert forall|q: (usize, usize)| self.seen(q) implies taken.seen(q) || q
            == cur.tile.position by {
            if q != cur.tile.position && find(self.open, q) < self.open.len() {
                lemma_find_remove(self.open, index, q);
            }
        }
        assert forall|i: int| 0 <= i < taken.open.len() implies reachable(
            grid,
            (#[trigger] taken.open[i]).tile.position,
        ) by {
            let from = if i < index {
                i
            } else {
                i + 1
            };
            assert(taken.open[i] == self.open[from]);
            assert(reachable(grid, self.open[from].tile.position));
        }
        assert(reachable(grid, self.open[index].tile.position));
        assert forall|j: int, k: int|
            0 <= j < taken.closed.len() && 0 <= k < PLACES implies #[trigger] taken.dealt(
            grid,
            taken.closed[j].tile.position,
            k,
            Some(cur.tile.position),
        ) by {
            assert(self.dealt(grid, self.closed[j].tile.position, k, None));
        }
    }

    /// A step finds the end only if there is a way to it; else it leaves the
    /// search explored, with one more tile closed and one more batch queued.
    pub proof fn lemma_step_explored(self, grid: GridView)
        requires
            self.tidy(),
            self.active(),
            self.kept(grid),
            self.explored(grid, None, 0),
        ensures
            self.step().found ==> has_way(grid),
            !self.step().found ==> self.step().explored(grid, None, 0),
    {
        self.lemma_taken();
        self.lemma_taken_explored(grid);
        lemma_best(self.open);
        let index = best(self.open);
        let cur = self.open[index];
        let taken = self.taken();
        taken.lemma_expand(cur, 0);
        taken.lemma_expand_explored(grid, cur, 0);
        let expanded = taken.expand(cur, 0);
        if !expanded.found {
            let after = expanded.settle(cur);
            assert(after.closed == expanded.closed.push(cur));
            assert forall|q: (usize, usize)| expanded.seen(q) || q
                == cur.tile.position implies after.seen(q) by {
                lemma_find_push(expanded.closed, cur, q);
            }
            assert forall|j: int| 0 <= j < after.closed.len() implies reachable(
                grid,
                (#[trigger] after.closed[j]).tile.position,
            ) by {
                if j < expanded.closed.len() {
                    assert(after.closed[j] == expanded.closed[j]);
                    assert(reachable(grid, expanded.closed[j].tile.position));
                }
            }
            assert forall|j: int, k: int|
                0 <= j < after.closed.len() && 0 <= k < PLACES implies #[trigger] after.dealt(
                grid,
                after.closed[j].tile.position,
                k,
                None,
            ) by {
                if j < expanded.closed.len() {
                    assert(after.closed[j] == expanded.closed[j]);
                    assert(expanded.dealt(
                        grid,
                        expanded.closed[j].tile.position,
                        k,
                        Some(cur.tile.position),
                    ));
                } else {
                    assert(expanded.dealt(grid, cur.tile.position, k, None));
                }
            }
            assert(all_plain(after.batches)) by {
                assert forall|i: int| 0 <= i < after.batches.len() implies plain(
                    #[trigger] after.batches[i],
                ) by {
                    if i < expanded.batches.len() {
                        assert(after.batches[i] == expanded.batches[i]);
                    } else {
                        let last = after.batches[i];
                        assert forall|e: int| 0 <= e < last.len() implies (#[trigger] last[e]).color
                            != PATH_COLOR by {
                            if e < expanded.events.len() {
                                assert(last[e] == expanded.events[e]);
                            }
                        }
                    }
                }
            }
        }
    }

    /// When no tile is open any more, every tile on a way from the start is
    /// closed.
    pub proof fn lemma_way_closed(self, grid: GridView, path: Seq<(usize, usize)>, i: int)
        requires
            self.placed(),
            self.kept(grid),
            self.explored(grid, None, 0),
            self.open.len() == 0,
            is_way(grid, path),
            0 <= i < path.len(),
        ensures
            find(self.closed, path[i]) < self.closed.len(),
        decreases i,
    {
        if i == 0 {
            lemma_find(self.open, self.start);
        } else {
            self.lemma_way_closed(grid, path, i - 1);
            let p = path[i - 1];
            let q = path[i];
            lemma_find(self.closed, p);
            let j = find(self.closed, p);
            assert(adjacent(path[i - 1], path[i - 1 + 1]));
            assert(grid.in_bounds(q));
            lemma_adjacent_neighbor(p, q, self.size);
            let k = 3 * (q.0 - p.0 + 1) + (q.1 - p.1 + 1);
            assert(self.dealt(grid, self.closed[j].tile.position, k, None));
            assert(grid.tile(q).tile_type == TileType::Empty);
            lemma_find(self.open, q);
        }
    }

    /// When no tile is open any more and the end was not found, the closed
    /// tiles are the tiles that can be reached, and none of them is next to the
    /// end.
    pub proof fn lemma_all_closed(self, grid: GridView)
        requires
            self.placed(),
            self.closed_once(),
            self.kept(grid),
            self.explored(grid, None, 0),
            self.open.len() == 0,
        ensures
            !has_way(grid),
            reach(grid).finite(),
            reach(grid).len() == self.closed.len(),
    {
        let places = Seq::new(self.closed.len(), |j: int| self.closed[j].tile.position);
        assert forall|p: (usize, usize)| reachable(grid, p) implies places.contains(p) by {
            let path = choose|path: Seq<(usize, usize)>|
                is_way(grid, path) && #[trigger] path.last() == p;
            self.lemma_way_closed(grid, path, path.len() - 1);
            lemma_find(self.closed, p);
            assert(places[find(self.closed, p)] == p);
        }
        assert forall|p: (usize, usize)| places.contains(p) implies reachable(grid, p) by {
            let j = choose|j: int| 0 <= j < places.len() && places[j] == p;
            assert(reachable(grid, self.closed[j].tile.position));
        }
        assert(places.to_set() =~= reach(grid));
        assert(places.no_duplicates()) by {
            assert forall|i: int, j: int|
                0 <= i < places.len() && 0 <= j < places.len() && i != j implies places[i]
                != places[j] by {
                if i < j {
                    assert(self.closed[i].tile.position != self.closed[j].tile.position);
                } else {
                    assert(self.closed[j].tile.position != self.closed[i].tile.position);
                }
            }
        }
        places.unique_seq_to_set();
        vstd::seq_lib::seq_to_set_is_finite(places);
        if has_way(grid) {
            let p = choose|p: (usize, usize)| #[trigger] reachable(grid, p) && next_to_end(grid, p);
            let k = choose|k: int|
                0 <= k < PLACES && (#[trigger] neighbor(p, k, grid.size)).is_some() && grid.tile(
                    neighbor(p, k, grid.size).unwrap(),
                ).tile_type == TileType::End;
            assert(places.contains(p));
            let j = choose|j: int| 0 <= j < places.len() && places[j] == p;
            assert(self.dealt(grid, self.closed[j].tile.position, k, None));
        }
    }

    /// The run of a search that is explored so far: it finds the end exactly if
    /// there is a way to it, and else it closes the tiles that can be reached,
    /// each once, and queues one batch for each, none of which colours the way.
    pub proof fn lemma_run_explored(self, grid: GridView, fuel: nat)
        requires
            self.tidy(),
            !self.found,
            self.kept(grid),
            self.linked(None),
            self.explored(grid, None, 0),
            fuel + self.closed.len() >= self.size * self.size + 1,
        ensures
            self.run(fuel).found == has_way(grid),
            !has_way(grid) ==> {
                &&& all_plain(self.run(fuel).batches)
                &&& reach(grid).finite()
                &&& self.run(fuel).batches.len() == reach(grid).len()
                &&& self.run(fuel).closed.len() == reach(grid).len()
            },
        decreases fuel,
    {
        self.lemma_closed_count();
        if self.active() {
            self.lemma_step();
            self.lemma_step_linked(grid);
            self.lemma_step_explored(grid);
            let next = self.step();
            if next.found {
                assert(next.run((fuel - 1) as nat) == next);
            } else {
                next.lemma_run_explored(grid, (fuel - 1) as nat);
            }
        } else {
            self.lemma_all_closed(grid);
        }
    }
}

/// The search before its first step has explored nothing but the start.
pub proof fn lemma_begin_explored(grid: GridView, heuristic: Heuristic)
    requires
        grid.wf(),
    ensures
        Search::begin(grid, heuristic).explored(grid, None, 0),
{
    let begin = Search::begin(grid, heuristic);
    lemma_reach_start(grid);
    lemma_find_is(begin.open, grid.start, 0);
}

/// The search finds the end exactly if there is a way from the start to a tile
/// next to an `End` tile, on every grid whose start marker stands on a `Start`
/// tile.
pub proof fn lemma_search_finds(grid: GridView, heuristic: Heuristic)
    requires
        grid.wf(),
        grid.start_marked(),
    ensures
        search(grid, heuristic).found == has_way(grid),
{
    lemma_begin(grid, heuristic);
    lemma_begin_explored(grid, heuristic);
    Search::begin(grid, heuristic).lemma_run_explored(grid, (grid.size * grid.size + 1) as nat);
}

/// Where no way leads to the end, the search closes the tiles that can be
/// reached from the start and no others: it does not find the end, it queues
/// one batch for each tile that can be reached, the start among them, and no
/// event of any batch gives a tile the colour of the way.
pub proof fn lemma_no_way(grid: GridView, heuristic: Heuristic)
    requires
        grid.wf(),
        grid.start_marked(),
        !has_way(grid),
    ensures
        !search(grid, heuristic).found,
        search(grid, heuristic).open.len() == 0,
        all_plain(search(grid, heuristic).batches),
        reach(grid).finite(),
        search(grid, heuristic).batches.len() == reach(grid).len(),
{
    lemma_begin(grid, heuristic);
    lemma_begin_explored(grid, heuristic);
    Search::begin(grid, heuristic).lemma_run_explored(grid, (grid.size * grid.size + 1) as nat);
    crate::search_sound::lemma_search_sound(grid, heuristic);
}

} // verus!
