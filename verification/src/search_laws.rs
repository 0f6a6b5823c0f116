//! What holds of every search: the facts that each step keeps.
use crate::grid::GridView;
use crate::search::{
    best, best_from, find, find_from, neighbor, step_cost, total, with_parent, Search, PLACES,
};
use crate::solver::ListItem;
use crate::tile::TileType;
use vstd::prelude::*;

verus! {

/// What `find_from` returns: the first index from `from` on at which an item
/// at `p` stands.
pub proof fn lemma_find_from(list: Seq<ListItem>, p: (usize, usize), from: int)
    requires
        0 <= from <= list.len(),
    ensures
        from <= find_from(list, p, from) <= list.len(),
        find_from(list, p, from) < list.len() ==> list[find_from(list, p, from)].tile.position == p,
        forall|j: int| from <= j < find_from(list, p, from) ==> (#[trigger] list[j]).tile.position != p,
    decreases list.len() - from,
{
    if from < list.len() && list[from].tile.position != p {
        lemma_find_from(list, p, from + 1);
    }
}

/// What `find` returns.
pub proof fn lemma_find(list: Seq<ListItem>, p: (usize, usize))
    ensures
        0 <= find(list, p) <= list.len(),
        find(list, p) < list.len() ==> list[find(list, p)].tile.position == p,
        forall|j: int| 0 <= j < find(list, p) ==> (#[trigger] list[j]).tile.position != p,
{
    lemma_find_from(list, p, 0);
}

/// `find` returns `i` if the item at `i` is the first at `p`, or if `i` is
/// the length and no item is at `p`.
pub proof fn lemma_find_is(list: Seq<ListItem>, p: (usize, usize), i: int)
    requires
        0 <= i <= list.len(),
        i < list.len() ==> list[i].tile.position == p,
        forall|j: int| 0 <= j < i ==> (#[trigger] list[j]).tile.position != p,
    ensures
        find(list, p) == i,
{
    lemma_find(list, p);
}

/// `best_from` returns an index of the list.
pub proof fn lemma_best_from(list: Seq<ListItem>, from: int, first: int)
    requires
        0 <= first < from <= list.len(),
    ensures
        0 <= best_from(list, from, first) < list.len(),
    decreases list.len() - from,
{
    if from < list.len() {
        if crate::search::total(list[from]).lt(crate::search::total(list[first])) {
            lemma_best_from(list, from + 1, from);
        } else {
            lemma_best_from(list, from + 1, first);
        }
    }
}

/// `best` returns an index of the list.
pub proof fn lemma_best(list: Seq<ListItem>)
    requires
        list.len() > 0,
    ensures
        0 <= best(list) < list.len(),
{
    lemma_best_from(list, 1, 0);
}

/// `best_from` returns the first item whose total is least, if the item it
/// starts from is the first such item of those before.
pub proof fn lemma_best_from_least(list: Seq<ListItem>, from: int, first: int)
    requires
        0 <= first < from <= list.len(),
        forall|i: int| 0 <= i < from ==> total(list[first]).le(total(#[trigger] list[i])),
        forall|i: int| 0 <= i < first ==> total(list[first]).lt(total(#[trigger] list[i])),
    ensures
        forall|i: int|
            0 <= i < list.len() ==> total(list[best_from(list, from, first)]).le(
                total(#[trigger] list[i]),
            ),
        forall|i: int|
            0 <= i < best_from(list, from, first) ==> total(
                list[best_from(list, from, first)],
            ).lt(total(#[trigger] list[i])),
    decreases list.len() - from,
{
    if from < list.len() {
        let here = total(list[from]);
        let least = total(list[first]);
        if here.lt(least) {
            assert forall|i: int| 0 <= i < from implies here.lt(total(#[trigger] list[i])) by {
                here.lemma_lt_le(least, total(list[i]));
            }
            assert forall|i: int| 0 <= i < from + 1 implies here.le(total(#[trigger] list[i])) by {
                if i < from {
                    here.lemma_lt_asymmetric(total(list[i]));
                } else {
                    here.lemma_lt_irreflexive();
                }
            }
            lemma_best_from_least(list, from + 1, from);
        } else {
            lemma_best_from_least(list, from + 1, first);
        }
    }
}

/// The best item is the first item whose total is least: no item's total is
/// less than its total, and the total of every item before it is more.
pub proof fn lemma_best_least(list: Seq<ListItem>)
    requires
        list.len() > 0,
    ensures
        forall|i: int|
            0 <= i < list.len() ==> total(list[best(list)]).le(total(#[trigger] list[i])),
        forall|i: int| 0 <= i < best(list) ==> total(list[best(list)]).lt(total(#[trigger] list[i])),
{
    total(list[0]).lemma_lt_irreflexive();
    lemma_best_from_least(list, 1, 0);
}

/// A place around a tile lies inside the grid, next to the tile.
pub proof fn lemma_neighbor(p: (usize, usize), k: int, size: usize)
    requires
        0 <= k < PLACES,
        neighbor(p, k, size).is_some(),
    ensures
        neighbor(p, k, size).unwrap().0 < size,
        neighbor(p, k, size).unwrap().1 < size,
        neighbor(p, k, size).unwrap() != p,
        neighbor(p, k, size).unwrap().0 == p.0 + k / 3 - 1,
        neighbor(p, k, size).unwrap().1 == p.1 + k % 3 - 1,
{
}

impl Search {
    /// The lists hold tiles of the grid.
    pub open spec fn placed(self) -> bool {
        &&& self.grid().shaped()
        &&& forall|i: int|
            0 <= i < self.open.len() ==> self.grid().in_bounds((#[trigger] self.open[i]).tile.position)
        &&& forall|i: int|
            0 <= i < self.closed.len() ==> self.grid().in_bounds(
                (#[trigger] self.closed[i]).tile.position,
            )
    }

    /// No tile is twice in the open list, or in both lists.
    pub open spec fn apart(self) -> bool {
        &&& forall|i: int, j: int|
            0 <= i < j < self.open.len() ==> (#[trigger] self.open[i]).tile.position != (
            #[trigger] self.open[j]).tile.position
        &&& forall|i: int, j: int|
            0 <= i < self.open.len() && 0 <= j < self.closed.len() ==> (
            #[trigger] self.open[i]).tile.position != (#[trigger] self.closed[j]).tile.position
    }

    /// No open item has more than `limit` steps behind it, and no estimate is
    /// longer than the grid can be.
    pub open spec fn bounded(self, limit: int) -> bool {
        forall|i: int|
            0 <= i < self.open.len() ==> {
                &&& (#[trigger] self.open[i]).d.units + self.open[i].d.diagonals <= limit
                &&& self.open[i].h.units <= usize::MAX
                &&& self.open[i].h.diagonals <= usize::MAX
            }
    }

    /// What holds between two steps.
    pub open spec fn tidy(self) -> bool {
        &&& self.placed()
        &&& self.apart()
        &&& self.bounded(self.closed.len() as int)
        &&& self.events.len() == 0
        &&& !self.broken
    }

    /// What holds while the places around `cur` are looked at.
    pub open spec fn tidy_around(self, cur: ListItem) -> bool {
        &&& self.placed()
        &&& self.apart()
        &&& self.bounded(self.closed.len() as int + 1)
        &&& !self.broken
        &&& self.grid().in_bounds(cur.tile.position)
        &&& cur.d.units + cur.d.diagonals <= self.closed.len()
        &&& find(self.open, cur.tile.position) == self.open.len()
        &&& find(self.closed, cur.tile.position) == self.closed.len()
    }

    /// What a look at a place changes, and what it leaves.
    pub proof fn lemma_look(self, cur: ListItem, k: int, at: (usize, usize))
        requires
            self.tidy_around(cur),
            0 <= k < PLACES,
            neighbor(cur.tile.position, k, self.size) == Some(at),
        ensures
            self.look(cur, k, at).tidy_around(cur),
            self.look(cur, k, at).closed == self.closed,
            self.look(cur, k, at).batches == self.batches,
            self.look(cur, k, at).size == self.size,
            self.look(cur, k, at).start == self.start,
            self.look(cur, k, at).end == self.end,
            self.look(cur, k, at).heuristic == self.heuristic,
    {
        let after = self.look(cur, k, at);
        lemma_neighbor(cur.tile.position, k, self.size);
        lemma_find(self.open, at);
        lemma_find(self.closed, at);
        lemma_find(self.open, cur.tile.position);
        lemma_find(self.closed, cur.tile.position);
        let tile = self.cells[at.1 as int][at.0 as int];
        assert(tile.position == at);
        if tile.tile_type == TileType::Empty && find(self.closed, at) == self.closed.len() {
            let i = find(self.open, at);
            lemma_with_parent_shaped(self.grid(), at, cur.tile.position);
            if i < self.open.len() {
                if after.open != self.open {
                    assert(after.open == self.open.update(
                        i,
                        ListItem {
                            d: cur.d.spec_plus(step_cost(k)),
                            h: self.heuristic.estimate(at, self.end),
                            ..self.open[i]
                        },
                    ));
                    assert forall|j: int| 0 <= j < after.open.len() implies (
                    #[trigger] after.open[j]).tile.position == self.open[j].tile.position by {}
                    lemma_find_is(after.open, cur.tile.position, after.open.len() as int);
                }
            } else {
                assert(after.open == self.open.push(
                    ListItem {
                        tile,
                        d: cur.d.spec_plus(step_cost(k)),
                        h: self.heuristic.estimate(at, self.end),
                    },
                ));
                lemma_find_is(after.open, cur.tile.position, after.open.len() as int);
            }
        }
    }

    /// What looking at the places around a tile changes, and what it leaves.
    pub proof fn lemma_expand(self, cur: ListItem, k: int)
        requires
            self.tidy_around(cur),
            0 <= k <= PLACES,
        ensures
            self.expand(cur, k).tidy_around(cur),
            self.expand(cur, k).closed == self.closed,
            self.expand(cur, k).batches == self.batches,
            self.expand(cur, k).size == self.size,
            self.expand(cur, k).start == self.start,
            self.expand(cur, k).end == self.end,
            self.expand(cur, k).heuristic == self.heuristic,
        decreases PLACES - k,
    {
        if k < PLACES && !self.found {
            match neighbor(cur.tile.position, k, self.size) {
                Some(at) => {
                    self.lemma_look(cur, k, at);
                },
                None => {},
            }
            self.visit(cur, k).lemma_expand(cur, k + 1);
        }
    }

    /// The state in which the best open item was taken off the open list.
    pub open spec fn taken(self) -> Search {
        Search { open: self.open.remove(best(self.open)), ..self }
    }

    /// Taking the best item off the open list prepares the looks around it.
    pub proof fn lemma_taken(self)
        requires
            self.tidy(),
            self.active(),
        ensures
            self.taken().tidy_around(self.open[best(self.open)]),
            self.taken().events.len() == 0,
    {
        lemma_best(self.open);
        let index = best(self.open);
        let cur = self.open[index];
        let rest = self.open.remove(index);
        assert forall|j: int| 0 <= j < rest.len() implies #[trigger] rest[j] == self.open[if j
            < index {
            j
        } else {
            j + 1
        }] by {}
        lemma_find_is(rest, cur.tile.position, rest.len() as int);
        lemma_find_is(self.closed, cur.tile.position, self.closed.len() as int);
    }

    /// A step that does not find the end leaves the search tidy, with one more
    /// tile closed.
    pub proof fn lemma_step(self)
        requires
            self.tidy(),
            self.active(),
        ensures
            !self.step().found ==> self.step().tidy(),
            !self.step().found ==> self.step().closed == self.closed.push(
                self.open[best(self.open)],
            ),
            self.step().size == self.size,
            self.step().start == self.start,
            self.step().end == self.end,
            self.step().heuristic == self.heuristic,
    {
        self.lemma_taken();
        let cur = self.open[best(self.open)];
        self.taken().lemma_expand(cur, 0);
        let expanded = self.taken().expand(cur, 0);
        if !expanded.found {
            let after = expanded.settle(cur);
            lemma_find(expanded.open, cur.tile.position);
            assert(after.closed == expanded.closed.push(cur));
            assert forall|i: int, j: int|
                0 <= i < after.open.len() && 0 <= j < after.closed.len() implies (
            #[trigger] after.open[i]).tile.position != (#[trigger] after.closed[j]).tile.position by {
                if j < expanded.closed.len() {
                    assert(after.closed[j] == expanded.closed[j]);
                }
            }
        }
    }
}

/// Setting a parent leaves the grid shaped.
pub proof fn lemma_with_parent_shaped(grid: GridView, p: (usize, usize), parent: (usize, usize))
    requires
        grid.shaped(),
        grid.in_bounds(p),
    ensures
        (GridView { cells: with_parent(grid.cells, p, parent), ..grid }).shaped(),
{
}

} // verus!
