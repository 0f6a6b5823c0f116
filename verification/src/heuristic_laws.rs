//! Walks over the grid and what they cost: the diagonal distance never
//! overestimates.
use crate::cost::{positive, Weight};
use crate::solver::{diagonal_distance, gap};
use vstd::prelude::*;

verus! {

/// Whether `b` is one of the eight places around `a`.
pub open spec fn adjacent(a: (usize, usize), b: (usize, usize)) -> bool {
    gap(a.0, b.0) <= 1 && gap(a.1, b.1) <= 1 && a != b
}

/// The cost of the step from `a` to the place `b` next to it: √2 for a
/// diagonal step, else 1.
pub open spec fn step_weight(a: (usize, usize), b: (usize, usize)) -> Weight {
    if a.0 != b.0 && a.1 != b.1 {
        Weight { units: 0, diagonals: 1 }
    } else {
        Weight { units: 1, diagonals: 0 }
    }
}

/// Whether each position of `path` but the first is next to the one before.
pub open spec fn is_walk(path: Seq<(usize, usize)>) -> bool {
    forall|i: int| 0 <= i < path.len() - 1 ==> adjacent(#[trigger] path[i], path[i + 1])
}

/// The cost of the steps of `path`.
pub open spec fn walk_weight(path: Seq<(usize, usize)>) -> Weight
    decreases path.len(),
{
    if path.len() <= 1 {
        Weight::zero()
    } else {
        walk_weight(path.drop_last()).plus(step_weight(path[path.len() - 2], path.last()))
    }
}

/// Whether `p + q·√2 > 0`, for small `p` and `q`, without squares.
proof fn lemma_positive_small(p: int, q: int)
    requires
        -4 <= p <= 4,
        -2 <= q <= 2,
    ensures
        positive(p, q) == (if q == 2 {
            p >= -2
        } else if q == 1 {
            p >= -1
        } else if q == 0 {
            p > 0
        } else if q == -1 {
            p >= 2
        } else {
            p >= 3
        }),
{
    assert(positive(p, q) == (if q == 2 {
        p >= -2
    } else if q == 1 {
        p >= -1
    } else if q == 0 {
        p > 0
    } else if q == -1 {
        p >= 2
    } else {
        p >= 3
    })) by (nonlinear_arith)
        requires
            -4 <= p <= 4,
            -2 <= q <= 2,
    ;
}

/// The diagonal distance is the same in both directions.
pub proof fn lemma_diagonal_symmetric(a: (usize, usize), b: (usize, usize))
    ensures
        diagonal_distance(a, b) == diagonal_distance(b, a),
{
}

/// The diagonal distance to a place is the step's cost if the place is next
/// door, and zero if it is the same place.
pub proof fn lemma_diagonal_near(a: (usize, usize), b: (usize, usize))
    ensures
        adjacent(a, b) ==> diagonal_distance(a, b)@ == step_weight(a, b),
        diagonal_distance(a, a)@ == Weight::zero(),
{
}

/// One step changes the diagonal distance by no more than it costs: the
/// distance from `a` to `b` is at most the distance from `a` to a place next
/// to `b` and the cost of the step from there to `b`.
pub proof fn lemma_diagonal_consistent(a: (usize, usize), near: (usize, usize), b: (usize, usize))
    requires
        adjacent(near, b),
    ensures
        diagonal_distance(a, b)@.le(diagonal_distance(a, near)@.plus(step_weight(near, b))),
{
    let whole = diagonal_distance(a, b)@;
    let part = diagonal_distance(a, near)@.plus(step_weight(near, b));
    lemma_positive_small(whole.units - part.units, whole.diagonals - part.diagonals);
}

/// The diagonal distance between the ends of a walk is at most the cost of the
/// walk: the estimate never exceeds what a way over the grid costs, whatever
/// walls stand on it.
pub proof fn lemma_diagonal_admissible(path: Seq<(usize, usize)>)
    requires
        path.len() >= 1,
        is_walk(path),
    ensures
        diagonal_distance(path.first(), path.last())@.le(walk_weight(path)),
    decreases path.len(),
{
    if path.len() == 1 {
        lemma_diagonal_near(path[0], path[0]);
    } else {
        let shorter = path.drop_last();
        let near = shorter.last();
        assert(is_walk(shorter)) by {
            assert forall|i: int| 0 <= i < shorter.len() - 1 implies adjacent(
                #[trigger] shorter[i],
                shorter[i + 1],
            ) by {
                assert(shorter[i] == path[i]);
                assert(adjacent(path[i], path[i + 1]));
            }
        }
        lemma_diagonal_admissible(shorter);
        assert(adjacent(path[path.len() - 2], path[path.len() - 2 + 1]));
        lemma_diagonal_consistent(path.first(), near, path.last());
        let whole = diagonal_distance(path.first(), path.last())@;
        let to_near = diagonal_distance(path.first(), near)@;
        let step = step_weight(near, path.last());
        to_near.lemma_plus_monotone(walk_weight(shorter), step);
        whole.lemma_le_transitive(to_near.plus(step), walk_weight(shorter).plus(step));
    }
}

/// A part of a walk is a walk.
pub proof fn lemma_walk_part(path: Seq<(usize, usize)>, from: int, to: int)
    requires
        is_walk(path),
        0 <= from <= to <= path.len(),
    ensures
        is_walk(path.subrange(from, to)),
{
    let part = path.subrange(from, to);
    assert forall|i: int| 0 <= i < part.len() - 1 implies adjacent(#[trigger] part[i], part[i + 1]) by {
        assert(part[i] == path[from + i]);
        assert(adjacent(path[from + i], path[from + i + 1]));
    }
}

/// No walk costs less than nothing.
pub proof fn lemma_walk_not_negative(path: Seq<(usize, usize)>)
    ensures
        walk_weight(path).units >= 0,
        walk_weight(path).diagonals >= 0,
        Weight::zero().le(walk_weight(path)),
    decreases path.len(),
{
    if path.len() > 1 {
        lemma_walk_not_negative(path.drop_last());
    }
}

/// A walk with one more step costs what the walk costs and the step.
pub proof fn lemma_walk_push(path: Seq<(usize, usize)>, q: (usize, usize))
    requires
        path.len() >= 1,
    ensures
        walk_weight(path.push(q)) == walk_weight(path).plus(step_weight(path.last(), q)),
{
    assert(path.push(q).drop_last() =~= path);
}

/// A walk costs what its two parts cost, cut at any of its positions.
pub proof fn lemma_walk_split(path: Seq<(usize, usize)>, at: int)
    requires
        0 <= at < path.len(),
    ensures
        walk_weight(path) == walk_weight(path.take(at + 1)).plus(walk_weight(path.skip(at))),
    decreases path.len(),
{
    if at == path.len() - 1 {
        assert(path.take(at + 1) =~= path);
        assert(path.skip(at).len() == 1);
    } else {
        let shorter = path.drop_last();
        lemma_walk_split(shorter, at);
        assert(shorter.take(at + 1) =~= path.take(at + 1));
        assert(path.skip(at).drop_last() =~= shorter.skip(at));
        assert(path.skip(at).last() == path.last());
        assert(path.skip(at)[path.skip(at).len() - 2] == path[path.len() - 2]);
    }
}

/// Along a walk the diagonal distance to a place falls no faster than the walk
/// costs: the distance from the walk's first position is at most the cost of
/// the walk and the distance from its last position.
pub proof fn lemma_diagonal_along(path: Seq<(usize, usize)>, to: (usize, usize))
    requires
        path.len() >= 1,
        is_walk(path),
    ensures
        diagonal_distance(path.first(), to)@.le(
            walk_weight(path).plus(diagonal_distance(path.last(), to)@),
        ),
    decreases path.len(),
{
    if path.len() > 1 {
        let shorter = path.drop_last();
        lemma_walk_part(path, 0, path.len() - 1);
        assert(shorter =~= path.subrange(0, path.len() - 1));
        lemma_diagonal_along(shorter, to);
        let near = shorter.last();
        assert(adjacent(path[path.len() - 2], path[path.len() - 2 + 1]));
        // the distance from `near` is at most the step and the distance from the end
        lemma_diagonal_consistent(to, path.last(), near);
        lemma_diagonal_symmetric(to, near);
        lemma_diagonal_symmetric(to, path.last());
        let first = diagonal_distance(path.first(), to)@;
        let from_near = diagonal_distance(near, to)@;
        let from_last = diagonal_distance(path.last(), to)@;
        let step = step_weight(near, path.last());
        assert(step_weight(path.last(), near) == step);
        assert(from_near.le(from_last.plus(step)));
        walk_weight(shorter).lemma_plus_le(walk_weight(shorter), from_near, from_last.plus(step));
        walk_weight(shorter).lemma_lt_irreflexive();
        let middle = walk_weight(shorter).plus(from_near);
        let whole = walk_weight(shorter).plus(from_last.plus(step));
        first.lemma_le_transitive(middle, whole);
        assert(whole == walk_weight(path).plus(from_last));
    }
}

} // verus!
