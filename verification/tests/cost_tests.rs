use grid_pathfinding::cost::{sqrt2_side, Cost, Side};
use grid_pathfinding::solver::Heuristic;

fn value(cost: Cost) -> f64 {
    cost.units as f64 + cost.diagonals as f64 * std::f64::consts::SQRT_2
}

fn cost(units: u128, diagonals: u128) -> Cost {
    Cost { units, diagonals }
}

#[test]
fn costs_are_ordered_as_real_numbers() {
    // 1 < √2 < 2 < 1 + √2 < 3 < 2√2 + ... and so on
    assert!(cost(1, 0).lt(cost(0, 1)));
    assert!(!cost(0, 1).lt(cost(1, 0)));
    assert!(cost(0, 1).lt(cost(2, 0)));
    assert!(cost(2, 0).lt(cost(1, 1)));
    assert!(cost(1, 1).lt(cost(3, 0)));
    assert!(cost(0, 2).lt(cost(3, 0)));
    assert!(!cost(3, 0).lt(cost(0, 2)));
    // 7 < 5√2 = 7.07..., and 10 > 7√2 = 9.89...
    assert!(cost(7, 0).lt(cost(0, 5)));
    assert!(cost(0, 7).lt(cost(10, 0)));
    // 2 + 6√2 > 7√2
    assert!(cost(0, 7).lt(cost(2, 6)));
    assert!(!cost(2, 6).lt(cost(0, 7)));
}

#[test]
fn equal_costs_are_not_less() {
    assert!(!cost(0, 0).lt(cost(0, 0)));
    assert!(!cost(3, 4).lt(cost(3, 4)));
    assert!(!cost(0, 7).lt(cost(0, 7)));
    assert!(cost(3, 4).lt(cost(4, 4)));
    assert!(cost(3, 4).lt(cost(3, 5)));
    assert!(!cost(4, 4).lt(cost(3, 4)));
}

#[test]
fn close_costs_are_told_apart_exactly() {
    // 1393 / 985 is a little below √2 and 3363 / 2378 a little above
    assert!(cost(1393, 0).lt(cost(0, 985)));
    assert!(!cost(0, 985).lt(cost(1393, 0)));
    assert!(cost(0, 2378).lt(cost(3363, 0)));
    assert!(!cost(3363, 0).lt(cost(0, 2378)));
    // far beyond what a float can tell apart: p² - 2q² = -1
    let p: u128 = 1_855_077_841;
    let q: u128 = 1_311_738_121;
    assert_eq!(p * p + 1, 2 * q * q);
    assert!(cost(p, 0).lt(cost(0, q)));
    assert!(!cost(0, q).lt(cost(p, 0)));
    assert!(cost(0, q).lt(cost(p + 1, 0)));
    // the same with both parts on both sides
    assert!(cost(p + 5, 3).lt(cost(5, q + 3)));
    assert!(cost(7, q + 2).lt(cost(p + 8, 2)));
}

#[test]
fn large_costs_do_not_overflow() {
    let huge = u128::MAX;
    assert!(cost(0, huge).lt(cost(huge, huge)));
    assert!(cost(huge, 0).lt(cost(0, huge - 1)));
    assert!(cost(huge, 0).lt(cost(0, huge)));
    assert!(!cost(0, huge).lt(cost(huge, 0)));
    assert!(!cost(huge, huge).lt(cost(huge, huge)));
}

#[test]
fn order_agrees_with_floats_on_small_costs() {
    for a in 0..7u128 {
        for b in 0..7u128 {
            for c in 0..7u128 {
                for d in 0..7u128 {
                    let left = cost(a, b);
                    let right = cost(c, d);
                    let expected = (a, b) != (c, d) && value(left) < value(right);
                    assert_eq!(left.lt(right), expected, "{:?} < {:?}", left, right);
                }
            }
        }
    }
}

#[test]
fn sides_of_the_diagonal() {
    assert_eq!(sqrt2_side(0, 0), Side::Level);
    assert_eq!(sqrt2_side(1, 1), Side::Below);
    assert_eq!(sqrt2_side(3, 2), Side::Above);
    assert_eq!(sqrt2_side(7, 5), Side::Below);
    assert_eq!(sqrt2_side(17, 12), Side::Above);
    assert_eq!(sqrt2_side(41, 29), Side::Below);
    assert_eq!(sqrt2_side(5, 0), Side::Above);
    assert_eq!(sqrt2_side(0, 5), Side::Below);
}

#[test]
fn sums_add_both_parts() {
    assert_eq!(cost(1, 2).plus(cost(3, 4)), cost(4, 6));
    assert_eq!(Cost::zero(), cost(0, 0));
    assert_eq!(cost(5, 1).plus(Cost::zero()), cost(5, 1));
}

#[test]
fn diagonal_distance_has_the_exact_parts() {
    let h = Heuristic::Diagonal;
    assert_eq!(h.get_heuristic((1, 1), (8, 8)), cost(0, 7));
    assert_eq!(h.get_heuristic((8, 8), (1, 1)), cost(0, 7));
    assert_eq!(h.get_heuristic((1, 2), (8, 8)), cost(1, 6));
    assert_eq!(h.get_heuristic((0, 0), (5, 2)), cost(3, 2));
    assert_eq!(h.get_heuristic((5, 2), (0, 0)), cost(3, 2));
    assert_eq!(h.get_heuristic((4, 9), (4, 0)), cost(9, 0));
    assert_eq!(h.get_heuristic((3, 3), (3, 3)), cost(0, 0));
    assert_eq!(h.get_heuristic((0, 7), (3, 4)), cost(0, 3));
    assert_eq!(Heuristic::default(), Heuristic::Diagonal);
}

/// The cost of the shortest way from `a` to `b` over a grid of side `size`
/// without walls, found by trying every way that is not longer than the grid.
fn true_cost(a: (usize, usize), b: (usize, usize), size: usize) -> f64 {
    let mut best = vec![vec![f64::INFINITY; size]; size];
    best[a.1][a.0] = 0.0;
    for _ in 0..size * size {
        let mut changed = false;
        for y in 0..size {
            for x in 0..size {
                if best[y][x].is_infinite() {
                    continue;
                }
                for dx in -1i64..=1 {
                    for dy in -1i64..=1 {
                        let nx = x as i64 + dx;
                        let ny = y as i64 + dy;
                        if (dx == 0 && dy == 0) || nx < 0 || ny < 0 {
                            continue;
                        }
                        let (nx, ny) = (nx as usize, ny as usize);
                        if nx >= size || ny >= size {
                            continue;
                        }
                        let step = if dx != 0 && dy != 0 { std::f64::consts::SQRT_2 } else { 1.0 };
                        if best[y][x] + step < best[ny][nx] - 1e-12 {
                            best[ny][nx] = best[y][x] + step;
                            changed = true;
                        }
                    }
                }
            }
        }
        if !changed {
            break;
        }
    }
    best[b.1][b.0]
}

#[test]
fn heuristic_never_exceeds_the_true_cost() {
    let size = 9;
    let pairs = [
        ((1, 1), (7, 7)),
        ((0, 0), (8, 8)),
        ((0, 0), (8, 0)),
        ((3, 5), (3, 5)),
        ((2, 7), (6, 1)),
        ((8, 3), (0, 4)),
        ((4, 4), (5, 6)),
        ((0, 8), (8, 0)),
    ];
    for (a, b) in pairs {
        let estimate = value(Heuristic::Diagonal.get_heuristic(a, b));
        let cost = true_cost(a, b, size);
        assert!(estimate <= cost + 1e-9, "{:?} -> {:?}: {} > {}", a, b, estimate, cost);
        // without walls the estimate is the true cost
        assert!((estimate - cost).abs() < 1e-9);
    }
}
