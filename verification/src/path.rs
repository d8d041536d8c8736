//! Walks over the passable cells of a grid, and what a path search finds.
//!
//! A grid is a square of flags, `grid[x][y]` telling whether the cell at
//! column `x`, row `y` can be entered. A step leads from a cell to one of the
//! up to eight cells around it, and costs 1.

use vstd::prelude::*;

verus! {

/// A cell of the grid, or any other place: column first, then row.
pub type Place = (usize, usize);

/// How far two coordinates lie apart.
pub open spec fn gap(a: usize, b: usize) -> nat {
    if a >= b {
        (a - b) as nat
    } else {
        (b - a) as nat
    }
}

/// The number of steps between two places when nothing stands in the way:
/// the larger of the two gaps.
pub open spec fn chebyshev(a: Place, b: Place) -> nat {
    if gap(a.0, b.0) >= gap(a.1, b.1) {
        gap(a.0, b.0)
    } else {
        gap(a.1, b.1)
    }
}

/// The square of the straight-line distance between two places.
pub open spec fn squared_distance(a: Place, b: Place) -> nat {
    gap(a.0, b.0) * gap(a.0, b.0) + gap(a.1, b.1) * gap(a.1, b.1)
}

/// `root` is the square root of `n`, rounded up.
pub open spec fn is_ceil_sqrt(n: nat, root: nat) -> bool {
    root * root >= n && (root == 0 || (root - 1) * (root - 1) < n)
}

/// Two different places that touch, by a side or by a corner.
pub open spec fn adjacent(a: Place, b: Place) -> bool {
    a != b && gap(a.0, b.0) <= 1 && gap(a.1, b.1) <= 1
}

/// `to` lies within a grid of the given side and next to `at`.
pub open spec fn is_neighbour(side: nat, at: Place, to: Place) -> bool {
    adjacent(at, to) && to.0 < side && to.1 < side
}

/// `to` is a cell of the grid.
pub open spec fn in_grid(grid: Seq<Seq<bool>>, to: Place) -> bool {
    to.0 < grid.len() && to.1 < grid[to.0 as int].len()
}

/// One step of a walk: `to` is a neighbouring cell that can be entered.
pub open spec fn is_step(grid: Seq<Seq<bool>>, at: Place, to: Place) -> bool {
    is_neighbour(grid.len(), at, to) && in_grid(grid, to) && grid[to.0 as int][to.1 as int]
}

/// `walk` leads from `start` to `end`, step by step. The place a walk
/// starts from need not be passable, nor lie in the grid.
pub open spec fn is_walk(grid: Seq<Seq<bool>>, walk: Seq<Place>, start: Place, end: Place) -> bool {
    &&& walk.len() >= 1
    &&& walk[0] == start
    &&& walk[walk.len() - 1] == end
    &&& forall|i: int| 0 <= i < walk.len() - 1 ==> is_step(grid, #[trigger] walk[i], walk[i + 1])
}

/// Some walk leads from `start` to `end`.
pub open spec fn connected(grid: Seq<Seq<bool>>, start: Place, end: Place) -> bool {
    exists|walk: Seq<Place>| is_walk(grid, walk, start, end)
}

/// Some walk of exactly `cost` steps leads from `start` to `end`.
pub open spec fn walk_of_cost(grid: Seq<Seq<bool>>, start: Place, end: Place, cost: nat) -> bool {
    exists|walk: Seq<Place>| is_walk(grid, walk, start, end) && walk.len() == cost + 1
}

/// Each entry of `steps` names a cell that `allowed` admits, at cost 1;
/// every cell that `allowed` admits is named; and the cells come in
/// ascending order, by column and then by row, so that none comes twice.
pub open spec fn lists_exactly<C>(
    steps: Seq<(Place, C)>,
    one: C,
    allowed: spec_fn(Place) -> bool,
) -> bool {
    &&& forall|i: int|
        0 <= i < steps.len() ==> allowed((#[trigger] steps[i]).0) && steps[i].1 == one
    &&& forall|to: Place| allowed(to) ==> #[trigger] lists(steps, to)
    &&& forall|i: int, j: int|
        0 <= i < j < steps.len() ==> comes_before((#[trigger] steps[i]).0, (#[trigger] steps[j]).0)
}

/// `to` is among the cells that `steps` names.
pub open spec fn lists<C>(steps: Seq<(Place, C)>, to: Place) -> bool {
    exists|i: int| 0 <= i < steps.len() && (#[trigger] steps[i]).0 == to
}

/// `places` names the cells that `allowed` admits, each once, in ascending
/// order by column and then by row.
pub open spec fn holds_exactly(places: Seq<Place>, allowed: spec_fn(Place) -> bool) -> bool {
    &&& forall|i: int| 0 <= i < places.len() ==> allowed(#[trigger] places[i])
    &&& forall|to: Place| allowed(to) ==> #[trigger] places.contains(to)
    &&& forall|i: int, j: int|
        0 <= i < j < places.len() ==> comes_before(#[trigger] places[i], #[trigger] places[j])
}

/// A list that holds exactly the admitted cells holds none twice, and as
/// many as there are.
pub proof fn lemma_holds_each_once(places: Seq<Place>, allowed: spec_fn(Place) -> bool)
    requires
        holds_exactly(places, allowed),
    ensures
        places.no_duplicates(),
        places.to_set() == Set::new(allowed),
        Set::new(allowed).finite(),
        Set::new(allowed).len() == places.len(),
{
    assert forall|i: int, j: int| 0 <= i < places.len() && 0 <= j < places.len() && i != j
        implies places[i]
        != places[j] by {
        if i < j {
            assert(comes_before(places[i], places[j]));
        } else {
            assert(comes_before(places[j], places[i]));
        }
    }
    assert(places.to_set() =~= Set::new(allowed));
    places.unique_seq_to_set();
    vstd::seq_lib::seq_to_set_is_finite(places);
}

/// What is kept of a list in ascending order is in ascending order, and
/// holds exactly the cells of the list that were to be kept.
pub proof fn lemma_kept_cells_stay_listed(places: Seq<Place>, keep: spec_fn(Place) -> bool)
    requires
        forall|i: int, j: int|
            0 <= i < j < places.len() ==> comes_before(#[trigger] places[i], #[trigger] places[j]),
    ensures
        holds_exactly(places.filter(keep), |at: Place| places.contains(at) && keep(at)),
    decreases places.len(),
{
    let kept = places.filter(keep);
    let wanted = |at: Place| places.contains(at) && keep(at);
    places.lemma_filter_len(keep);
    if places.len() > 0 {
        let shorter = places.drop_last();
        let last = places.last();
        let before = shorter.filter(keep);
        lemma_kept_cells_stay_listed(shorter, keep);
        assert(places =~= shorter.push(last));
        shorter.lemma_filter_push(last, keep);
        assert forall|k: int| 0 <= k < before.len() implies places.contains(#[trigger] before[k])
            && keep(before[k]) && comes_before(before[k], last) by {
            let at = before[k];
            assert(shorter.contains(at) && keep(at));
            let j = choose|j: int| 0 <= j < shorter.len() && shorter[j] == at;
            assert(places[j] == at);
            assert(comes_before(places[j], places[places.len() - 1]));
        }
        assert forall|i: int| 0 <= i < kept.len() implies wanted(#[trigger] kept[i]) by {
            if i < before.len() {
                assert(kept[i] == before[i]);
            } else {
                assert(places[places.len() - 1] == last);
            }
        }
        assert forall|to: Place| wanted(to) implies #[trigger] kept.contains(to) by {
            let j = choose|j: int| 0 <= j < places.len() && places[j] == to;
            if j < places.len() - 1 {
                assert(shorter[j] == to);
                assert(shorter.contains(to));
                assert(before.contains(to));
                let k = choose|k: int| 0 <= k < before.len() && before[k] == to;
                assert(kept[k] == to);
            } else {
                assert(kept[kept.len() - 1] == to);
            }
        }
        assert forall|i: int, j: int| 0 <= i < j < kept.len() implies comes_before(
            #[trigger] kept[i],
            #[trigger] kept[j],
        ) by {
            assert(kept[i] == before[i]);
            if j < before.len() {
                assert(kept[j] == before[j]);
            }
        }
    }
}

/// The order in which cells are listed: by column, then by row.
pub open spec fn comes_before(a: Place, b: Place) -> bool {
    a.0 < b.0 || (a.0 == b.0 && a.1 < b.1)
}

/// A walk cannot be shorter than the larger gap between its ends: a step
/// changes each coordinate by at most one.
pub proof fn lemma_walk_is_no_shortcut(
    grid: Seq<Seq<bool>>,
    walk: Seq<Place>,
    start: Place,
    end: Place,
)
    requires
        is_walk(grid, walk, start, end),
    ensures
        walk.len() - 1 >= chebyshev(start, end),
    decreases walk.len(),
{
    if walk.len() >= 2 {
        let shorter = walk.drop_last();
        let before = walk[walk.len() - 2];
        assert(is_walk(grid, shorter, start, before)) by {
            assert forall|i: int| 0 <= i < shorter.len() - 1 implies is_step(
                grid,
                #[trigger] shorter[i],
                shorter[i + 1],
            ) by {
                assert(is_step(grid, walk[i], walk[i + 1]));
            }
        }
        lemma_walk_is_no_shortcut(grid, shorter, start, before);
        assert(is_step(grid, walk[walk.len() - 2], walk[walk.len() - 2 + 1]));
    }
}

/// A place is connected to itself, by the walk that never leaves it.
pub proof fn lemma_connected_to_itself(grid: Seq<Seq<bool>>, at: Place)
    ensures
        connected(grid, at, at),
        walk_of_cost(grid, at, at, 0),
{
    let walk = seq![at];
    assert(is_walk(grid, walk, at, at));
}

/// The square root of `n`, rounded up.
pub open spec fn ceil_sqrt(n: nat) -> nat {
    choose|root: nat| is_ceil_sqrt(n, root)
}

/// The straight-line distance between two places, rounded up, and 255
/// where that would be more.
pub open spec fn straight_distance(a: Place, b: Place) -> nat {
    if ceil_sqrt(squared_distance(a, b)) >= 255 {
        255
    } else {
        ceil_sqrt(squared_distance(a, b))
    }
}

/// A number of steps as a distance: 255 stands for that and more.
pub open spec fn capped(steps: nat) -> nat {
    if steps >= 255 {
        255
    } else {
        steps
    }
}

proof fn lemma_square_grows(a: nat, b: nat)
    requires
        a <= b,
    ensures
        a * a <= b * b,
{
    assert(a * a <= b * b) by (nonlinear_arith)
        requires
            a <= b,
    ;
}

proof fn lemma_root_found_from(n: nat, from: nat)
    requires
        from == 0 || (from - 1) * (from - 1) < n,
        from <= n + 1,
    ensures
        exists|root: nat| is_ceil_sqrt(n, root),
    decreases n + 1 - from,
{
    if from * from >= n {
        assert(is_ceil_sqrt(n, from));
    } else {
        assert(from < n) by (nonlinear_arith)
            requires
                from * from < n,
        ;
        lemma_root_found_from(n, from + 1);
    }
}

/// Every number has exactly one rounded-up square root.
pub proof fn lemma_ceil_sqrt_is_the_root(n: nat, root: nat)
    requires
        is_ceil_sqrt(n, root),
    ensures
        ceil_sqrt(n) == root,
{
    let chosen = ceil_sqrt(n);
    assert(is_ceil_sqrt(n, chosen));
    if chosen < root {
        lemma_square_grows(chosen, (root - 1) as nat);
    } else if root < chosen {
        lemma_square_grows(root, (chosen - 1) as nat);
    }
}

/// The rounded-up square root exists.
pub proof fn lemma_ceil_sqrt_exists(n: nat)
    ensures
        is_ceil_sqrt(n, ceil_sqrt(n)),
{
    lemma_root_found_from(n, 0);
}

/// A place lies at no distance from itself.
pub proof fn lemma_no_distance_to_itself(at: Place)
    ensures
        straight_distance(at, at) == 0,
{
    assert(squared_distance(at, at) == 0) by (nonlinear_arith)
        requires
            squared_distance(at, at) == gap(at.0, at.0) * gap(at.0, at.0) + gap(at.1, at.1) * gap(
                at.1,
                at.1,
            ),
            gap(at.0, at.0) == 0,
            gap(at.1, at.1) == 0,
    ;
    lemma_ceil_sqrt_is_the_root(0, 0);
}

/// Along a row or a column the straight-line distance is the number of
/// steps that lie between the two places.
pub proof fn lemma_straight_distance_in_line(a: Place, b: Place)
    requires
        a.0 == b.0 || a.1 == b.1,
    ensures
        straight_distance(a, b) == capped(chebyshev(a, b)),
{
    let far = chebyshev(a, b);
    assert(squared_distance(a, b) == far * far) by (nonlinear_arith)
        requires
            far == chebyshev(a, b),
            a.0 == b.0 || a.1 == b.1,
            squared_distance(a, b) == gap(a.0, b.0) * gap(a.0, b.0) + gap(a.1, b.1) * gap(
                a.1,
                b.1,
            ),
            chebyshev(a, b) == if gap(a.0, b.0) >= gap(a.1, b.1) {
                gap(a.0, b.0)
            } else {
                gap(a.1, b.1)
            },
            gap(a.0, b.0) == 0 || gap(a.1, b.1) == 0,
    ;
    if far > 0 {
        assert((far - 1) * (far - 1) < far * far) by (nonlinear_arith)
            requires
                far > 0,
        ;
    }
    lemma_ceil_sqrt_is_the_root(far * far, far);
}

/// The cost that the A* search of the `pathfinding` crate returns on a grid
/// for a walk from (`start_x`, `start_y`) to (`end_x`, `end_y`), when steps
/// are those of `is_step`, each costs 1, and the estimate of what remains is
/// the straight-line distance rounded up (255 at most). `None` where the
/// search finds no walk. The estimate can exceed what remains, so the cost
/// need not be the least possible.
pub uninterp spec fn astar_cost(
    grid: Seq<Seq<bool>>,
    start_x: usize,
    start_y: usize,
    end_x: usize,
    end_y: usize,
) -> Option<usize>;

} // verus!
