//! The figures of a turn: where each side's cells are, which of them are
//! nearest to each other, and where the mover's frontier is.

use vstd::prelude::*;
use crate::board::{Board, Grid, Owner, MAX_DIM, held_by};
use crate::game::Game;
use crate::scoring::{
    all_within,
    distances_fit,
    first_or_corner,
    manhattan,
    manhattan_distance,
    sides_touching,
    within,
};

verus! {

/// The cells that `who` holds among the first `n` columns of row `y`, from
/// left to right.
pub open spec fn held_in_row(g: Grid, y: int, who: Owner, n: int) -> Seq<(usize, usize)>
    decreases n,
{
    if n <= 0 {
        Seq::empty()
    } else if held_by(g, y, n - 1, who) {
        held_in_row(g, y, who, n - 1).push((y as usize, (n - 1) as usize))
    } else {
        held_in_row(g, y, who, n - 1)
    }
}

/// The cells that `who` holds in the first `r` rows, row by row and each row
/// from left to right.
pub open spec fn held_in_rows(g: Grid, who: Owner, r: int) -> Seq<(usize, usize)>
    decreases r,
{
    if r <= 0 {
        Seq::empty()
    } else {
        held_in_rows(g, who, r - 1) + held_in_row(g, r - 1, who, g[r - 1].len() as int)
    }
}

/// All the cells that `who` holds, row by row and each row from left to right.
pub open spec fn held_cells(g: Grid, who: Owner) -> Seq<(usize, usize)> {
    held_in_rows(g, who, g.len() as int)
}

/// What `held_in_row` lists: exactly the cells of `who` in the first `n`
/// columns of row `y`.
pub proof fn lemma_held_in_row(g: Grid, y: int, who: Owner, n: int, c: (usize, usize))
    requires
        0 <= y < g.len() <= usize::MAX,
        0 <= n <= g[y].len() <= usize::MAX,
    ensures
        held_in_row(g, y, who, n).contains(c) <==> c.0 == y && c.1 < n && held_by(
            g,
            c.0 as int,
            c.1 as int,
            who,
        ),
    decreases n,
{
    if n > 0 {
        lemma_held_in_row(g, y, who, n - 1, c);
        let prev = held_in_row(g, y, who, n - 1);
        if held_by(g, y, n - 1, who) {
            let last = (y as usize, (n - 1) as usize);
            assert(prev.push(last).last() == last);
            assert forall|k: int| 0 <= k < prev.len() implies prev.push(last)[k] == prev[k] by {}
            if prev.push(last).contains(c) {
                let k = choose|k: int| 0 <= k < prev.push(last).len() && prev.push(last)[k] == c;
                if k < prev.len() {
                    assert(prev[k] == c);
                }
            }
            if c == last {
                assert(prev.push(last)[prev.len() as int] == c);
            }
            if prev.contains(c) {
                let k = choose|k: int| 0 <= k < prev.len() && prev[k] == c;
                assert(prev.push(last)[k] == c);
            }
        }
    }
}

/// What `held_in_rows` lists: exactly the cells of `who` in the first `r` rows.
pub proof fn lemma_held_in_rows(g: Grid, who: Owner, r: int, c: (usize, usize))
    requires
        0 <= r <= g.len() <= usize::MAX,
        forall|y: int| 0 <= y < g.len() ==> (#[trigger] g[y]).len() <= usize::MAX,
    ensures
        held_in_rows(g, who, r).contains(c) <==> c.0 < r && held_by(g, c.0 as int, c.1 as int, who),
    decreases r,
{
    if r > 0 {
        lemma_held_in_rows(g, who, r - 1, c);
        lemma_held_in_row(g, r - 1, who, g[r - 1].len() as int, c);
        let a = held_in_rows(g, who, r - 1);
        let b = held_in_row(g, r - 1, who, g[r - 1].len() as int);
        if (a + b).contains(c) {
            let k = choose|k: int| 0 <= k < (a + b).len() && (a + b)[k] == c;
            if k < a.len() {
                assert(a[k] == c);
            } else {
                assert(b[k - a.len()] == c);
            }
        }
        if a.contains(c) {
            let k = choose|k: int| 0 <= k < a.len() && a[k] == c;
            assert((a + b)[k] == c);
        }
        if b.contains(c) {
            let k = choose|k: int| 0 <= k < b.len() && b[k] == c;
            assert((a + b)[k + a.len()] == c);
        }
    }
}

/// `held_cells` lists exactly the cells that `who` holds.
pub proof fn lemma_held_cells(board: &Board, who: Owner, c: (usize, usize))
    requires
        board.wf(),
    ensures
        held_cells(board.grid(), who).contains(c) <==> held_by(
            board.grid(),
            c.0 as int,
            c.1 as int,
            who,
        ),
{
    lemma_held_in_rows(board.grid(), who, board.grid().len() as int, c);
}

/// Lists the cells that `who` holds, row by row and each row from left to right.
pub fn cells_held_by(board: &Board, who: Owner) -> (coords: Vec<(usize, usize)>)
    requires
        board.wf(),
    ensures
        coords@ == held_cells(board.grid(), who),
{
    let ghost g = board.grid();
    let mut coords: Vec<(usize, usize)> = Vec::new();
    let mut y: usize = 0;
    while y < board.rows
        invariant
            board.wf(),
            g == board.grid(),
            y <= board.rows,
            coords@ == held_in_rows(g, who, y as int),
        decreases board.rows - y,
    {
        let ghost before = coords@;
        let mut x: usize = 0;
        while x < board.cols
            invariant
                board.wf(),
                g == board.grid(),
                y < board.rows,
                x <= board.cols,
                before == held_in_rows(g, who, y as int),
                coords@ == before + held_in_row(g, y as int, who, x as int),
            decreases board.cols - x,
        {
            if board.cells[y][x] == who {
                coords.push((y, x));
            }
            x += 1;
        }
        y += 1;
    }
    coords
}

/// The distance between the `i`-th of `mine` and the `j`-th of `theirs`.
pub open spec fn pair_distance(
    mine: Seq<(usize, usize)>,
    theirs: Seq<(usize, usize)>,
    i: int,
    j: int,
) -> int {
    manhattan(mine[i].0 as int, mine[i].1 as int, theirs[j].0 as int, theirs[j].1 as int)
}

/// The pair `(k, l)` is listed before the pair `(i, j)` when the pairs are
/// listed with the first index outside and the second inside.
pub open spec fn pair_before(k: int, l: int, i: int, j: int) -> bool {
    k < i || (k == i && l < j)
}

/// `(i, j)` is the first listed pair at the least distance between `mine`
/// and `theirs`.
pub open spec fn is_closest_pair(
    mine: Seq<(usize, usize)>,
    theirs: Seq<(usize, usize)>,
    i: int,
    j: int,
) -> bool {
    &&& 0 <= i < mine.len()
    &&& 0 <= j < theirs.len()
    &&& forall|k: int, l: int|
        0 <= k < mine.len() && 0 <= l < theirs.len() ==> pair_distance(mine, theirs, i, j)
            <= #[trigger] pair_distance(mine, theirs, k, l)
    &&& forall|k: int, l: int|
        0 <= k < mine.len() && 0 <= l < theirs.len() && pair_before(k, l, i, j) ==> pair_distance(
            mine,
            theirs,
            i,
            j,
        ) < #[trigger] pair_distance(mine, theirs, k, l)
}

/// The two nearest cells of `mine` and `theirs` and their distance. When
/// several pairs are equally near, the first listed one. When either side has
/// no cell: the first of `mine` (or the corner), the corner, and `usize::MAX`.
pub open spec fn closest_pair(mine: Seq<(usize, usize)>, theirs: Seq<(usize, usize)>) -> (
    (usize, usize),
    (usize, usize),
    usize,
) {
    if mine.len() == 0 || theirs.len() == 0 {
        (first_or_corner(mine), (0usize, 0usize), usize::MAX)
    } else {
        let (i, j) = choose|i: int, j: int| is_closest_pair(mine, theirs, i, j);
        (mine[i], theirs[j], pair_distance(mine, theirs, i, j) as usize)
    }
}

/// There is at most one closest pair.
pub proof fn lemma_closest_pair_unique(
    mine: Seq<(usize, usize)>,
    theirs: Seq<(usize, usize)>,
    i: int,
    j: int,
    k: int,
    l: int,
)
    requires
        is_closest_pair(mine, theirs, i, j),
        is_closest_pair(mine, theirs, k, l),
    ensures
        i == k && j == l,
{
    if pair_before(k, l, i, j) {
        assert(pair_distance(mine, theirs, i, j) < pair_distance(mine, theirs, k, l));
        assert(pair_distance(mine, theirs, k, l) <= pair_distance(mine, theirs, i, j));
    } else if pair_before(i, j, k, l) {
        assert(pair_distance(mine, theirs, k, l) < pair_distance(mine, theirs, i, j));
        assert(pair_distance(mine, theirs, i, j) <= pair_distance(mine, theirs, k, l));
    }
}

/// Sum of the row numbers of the first `n` points.
pub open spec fn row_sum(points: Seq<(usize, usize)>, n: int) -> int
    decreases n,
{
    if n <= 0 {
        0
    } else {
        row_sum(points, n - 1) + points[n - 1].0
    }
}

/// Sum of the column numbers of the first `n` points.
pub open spec fn col_sum(points: Seq<(usize, usize)>, n: int) -> int
    decreases n,
{
    if n <= 0 {
        0
    } else {
        col_sum(points, n - 1) + points[n - 1].1
    }
}

/// The mean of the points, each coordinate rounded down; the corner when
/// there is no point.
pub open spec fn centroid(points: Seq<(usize, usize)>) -> (int, int) {
    if points.len() == 0 {
        (0, 0)
    } else {
        (
            row_sum(points, points.len() as int) / (points.len() as int),
            col_sum(points, points.len() as int) / (points.len() as int),
        )
    }
}

/// A sum of `i` sizes, with one more size added, still fits sixteen bytes.
proof fn lemma_sum_room(i: int, top: int)
    by (nonlinear_arith)
    requires
        0 <= i < top,
        top <= 0xFFFF_FFFF_FFFF_FFFF,
    ensures
        (i + 1) * top == i * top + top,
        i * top + top <= 0xFFFF_FFFF_FFFF_FFFE_0000_0000_0000_0001,
{
}

/// The mean of `n` numbers of at most `limit` each is at most `limit`.
proof fn lemma_mean_bound(sum: int, n: int, limit: int)
    by (nonlinear_arith)
    requires
        0 < n,
        0 <= sum <= n * limit,
    ensures
        sum / n <= limit,
{
}

/// The cell `(y, x)` has a side that touches a cell of `who`.
pub open spec fn touches(g: Grid, y: int, x: int, who: Owner) -> bool {
    sides_touching(g, y, x, who) > 0
}

/// Those of the first `n` points that touch an empty cell, in the order given.
pub open spec fn frontier_of(g: Grid, points: Seq<(usize, usize)>, n: int) -> Seq<(usize, usize)>
    decreases n,
{
    if n <= 0 {
        Seq::empty()
    } else if touches(g, points[n - 1].0 as int, points[n - 1].1 as int, Owner::Empty) {
        frontier_of(g, points, n - 1).push(points[n - 1])
    } else {
        frontier_of(g, points, n - 1)
    }
}

/// Tells whether a side of `(y, x)` touches a cell of `who`. The cell itself
/// may lie anywhere, on the board or off it.
pub fn touches_cell_of(board: &Board, y: usize, x: usize, who: Owner) -> (hit: bool)
    requires
        board.wf(),
    ensures
        hit == touches(board.grid(), y as int, x as int, who),
{
    let below = x < board.cols && board.rows > 0 && y < board.rows - 1 && board.cells[y + 1][x] == who;
    let above = x < board.cols && y >= 1 && y - 1 < board.rows && board.cells[y - 1][x] == who;
    let right = y < board.rows && board.cols > 0 && x < board.cols - 1 && board.cells[y][x + 1] == who;
    let left = y < board.rows && x >= 1 && x - 1 < board.cols && board.cells[y][x - 1] == who;
    below || above || right || left
}

/// The distance between each of `mine` and each of `theirs` fits a `usize`.
pub open spec fn pairs_fit(mine: Seq<(usize, usize)>, theirs: Seq<(usize, usize)>) -> bool {
    forall|i: int|
        0 <= i < mine.len() ==> distances_fit(
            (#[trigger] mine[i]).0 as int,
            mine[i].1 as int,
            theirs,
        )
}

/// Within the engine's limit the distance of every pair fits a `usize`.
pub proof fn lemma_within_pairs_fit(mine: Seq<(usize, usize)>, theirs: Seq<(usize, usize)>)
    requires
        all_within(mine),
        all_within(theirs),
    ensures
        pairs_fit(mine, theirs),
{
    assert forall|i: int| 0 <= i < mine.len() implies distances_fit(
        (#[trigger] mine[i]).0 as int,
        mine[i].1 as int,
        theirs,
    ) by {
        assert(within(mine[i]));
        assert forall|j: int| 0 <= j < theirs.len() implies manhattan(
            mine[i].0 as int,
            mine[i].1 as int,
            (#[trigger] theirs[j]).0 as int,
            theirs[j].1 as int,
        ) <= usize::MAX by {
            assert(within(theirs[j]));
        }
    }
}

impl Game {
    /// Finds the nearest pair of one cell of `my_coords` and one of
    /// `enemy_coords`, and their distance. The distances are to fit a `usize`.
    pub fn find_closest_pair(&self, my_coords: &[(usize, usize)], enemy_coords: &[(usize, usize)]) -> (found:
        ((usize, usize), (usize, usize), usize))
        requires
            pairs_fit(my_coords@, enemy_coords@),
        ensures
            found == closest_pair(my_coords@, enemy_coords@),
            my_coords@.len() > 0 && enemy_coords@.len() > 0 ==> my_coords@.contains(found.0)
                && enemy_coords@.contains(found.1),
            all_within(my_coords@) && all_within(enemy_coords@) && my_coords@.len() > 0
                && enemy_coords@.len() > 0 ==> found.2 <= 2 * MAX_DIM,
    {
        let ghost mine = my_coords@;
        let ghost theirs = enemy_coords@;
        if enemy_coords.len() == 0 || my_coords.len() == 0 {
            let my_first = if my_coords.len() > 0 {
                my_coords[0]
            } else {
                (0, 0)
            };
            return (my_first, (0, 0), usize::MAX);
        }
        assert(distances_fit(mine[0].0 as int, mine[0].1 as int, theirs));
        assert(pair_distance(mine, theirs, 0, 0) <= usize::MAX);
        assert(all_within(mine) && all_within(theirs) ==> within(mine[0]) && within(theirs[0]));
        let mut best_my = my_coords[0];
        let mut best_enemy = enemy_coords[0];
        let mut best_dist: usize = manhattan_distance(best_my, best_enemy);
        let ghost mut bi: int = 0;
        let ghost mut bj: int = 0;
        let mut i: usize = 0;
        while i < my_coords.len()
            invariant
                mine == my_coords@,
                theirs == enemy_coords@,
                pairs_fit(mine, theirs),
                theirs.len() > 0,
                i <= mine.len(),
                0 <= bi < mine.len(),
                0 <= bj < theirs.len(),
                best_my == mine[bi],
                best_enemy == theirs[bj],
                best_dist == pair_distance(mine, theirs, bi, bj),
                all_within(mine) && all_within(theirs) ==> best_dist <= 2 * MAX_DIM,
                (bi == 0 && bj == 0) || bi < i,
                forall|k: int, l: int|
                    0 <= k < i && 0 <= l < theirs.len() ==> best_dist <= #[trigger] pair_distance(
                        mine,
                        theirs,
                        k,
                        l,
                    ),
                forall|k: int, l: int|
                    0 <= k < mine.len() && 0 <= l < theirs.len() && pair_before(k, l, bi, bj)
                        ==> best_dist < #[trigger] pair_distance(mine, theirs, k, l),
            decreases mine.len() - i,
        {
            let mut j: usize = 0;
            while j < enemy_coords.len()
                invariant
                    mine == my_coords@,
                    theirs == enemy_coords@,
                    pairs_fit(mine, theirs),
                    i < mine.len(),
                    j <= theirs.len(),
                    0 <= bi < mine.len(),
                    0 <= bj < theirs.len(),
                    best_my == mine[bi],
                    best_enemy == theirs[bj],
                    best_dist == pair_distance(mine, theirs, bi, bj),
                    all_within(mine) && all_within(theirs) ==> best_dist <= 2 * MAX_DIM,
                    (bi == 0 && bj == 0) || pair_before(bi, bj, i as int, j as int),
                    forall|k: int, l: int|
                        0 <= k < mine.len() && 0 <= l < theirs.len() && pair_before(
                            k,
                            l,
                            i as int,
                            j as int,
                        ) ==> best_dist <= #[trigger] pair_distance(mine, theirs, k, l),
                    forall|k: int, l: int|
                        0 <= k < mine.len() && 0 <= l < theirs.len() && pair_before(k, l, bi, bj)
                            ==> best_dist < #[trigger] pair_distance(mine, theirs, k, l),
                decreases theirs.len() - j,
            {
                assert(distances_fit(mine[i as int].0 as int, mine[i as int].1 as int, theirs));
                assert(pair_distance(mine, theirs, i as int, j as int) <= usize::MAX);
                assert(all_within(mine) && all_within(theirs) ==> within(mine[i as int]) && within(
                    theirs[j as int],
                ));
                let dist = manhattan_distance(my_coords[i], enemy_coords[j]);
                assert(dist == pair_distance(mine, theirs, i as int, j as int));
                if dist < best_dist {
                    best_dist = dist;
                    best_my = my_coords[i];
                    best_enemy = enemy_coords[j];
                    proof {
                        bi = i as int;
                        bj = j as int;
                    }
                }
                j += 1;
            }
            i += 1;
        }
        proof {
            assert(is_closest_pair(mine, theirs, bi, bj));
            let (ci, cj) = choose|ci: int, cj: int| is_closest_pair(mine, theirs, ci, cj);
            lemma_closest_pair_unique(mine, theirs, bi, bj, ci, cj);
        }
        (best_my, best_enemy, best_dist)
    }

    /// The mean position of `coords`, each coordinate rounded down.
    pub fn calculate_centroid(&self, coords: &[(usize, usize)]) -> (center: (usize, usize))
        ensures
            center.0 == centroid(coords@).0,
            center.1 == centroid(coords@).1,
            all_within(coords@) ==> within(center),
    {
        if coords.len() == 0 {
            return (0, 0);
        }
        let length = coords.len();
        let ghost top = usize::MAX as int;
        let mut sum_y: u128 = 0;
        let mut sum_x: u128 = 0;
        let mut i: usize = 0;
        while i < length
            invariant
                length == coords@.len(),
                top == usize::MAX,
                i <= length,
                sum_y == row_sum(coords@, i as int),
                sum_x == col_sum(coords@, i as int),
                sum_y <= i * top,
                sum_x <= i * top,
                all_within(coords@) ==> sum_y <= i * MAX_DIM && sum_x <= i * MAX_DIM,
            decreases length - i,
        {
            proof {
                lemma_sum_room(i as int, top);
                assert(all_within(coords@) ==> within(coords@[i as int]));
            }
            sum_y += coords[i].0 as u128;
            sum_x += coords[i].1 as u128;
            i += 1;
        }
        let n: u128 = length as u128;
        let mean_y = sum_y / n;
        let mean_x = sum_x / n;
        proof {
            lemma_mean_bound(sum_y as int, n as int, top);
            lemma_mean_bound(sum_x as int, n as int, top);
            if all_within(coords@) {
                lemma_mean_bound(sum_y as int, n as int, MAX_DIM as int);
                lemma_mean_bound(sum_x as int, n as int, MAX_DIM as int);
            }
        }
        (mean_y as usize, mean_x as usize)
    }

    /// Picks out of `my_coords`, in order, the cells that touch an empty cell
    /// of the board.
    pub fn find_frontier(&self, my_coords: &[(usize, usize)], board: &Board) -> (frontier: Vec<
        (usize, usize),
    >)
        requires
            board.wf(),
        ensures
            frontier@ == frontier_of(board.grid(), my_coords@, my_coords@.len() as int),
    {
        let mut frontier: Vec<(usize, usize)> = Vec::new();
        let mut i: usize = 0;
        while i < my_coords.len()
            invariant
                board.wf(),
                i <= my_coords@.len(),
                frontier@ == frontier_of(board.grid(), my_coords@, i as int),
            decreases my_coords@.len() - i,
        {
            let (y, x) = my_coords[i];
            if touches_cell_of(board, y, x, Owner::Empty) {
                frontier.push((y, x));
            }
            i += 1;
        }
        frontier
    }
}

} // verus!
