//! The rush-then-block policy: what it measures of a placement and how it
//! weighs the measures into a score.

use vstd::prelude::*;
use crate::board::{Board, Grid, Owner, MAX_DIM, held_by};
use crate::piece::{Piece, MAX_CELLS};
use crate::placement::{is_legal, lands_free, lands_on, sole_overlap};
use crate::projection::{MAX_DOT, project, projection};
use crate::game::Game;

verus! {

/// Distance to the opponent above which the mover rushes towards it.
pub const RUSH_DISTANCE: usize = 5;

/// Both coordinates are at most `MAX_DIM`.
pub open spec fn within(c: (usize, usize)) -> bool {
    c.0 <= MAX_DIM && c.1 <= MAX_DIM
}

/// Every point of `points` is `within` the limit.
pub open spec fn all_within(points: Seq<(usize, usize)>) -> bool {
    forall|i: int| 0 <= i < points.len() ==> within(#[trigger] points[i])
}

/// Distance between `(ay, ax)` and `(by, bx)` in steps along rows and columns.
pub open spec fn manhattan(ay: int, ax: int, by: int, bx: int) -> int {
    (if ay >= by {
        ay - by
    } else {
        by - ay
    }) + (if ax >= bx {
        ax - bx
    } else {
        bx - ax
    })
}

/// How many of the first `n` filled cells land on an empty cell.
pub open spec fn gained(g: Grid, cells: Seq<(usize, usize)>, top: int, left: int, n: int) -> int
    decreases n,
{
    if n <= 0 {
        0
    } else {
        gained(g, cells, top, left, n - 1) + if lands_on(g, cells, top, left, n - 1, Owner::Empty) {
            1int
        } else {
            0int
        }
    }
}

/// 1 when `(y, x)` is a cell of `g` held by `who`, else 0.
pub open spec fn one_if_held(g: Grid, y: int, x: int, who: Owner) -> int {
    if held_by(g, y, x, who) {
        1
    } else {
        0
    }
}

/// How many of the four sides of `(y, x)` touch a cell of `who`.
pub open spec fn sides_touching(g: Grid, y: int, x: int, who: Owner) -> int {
    one_if_held(g, y + 1, x, who) + one_if_held(g, y - 1, x, who) + one_if_held(g, y, x + 1, who)
        + one_if_held(g, y, x - 1, who)
}

/// Sides touching `who`, summed over the first `n` filled cells.
pub open spec fn contacts(
    g: Grid,
    cells: Seq<(usize, usize)>,
    top: int,
    left: int,
    who: Owner,
    n: int,
) -> int
    decreases n,
{
    if n <= 0 {
        0
    } else {
        contacts(g, cells, top, left, who, n - 1) + sides_touching(
            g,
            top + cells[n - 1].0,
            left + cells[n - 1].1,
            who,
        )
    }
}

/// Smaller of two integers.
pub open spec fn least(a: int, b: int) -> int {
    if a <= b {
        a
    } else {
        b
    }
}

/// Larger of two integers.
pub open spec fn greatest(a: int, b: int) -> int {
    if a >= b {
        a
    } else {
        b
    }
}

/// Distance from `(y, x)` to the nearest of the first `m` points;
/// `usize::MAX` when there is none.
pub open spec fn nearest(y: int, x: int, points: Seq<(usize, usize)>, m: int) -> int
    decreases m,
{
    if m <= 0 {
        usize::MAX as int
    } else {
        least(
            nearest(y, x, points, m - 1),
            manhattan(y, x, points[m - 1].0 as int, points[m - 1].1 as int),
        )
    }
}

/// Distance from the first `n` filled cells to the nearest of `points`;
/// `usize::MAX` when either is empty.
pub open spec fn footprint_distance(
    cells: Seq<(usize, usize)>,
    top: int,
    left: int,
    points: Seq<(usize, usize)>,
    n: int,
) -> int
    decreases n,
{
    if n <= 0 {
        usize::MAX as int
    } else {
        least(
            footprint_distance(cells, top, left, points, n - 1),
            nearest(top + cells[n - 1].0, left + cells[n - 1].1, points, points.len() as int),
        )
    }
}

/// Distance from the first `n` filled cells to the one point `(ty, tx)`;
/// `usize::MAX` when there is no cell.
pub open spec fn target_distance(
    cells: Seq<(usize, usize)>,
    top: int,
    left: int,
    ty: int,
    tx: int,
    n: int,
) -> int
    decreases n,
{
    if n <= 0 {
        usize::MAX as int
    } else {
        least(
            target_distance(cells, top, left, ty, tx, n - 1),
            manhattan(top + cells[n - 1].0, left + cells[n - 1].1, ty, tx),
        )
    }
}

/// `gained` counts: it is the number of the filled cells, among the first
/// `n`, that land on an empty cell.
pub proof fn lemma_gained_counts(g: Grid, cells: Seq<(usize, usize)>, top: int, left: int, n: int)
    requires
        0 <= n,
    ensures
        Set::new(|i: int| 0 <= i < n && lands_on(g, cells, top, left, i, Owner::Empty)).finite(),
        gained(g, cells, top, left, n) == Set::new(
            |i: int| 0 <= i < n && lands_on(g, cells, top, left, i, Owner::Empty),
        ).len(),
    decreases n,
{
    let now = Set::new(|i: int| 0 <= i < n && lands_on(g, cells, top, left, i, Owner::Empty));
    if n == 0 {
        assert(now =~= Set::empty());
    } else {
        lemma_gained_counts(g, cells, top, left, n - 1);
        let before = Set::new(
            |i: int| 0 <= i < n - 1 && lands_on(g, cells, top, left, i, Owner::Empty),
        );
        if lands_on(g, cells, top, left, n - 1, Owner::Empty) {
            assert(now =~= before.insert(n - 1));
        } else {
            assert(now =~= before);
        }
    }
}

/// `nearest` is no larger than the distance to any of the points.
pub proof fn lemma_nearest_is_least(y: int, x: int, points: Seq<(usize, usize)>, m: int, j: int)
    requires
        0 <= j < m,
    ensures
        nearest(y, x, points, m) <= manhattan(y, x, points[j].0 as int, points[j].1 as int),
    decreases m,
{
    if j < m - 1 {
        lemma_nearest_is_least(y, x, points, m - 1, j);
    }
}

/// `nearest` is the distance to one of the points, unless it is `usize::MAX`.
pub proof fn lemma_nearest_is_met(y: int, x: int, points: Seq<(usize, usize)>, m: int)
    ensures
        nearest(y, x, points, m) == usize::MAX || exists|j: int|
            0 <= j < m && nearest(y, x, points, m) == manhattan(
                y,
                x,
                (#[trigger] points[j]).0 as int,
                points[j].1 as int,
            ),
    decreases m,
{
    if m > 0 {
        lemma_nearest_is_met(y, x, points, m - 1);
        let d = manhattan(y, x, points[m - 1].0 as int, points[m - 1].1 as int);
        if nearest(y, x, points, m) == d {
            assert(0 <= m - 1 < m && nearest(y, x, points, m) == manhattan(
                y,
                x,
                points[m - 1].0 as int,
                points[m - 1].1 as int,
            ));
        } else if nearest(y, x, points, m) != usize::MAX {
            let j = choose|j: int|
                0 <= j < m - 1 && nearest(y, x, points, m - 1) == manhattan(
                    y,
                    x,
                    (#[trigger] points[j]).0 as int,
                    points[j].1 as int,
                );
            assert(0 <= j < m && nearest(y, x, points, m) == manhattan(
                y,
                x,
                points[j].0 as int,
                points[j].1 as int,
            ));
        }
    }
}

/// `footprint_distance` is no larger than the distance from any filled
/// cell to any of the points.
pub proof fn lemma_footprint_distance_is_least(
    cells: Seq<(usize, usize)>,
    top: int,
    left: int,
    points: Seq<(usize, usize)>,
    n: int,
    i: int,
    j: int,
)
    requires
        0 <= i < n,
        0 <= j < points.len(),
    ensures
        footprint_distance(cells, top, left, points, n) <= manhattan(
            top + cells[i].0,
            left + cells[i].1,
            points[j].0 as int,
            points[j].1 as int,
        ),
    decreases n,
{
    if i < n - 1 {
        lemma_footprint_distance_is_least(cells, top, left, points, n - 1, i, j);
    } else {
        lemma_nearest_is_least(top + cells[i].0, left + cells[i].1, points, points.len() as int, j);
    }
}

/// `footprint_distance` is the distance from one of the filled cells to one
/// of the points, unless it is `usize::MAX`.
pub proof fn lemma_footprint_distance_is_met(
    cells: Seq<(usize, usize)>,
    top: int,
    left: int,
    points: Seq<(usize, usize)>,
    n: int,
)
    ensures
        footprint_distance(cells, top, left, points, n) == usize::MAX || exists|i: int, j: int|
            0 <= i < n && 0 <= j < points.len() && footprint_distance(cells, top, left, points, n)
                == manhattan(
                top + (#[trigger] cells[i]).0,
                left + cells[i].1,
                (#[trigger] points[j]).0 as int,
                points[j].1 as int,
            ),
    decreases n,
{
    if n > 0 {
        lemma_footprint_distance_is_met(cells, top, left, points, n - 1);
        let here = nearest(top + cells[n - 1].0, left + cells[n - 1].1, points, points.len() as int);
        let all = footprint_distance(cells, top, left, points, n);
        if all != usize::MAX {
            if all == here {
                lemma_nearest_is_met(
                    top + cells[n - 1].0,
                    left + cells[n - 1].1,
                    points,
                    points.len() as int,
                );
                let j = choose|j: int|
                    0 <= j < points.len() && here == manhattan(
                        top + cells[n - 1].0,
                        left + cells[n - 1].1,
                        (#[trigger] points[j]).0 as int,
                        points[j].1 as int,
                    );
                assert(0 <= n - 1 < n && 0 <= j < points.len() && all == manhattan(
                    top + cells[n - 1].0,
                    left + cells[n - 1].1,
                    points[j].0 as int,
                    points[j].1 as int,
                ));
            } else {
                let (i, j) = choose|i: int, j: int|
                    0 <= i < n - 1 && 0 <= j < points.len() && footprint_distance(
                        cells,
                        top,
                        left,
                        points,
                        n - 1,
                    ) == manhattan(
                        top + (#[trigger] cells[i]).0,
                        left + cells[i].1,
                        (#[trigger] points[j]).0 as int,
                        points[j].1 as int,
                    );
                assert(0 <= i < n && 0 <= j < points.len() && all == manhattan(
                    top + cells[i].0,
                    left + cells[i].1,
                    points[j].0 as int,
                    points[j].1 as int,
                ));
            }
        }
    }
}

/// The distance from `(y, x)` to each of the points fits a `usize`.
pub open spec fn distances_fit(y: int, x: int, points: Seq<(usize, usize)>) -> bool {
    forall|j: int|
        0 <= j < points.len() ==> manhattan(y, x, (#[trigger] points[j]).0 as int, points[j].1 as int)
            <= usize::MAX
}

/// Every filled cell of the piece anchored at `(top, left)` has coordinates
/// that fit a `usize`.
pub open spec fn footprint_fits(cells: Seq<(usize, usize)>, top: int, left: int) -> bool {
    forall|i: int|
        0 <= i < cells.len() ==> top + (#[trigger] cells[i]).0 <= usize::MAX && left + cells[i].1
            <= usize::MAX
}

/// The distance from each filled cell of the piece anchored at
/// `(top, left)` to each of the points fits a `usize`.
pub open spec fn footprint_distances_fit(
    cells: Seq<(usize, usize)>,
    top: int,
    left: int,
    points: Seq<(usize, usize)>,
) -> bool {
    forall|i: int|
        0 <= i < cells.len() ==> distances_fit(top + (#[trigger] cells[i]).0, left + cells[i].1, points)
}

/// Distance between two points, where it fits a `usize`.
pub fn manhattan_distance(a: (usize, usize), b: (usize, usize)) -> (d: usize)
    requires
        manhattan(a.0 as int, a.1 as int, b.0 as int, b.1 as int) <= usize::MAX,
    ensures
        d == manhattan(a.0 as int, a.1 as int, b.0 as int, b.1 as int),
        within(a) && within(b) ==> d <= 2 * MAX_DIM,
{
    let dy = if a.0 >= b.0 {
        a.0 - b.0
    } else {
        b.0 - a.0
    };
    let dx = if a.1 >= b.1 {
        a.1 - b.1
    } else {
        b.1 - a.1
    };
    dy + dx
}

/// Counts the filled cells of a legal placement that land on empty cells.
pub fn count_gained(board: &Board, piece: &Piece, top_y: usize, left_x: usize) -> (count: usize)
    requires
        board.wf(),
        is_legal(board.grid(), piece.cells@, top_y as int, left_x as int),
    ensures
        count == gained(
            board.grid(),
            piece.cells@,
            top_y as int,
            left_x as int,
            piece.cells@.len() as int,
        ),
        count == Set::new(
            |i: int|
                0 <= i < piece.cells@.len() && lands_on(
                    board.grid(),
                    piece.cells@,
                    top_y as int,
                    left_x as int,
                    i,
                    Owner::Empty,
                ),
        ).len(),
        count <= piece.cells@.len(),
{
    let ghost g = board.grid();
    let ghost cells = piece.cells@;
    proof {
        lemma_gained_counts(g, cells, top_y as int, left_x as int, cells.len() as int);
    }
    let mut count: usize = 0;
    let mut i: usize = 0;
    while i < piece.cells.len()
        invariant
            board.wf(),
            g == board.grid(),
            cells == piece.cells@,
            is_legal(g, cells, top_y as int, left_x as int),
            i <= cells.len(),
            count <= i,
            count == gained(g, cells, top_y as int, left_x as int, i as int),
        decreases cells.len() - i,
    {
        assert(lands_free(g, cells, top_y as int, left_x as int, i as int));
        let (dy, dx) = piece.cells[i];
        if board.cells[top_y + dy][left_x + dx] == Owner::Empty {
            count += 1;
        }
        i += 1;
    }
    count
}

/// Counts the sides of `(y, x)` that touch a cell of `who`.
pub fn count_sides(board: &Board, y: usize, x: usize, who: Owner) -> (count: usize)
    requires
        board.wf(),
        y < board.rows,
        x < board.cols,
    ensures
        count == sides_touching(board.grid(), y as int, x as int, who),
        count <= 4,
{
    let mut count: usize = 0;
    if y + 1 < board.rows && board.cells[y + 1][x] == who {
        count += 1;
    }
    if y > 0 && board.cells[y - 1][x] == who {
        count += 1;
    }
    if x + 1 < board.cols && board.cells[y][x + 1] == who {
        count += 1;
    }
    if x > 0 && board.cells[y][x - 1] == who {
        count += 1;
    }
    count
}

/// Counts, over the filled cells of a legal placement, the sides that touch
/// a cell of `who`. Four times the number of filled cells is to fit the count.
pub fn count_contacts(board: &Board, piece: &Piece, top_y: usize, left_x: usize, who: Owner) -> (count:
    u64)
    requires
        board.wf(),
        4 * piece.cells@.len() <= u64::MAX,
        is_legal(board.grid(), piece.cells@, top_y as int, left_x as int),
    ensures
        count == contacts(
            board.grid(),
            piece.cells@,
            top_y as int,
            left_x as int,
            who,
            piece.cells@.len() as int,
        ),
        count <= 4 * piece.cells@.len(),
{
    let ghost g = board.grid();
    let ghost cells = piece.cells@;
    let mut count: u64 = 0;
    let mut i: usize = 0;
    while i < piece.cells.len()
        invariant
            board.wf(),
            g == board.grid(),
            cells == piece.cells@,
            4 * cells.len() <= u64::MAX,
            is_legal(g, cells, top_y as int, left_x as int),
            i <= cells.len(),
            count <= 4 * i,
            count == contacts(g, cells, top_y as int, left_x as int, who, i as int),
        decreases cells.len() - i,
    {
        assert(lands_free(g, cells, top_y as int, left_x as int, i as int));
        let (dy, dx) = piece.cells[i];
        let sides = count_sides(board, top_y + dy, left_x + dx, who);
        count += sides as u64;
        i += 1;
    }
    count
}

/// Every filled cell of the piece anchored at `(top, left)` has both
/// coordinates within the limit.
pub open spec fn footprint_within(cells: Seq<(usize, usize)>, top: int, left: int) -> bool {
    forall|i: int|
        0 <= i < cells.len() ==> top + (#[trigger] cells[i]).0 <= MAX_DIM && left + cells[i].1
            <= MAX_DIM
}

/// A legal placement on a playable board keeps every filled cell within the limit.
pub proof fn lemma_legal_footprint_within(board: &Board, cells: Seq<(usize, usize)>, top: int, left: int)
    requires
        board.playable(),
        is_legal(board.grid(), cells, top, left),
    ensures
        footprint_within(cells, top, left),
{
    assert forall|i: int| 0 <= i < cells.len() implies top + (#[trigger] cells[i]).0 <= MAX_DIM
        && left + cells[i].1 <= MAX_DIM by {
        assert(lands_free(board.grid(), cells, top, left, i));
    }
}

/// Within the engine's limit every distance fits a `usize`.
pub proof fn lemma_within_fits(
    cells: Seq<(usize, usize)>,
    top: int,
    left: int,
    points: Seq<(usize, usize)>,
)
    requires
        0 <= top,
        0 <= left,
        footprint_within(cells, top, left),
        all_within(points),
    ensures
        footprint_fits(cells, top, left),
        footprint_distances_fit(cells, top, left, points),
{
    assert forall|i: int| 0 <= i < cells.len() implies distances_fit(
        top + (#[trigger] cells[i]).0,
        left + cells[i].1,
        points,
    ) by {
        assert forall|j: int| 0 <= j < points.len() implies manhattan(
            top + cells[i].0,
            left + cells[i].1,
            (#[trigger] points[j]).0 as int,
            points[j].1 as int,
        ) <= usize::MAX by {
            assert(within(points[j]));
        }
    }
}

/// Distance from `(y, x)` to the nearest of `points`; `usize::MAX` when
/// there is none. The distances are to fit a `usize`.
pub fn nearest_distance(y: usize, x: usize, points: &[(usize, usize)]) -> (d: usize)
    requires
        distances_fit(y as int, x as int, points@),
    ensures
        d == nearest(y as int, x as int, points@, points@.len() as int),
        within((y, x)) && all_within(points@) && points@.len() > 0 ==> d <= 2 * MAX_DIM,
        points@.len() == 0 ==> d == usize::MAX,
        forall|j: int|
            0 <= j < points@.len() ==> d <= manhattan(
                y as int,
                x as int,
                (#[trigger] points@[j]).0 as int,
                points@[j].1 as int,
            ),
        points@.len() > 0 ==> exists|j: int|
            0 <= j < points@.len() && d == manhattan(
                y as int,
                x as int,
                (#[trigger] points@[j]).0 as int,
                points@[j].1 as int,
            ),
{
    proof {
        assert forall|j: int| 0 <= j < points@.len() implies nearest(
            y as int,
            x as int,
            points@,
            points@.len() as int,
        ) <= manhattan(y as int, x as int, (#[trigger] points@[j]).0 as int, points@[j].1 as int) by {
            lemma_nearest_is_least(y as int, x as int, points@, points@.len() as int, j);
        }
        lemma_nearest_is_met(y as int, x as int, points@, points@.len() as int);
        if points@.len() > 0 {
            // a distance of `usize::MAX` is met too: by the first point
            assert(manhattan(y as int, x as int, points@[0].0 as int, points@[0].1 as int)
                <= usize::MAX);
        }
    }
    let mut best: usize = usize::MAX;
    let mut j: usize = 0;
    while j < points.len()
        invariant
            distances_fit(y as int, x as int, points@),
            j <= points@.len(),
            best == nearest(y as int, x as int, points@, j as int),
            within((y, x)) && all_within(points@) && j > 0 ==> best <= 2 * MAX_DIM,
            j == 0 ==> best == usize::MAX,
        decreases points@.len() - j,
    {
        assert(manhattan(y as int, x as int, points@[j as int].0 as int, points@[j as int].1 as int)
            <= usize::MAX);
        assert(all_within(points@) ==> within(points@[j as int]));
        let d = manhattan_distance((y, x), points[j]);
        if d < best {
            best = d;
        }
        j += 1;
    }
    best
}

/// Distance from the filled cells of the piece anchored at `(top_y, left_x)`
/// to the nearest of `points`; `usize::MAX` when either is empty. The cells'
/// coordinates and the distances are to fit a `usize`.
pub fn nearest_to_footprint(piece: &Piece, top_y: usize, left_x: usize, points: &[(usize, usize)]) -> (d:
    usize)
    requires
        footprint_fits(piece.cells@, top_y as int, left_x as int),
        footprint_distances_fit(piece.cells@, top_y as int, left_x as int, points@),
    ensures
        d == footprint_distance(
            piece.cells@,
            top_y as int,
            left_x as int,
            points@,
            piece.cells@.len() as int,
        ),
        footprint_within(piece.cells@, top_y as int, left_x as int) && all_within(points@)
            && piece.cells@.len() > 0 && points@.len() > 0 ==> d <= 2 * MAX_DIM,
        piece.cells@.len() == 0 || points@.len() == 0 ==> d == usize::MAX,
        forall|i: int, j: int|
            0 <= i < piece.cells@.len() && 0 <= j < points@.len() ==> d <= manhattan(
                top_y + (#[trigger] piece.cells@[i]).0,
                left_x + piece.cells@[i].1,
                (#[trigger] points@[j]).0 as int,
                points@[j].1 as int,
            ),
        piece.cells@.len() > 0 && points@.len() > 0 ==> exists|i: int, j: int|
            0 <= i < piece.cells@.len() && 0 <= j < points@.len() && d == manhattan(
                top_y + (#[trigger] piece.cells@[i]).0,
                left_x + piece.cells@[i].1,
                (#[trigger] points@[j]).0 as int,
                points@[j].1 as int,
            ),
{
    let ghost cells = piece.cells@;
    proof {
        lemma_footprint_distance_is_met(
            cells,
            top_y as int,
            left_x as int,
            points@,
            cells.len() as int,
        );
        assert forall|i: int, j: int|
            0 <= i < cells.len() && 0 <= j < points@.len() implies footprint_distance(
            cells,
            top_y as int,
            left_x as int,
            points@,
            cells.len() as int,
        ) <= manhattan(
            top_y + (#[trigger] cells[i]).0,
            left_x + cells[i].1,
            (#[trigger] points@[j]).0 as int,
            points@[j].1 as int,
        ) by {
            lemma_footprint_distance_is_least(
                cells,
                top_y as int,
                left_x as int,
                points@,
                cells.len() as int,
                i,
                j,
            );
        }
    }
    proof {
        if cells.len() > 0 && points@.len() > 0 {
            // a distance of `usize::MAX` is met too: by the first cell and point
            assert(distances_fit(top_y + cells[0].0, left_x + cells[0].1, points@));
            assert(manhattan(
                top_y + cells[0].0,
                left_x + cells[0].1,
                points@[0].0 as int,
                points@[0].1 as int,
            ) <= usize::MAX);
        }
    }
    let mut best: usize = usize::MAX;
    let mut i: usize = 0;
    while i < piece.cells.len()
        invariant
            cells == piece.cells@,
            footprint_fits(cells, top_y as int, left_x as int),
            footprint_distances_fit(cells, top_y as int, left_x as int, points@),
            i <= cells.len(),
            best == footprint_distance(cells, top_y as int, left_x as int, points@, i as int),
            footprint_within(cells, top_y as int, left_x as int) && all_within(points@) && i > 0
                && points@.len() > 0 ==> best <= 2 * MAX_DIM,
            i == 0 || points@.len() == 0 ==> best == usize::MAX,
        decreases cells.len() - i,
    {
        let (dy, dx) = piece.cells[i];
        assert(top_y + cells[i as int].0 <= usize::MAX && left_x + cells[i as int].1 <= usize::MAX);
        assert(distances_fit(top_y + cells[i as int].0, left_x + cells[i as int].1, points@));
        assert(footprint_within(cells, top_y as int, left_x as int) ==> top_y + cells[i as int].0
            <= MAX_DIM && left_x + cells[i as int].1 <= MAX_DIM);
        let d = nearest_distance(top_y + dy, left_x + dx, points);
        if d < best {
            best = d;
        }
        i += 1;
    }
    best
}

/// Distance from the filled cells of the piece anchored at `(top_y, left_x)`
/// to `target`; `usize::MAX` when the piece has no cell. The cells'
/// coordinates and the distances are to fit a `usize`.
pub fn distance_to_target(piece: &Piece, top_y: usize, left_x: usize, target: (usize, usize)) -> (d:
    usize)
    requires
        footprint_fits(piece.cells@, top_y as int, left_x as int),
        footprint_distances_fit(piece.cells@, top_y as int, left_x as int, seq![target]),
    ensures
        d == target_distance(
            piece.cells@,
            top_y as int,
            left_x as int,
            target.0 as int,
            target.1 as int,
            piece.cells@.len() as int,
        ),
        footprint_within(piece.cells@, top_y as int, left_x as int) && within(target)
            && piece.cells@.len() > 0 ==> d <= 2 * MAX_DIM,
        piece.cells@.len() == 0 ==> d == usize::MAX,
{
    let ghost cells = piece.cells@;
    let mut best: usize = usize::MAX;
    let mut i: usize = 0;
    while i < piece.cells.len()
        invariant
            cells == piece.cells@,
            footprint_fits(cells, top_y as int, left_x as int),
            footprint_distances_fit(cells, top_y as int, left_x as int, seq![target]),
            i <= cells.len(),
            best == target_distance(
                cells,
                top_y as int,
                left_x as int,
                target.0 as int,
                target.1 as int,
                i as int,
            ),
            footprint_within(cells, top_y as int, left_x as int) && within(target) && i > 0 ==> best
                <= 2 * MAX_DIM,
            i == 0 ==> best == usize::MAX,
        decreases cells.len() - i,
    {
        let (dy, dx) = piece.cells[i];
        assert(top_y + cells[i as int].0 <= usize::MAX && left_x + cells[i as int].1 <= usize::MAX);
        assert(distances_fit(top_y + cells[i as int].0, left_x + cells[i as int].1, seq![target]));
        assert(seq![target][0] == target);
        assert(footprint_within(cells, top_y as int, left_x as int) ==> top_y + cells[i as int].0
            <= MAX_DIM && left_x + cells[i as int].1 <= MAX_DIM);
        let d = manhattan_distance((top_y + dy, left_x + dx), target);
        if d < best {
            best = d;
        }
        i += 1;
    }
    best
}

/// How far the step from `(oy, ox)` to `(y, x)` goes along the direction
/// `(dy, dx)`, rounded towards zero.
pub open spec fn advance(y: int, x: int, oy: int, ox: int, dy: int, dx: int) -> int {
    projection((y - oy) * dy + (x - ox) * dx, dy * dy + dx * dx)
}

/// The largest `advance` among the first `n` filled cells; `i64::MIN` when
/// there is none.
pub open spec fn best_advance(
    cells: Seq<(usize, usize)>,
    top: int,
    left: int,
    oy: int,
    ox: int,
    dy: int,
    dx: int,
    n: int,
) -> int
    decreases n,
{
    if n <= 0 {
        i64::MIN as int
    } else {
        greatest(
            best_advance(cells, top, left, oy, ox, dy, dx, n - 1),
            advance(top + cells[n - 1].0, left + cells[n - 1].1, oy, ox, dy, dx),
        )
    }
}

/// `best_advance` is no smaller than the advance of any filled cell.
pub proof fn lemma_best_advance_is_greatest(
    cells: Seq<(usize, usize)>,
    top: int,
    left: int,
    oy: int,
    ox: int,
    dy: int,
    dx: int,
    n: int,
    i: int,
)
    requires
        0 <= i < n,
    ensures
        best_advance(cells, top, left, oy, ox, dy, dx, n) >= advance(
            top + cells[i].0,
            left + cells[i].1,
            oy,
            ox,
            dy,
            dx,
        ),
    decreases n,
{
    if i < n - 1 {
        lemma_best_advance_is_greatest(cells, top, left, oy, ox, dy, dx, n - 1, i);
    }
}

/// `best_advance` is the advance of one of the filled cells, unless it is
/// `i64::MIN`.
pub proof fn lemma_best_advance_is_met(
    cells: Seq<(usize, usize)>,
    top: int,
    left: int,
    oy: int,
    ox: int,
    dy: int,
    dx: int,
    n: int,
)
    ensures
        best_advance(cells, top, left, oy, ox, dy, dx, n) == i64::MIN || exists|i: int|
            0 <= i < n && best_advance(cells, top, left, oy, ox, dy, dx, n) == advance(
                top + (#[trigger] cells[i]).0,
                left + cells[i].1,
                oy,
                ox,
                dy,
                dx,
            ),
    decreases n,
{
    if n > 0 {
        lemma_best_advance_is_met(cells, top, left, oy, ox, dy, dx, n - 1);
        let all = best_advance(cells, top, left, oy, ox, dy, dx, n);
        let here = advance(top + cells[n - 1].0, left + cells[n - 1].1, oy, ox, dy, dx);
        if all != i64::MIN {
            if all == here {
                assert(0 <= n - 1 < n && all == advance(
                    top + cells[n - 1].0,
                    left + cells[n - 1].1,
                    oy,
                    ox,
                    dy,
                    dx,
                ));
            } else {
                let i = choose|i: int|
                    0 <= i < n - 1 && best_advance(cells, top, left, oy, ox, dy, dx, n - 1)
                        == advance(top + (#[trigger] cells[i]).0, left + cells[i].1, oy, ox, dy, dx);
                assert(0 <= i < n && all == advance(
                    top + cells[i].0,
                    left + cells[i].1,
                    oy,
                    ox,
                    dy,
                    dx,
                ));
            }
        }
    }
}

/// A dot product of bounded coordinates is bounded.
proof fn lemma_dot_bound(a: int, b: int, c: int, d: int, limit: int)
    by (nonlinear_arith)
    requires
        -limit <= a <= limit,
        -limit <= b <= limit,
        -limit <= c <= limit,
        -limit <= d <= limit,
    ensures
        -2 * limit * limit <= a * b + c * d <= 2 * limit * limit,
        -limit * limit <= a * b <= limit * limit,
        -limit * limit <= c * d <= limit * limit,
{
}

/// How far the cell `(y, x)` lies from `origin` along `direction`. All are
/// to be within `MAX_DIM`: the dot product and the squared length that go
/// into `project` are then within `MAX_DOT`.
pub fn advance_of(y: usize, x: usize, origin: (usize, usize), direction: (isize, isize)) -> (a: i64)
    requires
        within((y, x)),
        within(origin),
        -MAX_DIM <= direction.0 <= MAX_DIM,
        -MAX_DIM <= direction.1 <= MAX_DIM,
    ensures
        a == advance(
            y as int,
            x as int,
            origin.0 as int,
            origin.1 as int,
            direction.0 as int,
            direction.1 as int,
        ),
        -MAX_DOT <= a <= MAX_DOT,
{
    let move_y: i64 = y as i64 - origin.0 as i64;
    let move_x: i64 = x as i64 - origin.1 as i64;
    let dir_y: i64 = direction.0 as i64;
    let dir_x: i64 = direction.1 as i64;
    proof {
        lemma_dot_bound(move_y as int, dir_y as int, move_x as int, dir_x as int, MAX_DIM as int);
        lemma_dot_bound(dir_y as int, dir_y as int, dir_x as int, dir_x as int, MAX_DIM as int);
        assert(2 * MAX_DIM * MAX_DIM == MAX_DOT) by (nonlinear_arith);
        assert(dir_y * dir_y >= 0 && dir_x * dir_x >= 0) by (nonlinear_arith);
    }
    let dot: i64 = move_y * dir_y + move_x * dir_x;
    let norm: i64 = dir_y * dir_y + dir_x * dir_x;
    project(dot, norm)
}

/// The largest advance among the filled cells of the piece anchored at
/// `(top_y, left_x)`; `i64::MIN` when the piece has no cell. The limits are
/// those of `advance_of`.
pub fn best_advance_of(
    piece: &Piece,
    top_y: usize,
    left_x: usize,
    origin: (usize, usize),
    direction: (isize, isize),
) -> (best: i64)
    requires
        footprint_within(piece.cells@, top_y as int, left_x as int),
        within(origin),
        -MAX_DIM <= direction.0 <= MAX_DIM,
        -MAX_DIM <= direction.1 <= MAX_DIM,
    ensures
        best == best_advance(
            piece.cells@,
            top_y as int,
            left_x as int,
            origin.0 as int,
            origin.1 as int,
            direction.0 as int,
            direction.1 as int,
            piece.cells@.len() as int,
        ),
        piece.cells@.len() > 0 ==> -MAX_DOT <= best <= MAX_DOT,
        forall|i: int|
            0 <= i < piece.cells@.len() ==> best >= advance(
                top_y + (#[trigger] piece.cells@[i]).0,
                left_x + piece.cells@[i].1,
                origin.0 as int,
                origin.1 as int,
                direction.0 as int,
                direction.1 as int,
            ),
        piece.cells@.len() > 0 ==> exists|i: int|
            0 <= i < piece.cells@.len() && best == advance(
                top_y + (#[trigger] piece.cells@[i]).0,
                left_x + piece.cells@[i].1,
                origin.0 as int,
                origin.1 as int,
                direction.0 as int,
                direction.1 as int,
            ),
{
    let ghost cells = piece.cells@;
    proof {
        lemma_best_advance_is_met(
            cells,
            top_y as int,
            left_x as int,
            origin.0 as int,
            origin.1 as int,
            direction.0 as int,
            direction.1 as int,
            cells.len() as int,
        );
        assert forall|i: int| 0 <= i < cells.len() implies best_advance(
            cells,
            top_y as int,
            left_x as int,
            origin.0 as int,
            origin.1 as int,
            direction.0 as int,
            direction.1 as int,
            cells.len() as int,
        ) >= advance(
            top_y + (#[trigger] cells[i]).0,
            left_x + cells[i].1,
            origin.0 as int,
            origin.1 as int,
            direction.0 as int,
            direction.1 as int,
        ) by {
            lemma_best_advance_is_greatest(
                cells,
                top_y as int,
                left_x as int,
                origin.0 as int,
                origin.1 as int,
                direction.0 as int,
                direction.1 as int,
                cells.len() as int,
                i,
            );
        }
    }
    let mut best: i64 = i64::MIN;
    let mut i: usize = 0;
    while i < piece.cells.len()
        invariant
            cells == piece.cells@,
            footprint_within(cells, top_y as int, left_x as int),
            within(origin),
            -MAX_DIM <= direction.0 <= MAX_DIM,
            -MAX_DIM <= direction.1 <= MAX_DIM,
            i <= cells.len(),
            best == best_advance(
                cells,
                top_y as int,
                left_x as int,
                origin.0 as int,
                origin.1 as int,
                direction.0 as int,
                direction.1 as int,
                i as int,
            ),
            i > 0 ==> -MAX_DOT <= best <= MAX_DOT,
        decreases cells.len() - i,
    {
        let (dy, dx) = piece.cells[i];
        assert(top_y + cells[i as int].0 <= MAX_DIM && left_x + cells[i as int].1 <= MAX_DIM);
        let a = advance_of(top_y + dy, left_x + dx, origin, direction);
        if a > best {
            best = a;
        }
        i += 1;
    }
    best
}

/// `scale` shared out over the distance `d`: the nearer, the larger. Nothing
/// when there is no distance to speak of (`d` is `usize::MAX`).
pub open spec fn closeness(scale: int, d: int) -> int {
    if d >= usize::MAX {
        0
    } else {
        scale / (d + 1)
    }
}

/// By how much the distance to the opponent shrinks, from `before` to
/// `after`. Nothing when either is `usize::MAX`, which stands for no
/// opponent on the board.
pub open spec fn distance_cut(before: int, after: int) -> int {
    if before >= usize::MAX || after >= usize::MAX {
        0
    } else {
        before - after
    }
}

/// The score of a placement while the opponent is far away: getting close
/// comes first, then touching the opponent, then the advance, and territory last.
pub open spec fn rush_score(reach: int, before: int, advance: int, gain: int, touch: int) -> int {
    closeness(1000000, reach) * 100 + distance_cut(before, reach) * 50000 + advance * 1000 + gain
        * 10 + touch * 100000
}

/// The score of a placement once the opponent is near: touching the opponent
/// comes first, then territory, and drifting away from `target` costs.
pub open spec fn block_score(reach: int, target: int, advance: int, gain: int, touch: int) -> int {
    touch * 50000 + closeness(100000, reach) * 50 + gain * 2000 + advance * 500 - target * 100
}

/// The first of `points`, or the corner `(0, 0)` when there is none.
pub open spec fn first_or_corner(points: Seq<(usize, usize)>) -> (usize, usize) {
    if points.len() > 0 {
        points[0]
    } else {
        (0, 0)
    }
}

/// The score of the rush-then-block policy for the piece `cells` anchored at
/// `(top, left)`: higher is better. `before` is the distance between the two
/// territories this turn; above `RUSH_DISTANCE` the placement is scored by
/// `rush_score`, else by `block_score`. The advance is measured from the
/// first cell of `frontier` along `direction`, and `target` is the opponent's
/// cell to stay near.
pub open spec fn rush_then_block_score(
    g: Grid,
    cells: Seq<(usize, usize)>,
    top: int,
    left: int,
    enemies: Seq<(usize, usize)>,
    frontier: Seq<(usize, usize)>,
    direction: (int, int),
    before: int,
    target: (int, int),
) -> int {
    let n = cells.len() as int;
    let origin = first_or_corner(frontier);
    let reach = footprint_distance(cells, top, left, enemies, n);
    let adv = best_advance(
        cells,
        top,
        left,
        origin.0 as int,
        origin.1 as int,
        direction.0,
        direction.1,
        n,
    );
    let gain = gained(g, cells, top, left, n);
    let touch = contacts(g, cells, top, left, Owner::Opponent, n);
    if before > RUSH_DISTANCE {
        rush_score(reach, before, adv, gain, touch)
    } else {
        block_score(reach, target_distance(cells, top, left, target.0, target.1, n), adv, gain, touch)
    }
}

/// The per-turn figures handed to `score_placement` are small enough for its
/// arithmetic.
pub open spec fn turn_figures_fit(
    enemies: Seq<(usize, usize)>,
    frontier: Seq<(usize, usize)>,
    direction: (int, int),
    before: int,
    target: (int, int),
) -> bool {
    &&& all_within(enemies)
    &&& within(first_or_corner(frontier))
    &&& -MAX_DIM <= direction.0 <= MAX_DIM
    &&& -MAX_DIM <= direction.1 <= MAX_DIM
    &&& (before == usize::MAX || 0 <= before <= 2 * MAX_DIM)
    &&& 0 <= target.0 <= MAX_DIM
    &&& 0 <= target.1 <= MAX_DIM
}

/// `scale / (d + 1)`, or 0 when `d` is `usize::MAX`.
fn closeness_of(scale: i64, d: usize) -> (c: i64)
    requires
        0 <= scale <= 1000000,
        d == usize::MAX || d <= 2 * MAX_DIM,
    ensures
        c == closeness(scale as int, d as int),
        0 <= c <= scale,
{
    if d == usize::MAX {
        0
    } else {
        let c = scale / (d as i64 + 1);
        assert(0 <= c <= scale) by (nonlinear_arith)
            requires
                c == (scale as int) / (d as int + 1),
                0 <= scale,
                d >= 0,
        ;
        c
    }
}

impl Game {
    /// Scores a legal placement by the rush-then-block policy; higher is better.
    pub fn score_placement(
        &self,
        board: &Board,
        piece: &Piece,
        top_y: usize,
        left_x: usize,
        enemy_coords: &[(usize, usize)],
        frontier: &[(usize, usize)],
        target_direction: (isize, isize),
        current_min_distance: usize,
        closest_enemy: (usize, usize),
    ) -> (score: i64)
        requires
            board.playable(),
            piece.cells@.len() <= MAX_CELLS,
            is_legal(board.grid(), piece.cells@, top_y as int, left_x as int),
            turn_figures_fit(
                enemy_coords@,
                frontier@,
                (target_direction.0 as int, target_direction.1 as int),
                current_min_distance as int,
                (closest_enemy.0 as int, closest_enemy.1 as int),
            ),
        ensures
            score == rush_then_block_score(
                board.grid(),
                piece.cells@,
                top_y as int,
                left_x as int,
                enemy_coords@,
                frontier@,
                (target_direction.0 as int, target_direction.1 as int),
                current_min_distance as int,
                (closest_enemy.0 as int, closest_enemy.1 as int),
            ),
            -0x40_0000_0000_0000 < score < 0x40_0000_0000_0000,
    {
        proof {
            lemma_legal_footprint_within(board, piece.cells@, top_y as int, left_x as int);
            lemma_within_fits(piece.cells@, top_y as int, left_x as int, enemy_coords@);
            assert(all_within(seq![closest_enemy])) by {
                assert(within(closest_enemy));
            }
            lemma_within_fits(piece.cells@, top_y as int, left_x as int, seq![closest_enemy]);
            let w = choose|w: int| sole_overlap(board.grid(), piece.cells@, top_y as int, left_x as int, w);
            assert(0 <= w < piece.cells@.len());
        }
        let new_territory: i64 = count_gained(board, piece, top_y, left_x) as i64;
        let adjacent_to_enemy: i64 = count_contacts(board, piece, top_y, left_x, Owner::Opponent) as i64;
        let origin: (usize, usize) = if frontier.len() > 0 {
            frontier[0]
        } else {
            (0, 0)
        };
        let best_advance: i64 = best_advance_of(piece, top_y, left_x, origin, target_direction);
        let min_dist_to_enemy: usize = nearest_to_footprint(piece, top_y, left_x, enemy_coords);
        if current_min_distance > RUSH_DISTANCE {
            let distance_reduction: i64 = if current_min_distance == usize::MAX || min_dist_to_enemy
                == usize::MAX {
                0
            } else {
                current_min_distance as i64 - min_dist_to_enemy as i64
            };
            let closeness_score: i64 = closeness_of(1000000, min_dist_to_enemy);
            closeness_score * 100 + distance_reduction * 50000 + best_advance * 1000 + new_territory
                * 10 + adjacent_to_enemy * 100000
        } else {
            let dist_to_target: usize = distance_to_target(piece, top_y, left_x, closest_enemy);
            let closeness_score: i64 = closeness_of(100000, min_dist_to_enemy);
            adjacent_to_enemy * 50000 + closeness_score * 50 + new_territory * 2000 + best_advance
                * 500 - (dist_to_target as i64) * 100
        }
    }
}

} // verus!
