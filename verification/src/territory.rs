//! Territory: the empty cells that a side can reach from its own cells, the
//! flood fill that counts them, and what holds of the count.

use vstd::prelude::*;
use vstd::set_lib::{lemma_len_subset, lemma_set_disjoint_lens};
use crate::board::{Board, Grid, Owner, held_by, in_grid, rectangular, spec_opposite};
use crate::piece::Piece;
use crate::placement::{lemma_placed_push, placed};

verus! {

/// `who` can walk over `(y, x)`: the cell is its own or empty.
pub open spec fn passable(g: Grid, who: Owner, y: int, x: int) -> bool {
    held_by(g, y, x, who) || held_by(g, y, x, Owner::Empty)
}

/// The two cells share a side.
pub open spec fn adjacent(a: (int, int), b: (int, int)) -> bool {
    ||| (a.0 == b.0 && (a.1 == b.1 + 1 || a.1 + 1 == b.1))
    ||| (a.1 == b.1 && (a.0 == b.0 + 1 || a.0 + 1 == b.0))
}

/// `path` starts on a cell of `who` and goes on, side to side, over cells
/// that are `who`'s or empty.
pub open spec fn is_walk(g: Grid, who: Owner, path: Seq<(int, int)>) -> bool {
    &&& path.len() > 0
    &&& held_by(g, path[0].0, path[0].1, who)
    &&& forall|k: int|
        0 < k < path.len() ==> passable(g, who, (#[trigger] path[k]).0, path[k].1) && adjacent(
            path[k - 1],
            path[k],
        )
}

/// Some walk of `who` ends on `(y, x)`.
pub open spec fn reachable(g: Grid, who: Owner, y: int, x: int) -> bool {
    exists|path: Seq<(int, int)>| is_walk(g, who, path) && path.last() == (y, x)
}

/// The empty cells that `who` can reach from its territory.
pub open spec fn reachable_empty(g: Grid, who: Owner) -> Set<(int, int)> {
    Set::new(|c: (int, int)| held_by(g, c.0, c.1, Owner::Empty) && reachable(g, who, c.0, c.1))
}

/// How many empty cells `who` can reach from its territory on `g`.
pub open spec fn reach(g: Grid, who: Owner) -> nat {
    reachable_empty(g, who).len()
}

/// How many empty cells `side` could reach on `g` if the piece `cells` were
/// put down at `(top, left)` for the mover.
pub open spec fn reach_for(side: Owner, g: Grid, cells: Seq<(usize, usize)>, top: int, left: int) -> nat {
    reach(placed(g, cells, top, left), side)
}

/// All the cells of the first `r` rows of `g`.
pub open spec fn cells_in_rows(g: Grid, r: int) -> Set<(int, int)> {
    Set::new(|c: (int, int)| c.0 < r && in_grid(g, c.0, c.1))
}

/// The first `n` cells of row `y`.
pub open spec fn cells_in_row(y: int, n: int) -> Set<(int, int)> {
    Set::new(|c: (int, int)| c.0 == y && 0 <= c.1 < n)
}

/// All the cells of `g`.
pub open spec fn all_cells(g: Grid) -> Set<(int, int)> {
    cells_in_rows(g, g.len() as int)
}

/// A row of `n` cells is a finite set of `n` cells.
proof fn lemma_cells_in_row(y: int, n: int)
    requires
        0 <= n,
    ensures
        cells_in_row(y, n).finite(),
        cells_in_row(y, n).len() == n,
    decreases n,
{
    if n == 0 {
        assert(cells_in_row(y, n) =~= Set::empty());
    } else {
        lemma_cells_in_row(y, n - 1);
        assert(cells_in_row(y, n) =~= cells_in_row(y, n - 1).insert((y, n - 1)));
    }
}

/// `r` rows of `cols` cells are a finite set of `r * cols` cells.
proof fn lemma_cells_in_rows(g: Grid, cols: int, r: int)
    requires
        rectangular(g, cols),
        0 <= r <= g.len(),
    ensures
        cells_in_rows(g, r).finite(),
        cells_in_rows(g, r).len() == r * cols,
    decreases r,
{
    if r == 0 {
        assert(cells_in_rows(g, r) =~= Set::empty());
        assert(r * cols == 0) by (nonlinear_arith)
            requires
                r == 0,
        ;
    } else {
        lemma_cells_in_rows(g, cols, r - 1);
        assert(g[r - 1].len() == cols);
        lemma_cells_in_row(r - 1, cols);
        let above = cells_in_rows(g, r - 1);
        let row = cells_in_row(r - 1, cols);
        assert(cells_in_rows(g, r) =~= above + row);
        assert(above.disjoint(row));
        lemma_set_disjoint_lens(above, row);
        assert(r * cols == (r - 1) * cols + cols) by (nonlinear_arith);
    }
}

/// A board of `rows` by `cols` cells has `rows * cols` cells, and any set of
/// its cells has at most as many.
pub proof fn lemma_board_cells(board: &Board, some: Set<(int, int)>)
    requires
        board.wf(),
        some.subset_of(all_cells(board.grid())),
    ensures
        all_cells(board.grid()).finite(),
        all_cells(board.grid()).len() == board.rows * board.cols,
        some.finite(),
        some.len() <= board.rows * board.cols,
{
    lemma_cells_in_rows(board.grid(), board.cols as int, board.rows as int);
    lemma_len_subset(some, all_cells(board.grid()));
}

/// A cell of `who` is reached by the walk that stands on it.
pub proof fn lemma_reach_own(g: Grid, who: Owner, y: int, x: int)
    requires
        held_by(g, y, x, who),
    ensures
        reachable(g, who, y, x),
{
    let path = seq![(y, x)];
    assert(is_walk(g, who, path) && path.last() == (y, x));
}

/// A walk can go on to a passable cell next to its end.
pub proof fn lemma_reach_step(g: Grid, who: Owner, y: int, x: int, ny: int, nx: int)
    requires
        reachable(g, who, y, x),
        passable(g, who, ny, nx),
        adjacent((y, x), (ny, nx)),
    ensures
        reachable(g, who, ny, nx),
{
    let path = choose|path: Seq<(int, int)>| is_walk(g, who, path) && path.last() == (y, x);
    let longer = path.push((ny, nx));
    assert forall|k: int| 0 < k < longer.len() implies passable(
        g,
        who,
        (#[trigger] longer[k]).0,
        longer[k].1,
    ) && adjacent(longer[k - 1], longer[k]) by {
        if k < path.len() {
            assert(longer[k] == path[k]);
            assert(longer[k - 1] == path[k - 1]);
        }
    }
    assert(is_walk(g, who, longer) && longer.last() == (ny, nx));
}

/// `marks` holds every cell of `who` and, with a cell, each passable cell
/// next to it.
pub open spec fn closed_under_steps(g: Grid, who: Owner, marks: Set<(int, int)>) -> bool {
    &&& forall|y: int, x: int| held_by(g, y, x, who) ==> marks.contains((y, x))
    &&& forall|c: (int, int), n: (int, int)|
        marks.contains(c) && adjacent(c, n) && passable(g, who, n.0, n.1) ==> marks.contains(n)
}

/// A set that is closed under steps holds every cell of every walk.
pub proof fn lemma_closed_holds_walk(g: Grid, who: Owner, marks: Set<(int, int)>, path: Seq<(int, int)>, k: int)
    requires
        closed_under_steps(g, who, marks),
        is_walk(g, who, path),
        0 <= k < path.len(),
    ensures
        marks.contains(path[k]),
    decreases k,
{
    if k > 0 {
        lemma_closed_holds_walk(g, who, marks, path, k - 1);
        assert(passable(g, who, path[k].0, path[k].1) && adjacent(path[k - 1], path[k]));
    }
}

/// A set that is closed under steps holds every reachable cell.
pub proof fn lemma_closed_holds_reachable(g: Grid, who: Owner, marks: Set<(int, int)>, y: int, x: int)
    requires
        closed_under_steps(g, who, marks),
        reachable(g, who, y, x),
    ensures
        marks.contains((y, x)),
{
    let path = choose|path: Seq<(int, int)>| is_walk(g, who, path) && path.last() == (y, x);
    lemma_closed_holds_walk(g, who, marks, path, path.len() - 1);
}

/// The cell `(y, x)` carries a mark.
spec fn marked(v: Seq<Vec<bool>>, y: int, x: int) -> bool {
    0 <= y < v.len() && 0 <= x < v[y]@.len() && v[y]@[x]
}

/// The marks lie over the board, cell for cell.
spec fn same_shape(g: Grid, v: Seq<Vec<bool>>) -> bool {
    &&& v.len() == g.len()
    &&& forall|y: int| 0 <= y < v.len() ==> (#[trigger] v[y])@.len() == g[y].len()
}

/// The marked cells that are empty.
spec fn counted_cells(g: Grid, v: Seq<Vec<bool>>) -> Set<(int, int)> {
    Set::new(|c: (int, int)| marked(v, c.0, c.1) && held_by(g, c.0, c.1, Owner::Empty))
}

/// The cells of the board without a mark.
spec fn unmarked_cells(g: Grid, v: Seq<Vec<bool>>) -> Set<(int, int)> {
    Set::new(|c: (int, int)| in_grid(g, c.0, c.1) && !marked(v, c.0, c.1))
}

/// The cell `(y, x)` stands in the queue.
spec fn queued(queue: Seq<(usize, usize)>, y: int, x: int) -> bool {
    exists|k: int| 0 <= k < queue.len() && (#[trigger] queue[k]).0 == y && queue[k].1 == x
}

/// What holds all through a flood fill: only reachable cells are marked,
/// the queue holds exactly the marked cells, and `count` is the number of
/// marked empty cells.
spec fn filling(
    g: Grid,
    who: Owner,
    v: Seq<Vec<bool>>,
    queue: Seq<(usize, usize)>,
    count: int,
) -> bool {
    &&& same_shape(g, v)
    &&& forall|y: int, x: int| #[trigger]
        marked(v, y, x) ==> passable(g, who, y, x) && reachable(g, who, y, x) && queued(queue, y, x)
    &&& forall|k: int|
        0 <= k < queue.len() ==> marked(v, (#[trigger] queue[k]).0 as int, queue[k].1 as int)
    &&& count == counted_cells(g, v).len()
    &&& count <= queue.len()
}

/// Every passable cell next to `(y, x)` is marked.
spec fn expanded(g: Grid, who: Owner, v: Seq<Vec<bool>>, y: int, x: int) -> bool {
    &&& passable(g, who, y + 1, x) ==> marked(v, y + 1, x)
    &&& passable(g, who, y - 1, x) ==> marked(v, y - 1, x)
    &&& passable(g, who, y, x + 1) ==> marked(v, y, x + 1)
    &&& passable(g, who, y, x - 1) ==> marked(v, y, x - 1)
}

/// `later` keeps every mark of `earlier`.
spec fn marks_kept(earlier: Seq<Vec<bool>>, later: Seq<Vec<bool>>) -> bool {
    forall|y: int, x: int| #[trigger] marked(earlier, y, x) ==> marked(later, y, x)
}

/// `later` starts with `earlier`.
spec fn queue_kept(earlier: Seq<(usize, usize)>, later: Seq<(usize, usize)>) -> bool {
    &&& earlier.len() <= later.len()
    &&& forall|k: int| 0 <= k < earlier.len() ==> #[trigger] later[k] == earlier[k]
}

/// Marks the unmarked, reachable cell `(y, x)`, queues it, and counts it if
/// it is empty.
fn mark(
    board: &Board,
    who: Owner,
    y: usize,
    x: usize,
    visited: &mut Vec<Vec<bool>>,
    queue: &mut Vec<(usize, usize)>,
    count: &mut usize,
)
    requires
        board.wf(),
        filling(board.grid(), who, old(visited)@, old(queue)@, *old(count) as int),
        y < board.rows,
        x < board.cols,
        !marked(old(visited)@, y as int, x as int),
        passable(board.grid(), who, y as int, x as int),
        reachable(board.grid(), who, y as int, x as int),
    ensures
        filling(board.grid(), who, final(visited)@, final(queue)@, *final(count) as int),
        marks_kept(old(visited)@, final(visited)@),
        queue_kept(old(queue)@, final(queue)@),
        marked(final(visited)@, y as int, x as int),
        forall|r: int, c: int|
            marked(final(visited)@, r, c) ==> marked(old(visited)@, r, c) || (r == y && c == x),
        unmarked_cells(board.grid(), final(visited)@).len() + final(queue)@.len() == unmarked_cells(
            board.grid(),
            old(visited)@,
        ).len() + old(queue)@.len(),
{
    let ghost g = board.grid();
    let ghost v0 = visited@;
    let ghost q0 = queue@;
    visited[y][x] = true;
    queue.push((y, x));
    let ghost v1 = visited@;
    let ghost q1 = queue@;
    proof {
        assert forall|r: int, c: int| marked(v1, r, c) <==> marked(v0, r, c) || (r == y && c == x) by {
            if 0 <= r < v0.len() {
                if r != y {
                    assert(v1[r] == v0[r]);
                }
            }
        }
        assert(same_shape(g, v1)) by {
            assert forall|r: int| 0 <= r < v1.len() implies (#[trigger] v1[r])@.len() == g[r].len() by {
                if r != y {
                    assert(v1[r] == v0[r]);
                }
                assert(v0[r]@.len() == g[r].len());
            }
        }
        assert(q1[q0.len() as int] == (y, x));
        assert forall|r: int, c: int| #[trigger] marked(v1, r, c) implies passable(g, who, r, c)
            && reachable(g, who, r, c) && queued(q1, r, c) by {
            if r == y && c == x {
                assert(queued(q1, r, c));
            } else {
                assert(marked(v0, r, c));
                let k = choose|k: int| 0 <= k < q0.len() && (#[trigger] q0[k]).0 == r && q0[k].1 == c;
                assert(q1[k] == q0[k]);
            }
        }
        assert forall|k: int| 0 <= k < q1.len() implies marked(
            v1,
            (#[trigger] q1[k]).0 as int,
            q1[k].1 as int,
        ) by {
            if k < q0.len() {
                assert(q1[k] == q0[k]);
                assert(marked(v0, q0[k].0 as int, q0[k].1 as int));
            }
        }
        lemma_board_cells(board, unmarked_cells(g, v0));
        lemma_board_cells(board, counted_cells(g, v0));
        assert(unmarked_cells(g, v1) =~= unmarked_cells(g, v0).remove((y as int, x as int)));
        assert(unmarked_cells(g, v0).contains((y as int, x as int)));
        if held_by(g, y as int, x as int, Owner::Empty) {
            assert(counted_cells(g, v1) =~= counted_cells(g, v0).insert((y as int, x as int)));
            assert(!counted_cells(g, v0).contains((y as int, x as int)));
        } else {
            assert(counted_cells(g, v1) =~= counted_cells(g, v0));
        }
    }
    if board.cells[y][x] == Owner::Empty {
        assert(*count < queue.len());
        *count = *count + 1;
    }
}

/// A fresh sheet of marks over the board, none set.
fn blank_marks(board: &Board) -> (visited: Vec<Vec<bool>>)
    requires
        board.wf(),
    ensures
        same_shape(board.grid(), visited@),
        forall|y: int, x: int| !marked(visited@, y, x),
{
    let mut visited: Vec<Vec<bool>> = Vec::new();
    let mut y: usize = 0;
    while y < board.rows
        invariant
            board.wf(),
            y <= board.rows,
            visited@.len() == y,
            forall|r: int| 0 <= r < y ==> (#[trigger] visited@[r])@.len() == board.cols,
            forall|r: int, c: int| !marked(visited@, r, c),
        decreases board.rows - y,
    {
        let mut row: Vec<bool> = Vec::new();
        let mut x: usize = 0;
        while x < board.cols
            invariant
                x <= board.cols,
                row@.len() == x,
                forall|c: int| 0 <= c < x ==> !row@[c],
            decreases board.cols - x,
        {
            row.push(false);
            x += 1;
        }
        let ghost before = visited@;
        visited.push(row);
        proof {
            assert forall|r: int, c: int| !marked(visited@, r, c) by {
                if 0 <= r < before.len() {
                    assert(visited@[r] == before[r]);
                    assert(!marked(before, r, c));
                }
            }
        }
        y += 1;
    }
    visited
}

/// Looks at the cell `(y, x)` next to the marked cell `from`: if it is
/// passable and not yet marked, marks it.
fn visit(
    board: &Board,
    who: Owner,
    y: usize,
    x: usize,
    visited: &mut Vec<Vec<bool>>,
    queue: &mut Vec<(usize, usize)>,
    count: &mut usize,
    Ghost(from): Ghost<(int, int)>,
)
    requires
        board.wf(),
        filling(board.grid(), who, old(visited)@, old(queue)@, *old(count) as int),
        y < board.rows,
        x < board.cols,
        marked(old(visited)@, from.0, from.1),
        adjacent(from, (y as int, x as int)),
    ensures
        filling(board.grid(), who, final(visited)@, final(queue)@, *final(count) as int),
        marks_kept(old(visited)@, final(visited)@),
        queue_kept(old(queue)@, final(queue)@),
        passable(board.grid(), who, y as int, x as int) ==> marked(final(visited)@, y as int, x as int),
        unmarked_cells(board.grid(), final(visited)@).len() + final(queue)@.len() == unmarked_cells(
            board.grid(),
            old(visited)@,
        ).len() + old(queue)@.len(),
{
    if !visited[y][x] {
        let owner = board.cells[y][x];
        if owner == who || owner == Owner::Empty {
            proof {
                lemma_reach_step(board.grid(), who, from.0, from.1, y as int, x as int);
            }
            mark(board, who, y, x, visited, queue, count);
        }
    }
}

/// Every cell of `who` is marked.
spec fn seeded(g: Grid, who: Owner, v: Seq<Vec<bool>>) -> bool {
    forall|r: int, c: int| #[trigger] held_by(g, r, c, who) ==> marked(v, r, c)
}

/// Marks and queues every cell of `who`.
fn seed(
    board: &Board,
    who: Owner,
    visited: &mut Vec<Vec<bool>>,
    queue: &mut Vec<(usize, usize)>,
    count: &mut usize,
)
    requires
        board.wf(),
        who != Owner::Empty,
        same_shape(board.grid(), old(visited)@),
        forall|y: int, x: int| !marked(old(visited)@, y, x),
        old(queue)@.len() == 0,
        *old(count) == 0,
    ensures
        filling(board.grid(), who, final(visited)@, final(queue)@, *final(count) as int),
        seeded(board.grid(), who, final(visited)@),
{
    let ghost g = board.grid();
    proof {
        assert(counted_cells(g, visited@) =~= Set::empty());
    }
    let mut y: usize = 0;
    while y < board.rows
        invariant
            board.wf(),
            g == board.grid(),
            who != Owner::Empty,
            y <= board.rows,
            filling(g, who, visited@, queue@, *count as int),
            forall|r: int, c: int| #[trigger] marked(visited@, r, c) ==> r < y,
            forall|r: int, c: int| r < y && #[trigger] held_by(g, r, c, who) ==> marked(visited@, r, c),
        decreases board.rows - y,
    {
        let mut x: usize = 0;
        while x < board.cols
            invariant
                board.wf(),
                g == board.grid(),
                who != Owner::Empty,
                y < board.rows,
                x <= board.cols,
                filling(g, who, visited@, queue@, *count as int),
                forall|r: int, c: int| #[trigger]
                    marked(visited@, r, c) ==> r < y || (r == y && c < x),
                forall|r: int, c: int|
                    (r < y || (r == y && c < x)) && #[trigger] held_by(g, r, c, who) ==> marked(
                        visited@,
                        r,
                        c,
                    ),
            decreases board.cols - x,
        {
            if board.cells[y][x] == who {
                proof {
                    lemma_reach_own(g, who, y as int, x as int);
                }
                mark(board, who, y, x, visited, queue, count);
            }
            x += 1;
        }
        y += 1;
    }
}

/// Visits the four cells next to the marked cell `(cy, cx)`.
fn expand(
    board: &Board,
    who: Owner,
    cy: usize,
    cx: usize,
    visited: &mut Vec<Vec<bool>>,
    queue: &mut Vec<(usize, usize)>,
    count: &mut usize,
)
    requires
        board.wf(),
        filling(board.grid(), who, old(visited)@, old(queue)@, *old(count) as int),
        marked(old(visited)@, cy as int, cx as int),
    ensures
        filling(board.grid(), who, final(visited)@, final(queue)@, *final(count) as int),
        marks_kept(old(visited)@, final(visited)@),
        queue_kept(old(queue)@, final(queue)@),
        expanded(board.grid(), who, final(visited)@, cy as int, cx as int),
        unmarked_cells(board.grid(), final(visited)@).len() + final(queue)@.len() == unmarked_cells(
            board.grid(),
            old(visited)@,
        ).len() + old(queue)@.len(),
{
    let ghost from = (cy as int, cx as int);
    let ghost v0 = visited@;
    if cy + 1 < board.rows {
        visit(board, who, cy + 1, cx, visited, queue, count, Ghost(from));
    }
    let ghost v1 = visited@;
    let ghost q1 = queue@;
    if cy > 0 {
        visit(board, who, cy - 1, cx, visited, queue, count, Ghost(from));
    }
    let ghost v2 = visited@;
    let ghost q2 = queue@;
    if cx + 1 < board.cols {
        visit(board, who, cy, cx + 1, visited, queue, count, Ghost(from));
    }
    let ghost v3 = visited@;
    let ghost q3 = queue@;
    if cx > 0 {
        visit(board, who, cy, cx - 1, visited, queue, count, Ghost(from));
    }
    proof {
        let v4 = visited@;
        assert(marks_kept(v1, v4));
        assert(marks_kept(v2, v4));
        assert(marks_kept(v3, v4));
        assert(marks_kept(v0, v4));
        assert(queue_kept(q1, q2) && queue_kept(q2, q3) && queue_kept(q3, queue@));
    }
}

/// The marked cells, as a set.
spec fn marked_cells(v: Seq<Vec<bool>>) -> Set<(int, int)> {
    Set::new(|c: (int, int)| marked(v, c.0, c.1))
}

/// Once every queued cell is expanded, the marked cells are closed under steps.
proof fn lemma_marks_closed(g: Grid, who: Owner, v: Seq<Vec<bool>>, queue: Seq<(usize, usize)>)
    requires
        seeded(g, who, v),
        forall|y: int, x: int| #[trigger] marked(v, y, x) ==> queued(queue, y, x),
        forall|k: int|
            0 <= k < queue.len() ==> expanded(
                g,
                who,
                v,
                (#[trigger] queue[k]).0 as int,
                queue[k].1 as int,
            ),
    ensures
        closed_under_steps(g, who, marked_cells(v)),
{
    let marks = marked_cells(v);
    assert forall|y: int, x: int| held_by(g, y, x, who) implies marks.contains((y, x)) by {
        assert(marked(v, y, x));
    }
    assert forall|c: (int, int), n: (int, int)|
        marks.contains(c) && adjacent(c, n) && passable(g, who, n.0, n.1) implies marks.contains(n) by {
        assert(marked(v, c.0, c.1));
        assert(queued(queue, c.0, c.1));
        let k = choose|k: int|
            0 <= k < queue.len() && (#[trigger] queue[k]).0 == c.0 && queue[k].1 == c.1;
        assert(expanded(g, who, v, c.0, c.1));
        assert(marked(v, n.0, n.1));
    }
}

/// Once every queued cell is expanded, the marked empty cells are exactly
/// the reachable ones.
proof fn lemma_fill_done(
    board: &Board,
    who: Owner,
    v: Seq<Vec<bool>>,
    queue: Seq<(usize, usize)>,
    count: int,
)
    requires
        board.wf(),
        filling(board.grid(), who, v, queue, count),
        seeded(board.grid(), who, v),
        forall|k: int|
            0 <= k < queue.len() ==> expanded(
                board.grid(),
                who,
                v,
                (#[trigger] queue[k]).0 as int,
                queue[k].1 as int,
            ),
    ensures
        count == reachable_empty(board.grid(), who).len(),
        count <= board.rows * board.cols,
{
    let g = board.grid();
    lemma_marks_closed(g, who, v, queue);
    assert forall|c: (int, int)| reachable_empty(g, who).contains(c) implies counted_cells(
        g,
        v,
    ).contains(c) by {
        lemma_closed_holds_reachable(g, who, marked_cells(v), c.0, c.1);
    }
    assert forall|c: (int, int)| counted_cells(g, v).contains(c) implies reachable_empty(
        g,
        who,
    ).contains(c) by {
        assert(marked(v, c.0, c.1));
    }
    assert(counted_cells(g, v) =~= reachable_empty(g, who));
    lemma_board_cells(board, counted_cells(g, v));
}

/// Counts the empty cells that `who` can reach from its territory, going
/// from cell to cell over sides, through its own and through empty cells.
pub fn count_reachable_empty(board: &Board, who: Owner) -> (count: usize)
    requires
        board.wf(),
        who != Owner::Empty,
    ensures
        count == reach(board.grid(), who),
        count <= board.rows * board.cols,
{
    let ghost g = board.grid();
    let mut visited = blank_marks(board);
    let mut queue: Vec<(usize, usize)> = Vec::new();
    let mut count: usize = 0;
    seed(board, who, &mut visited, &mut queue, &mut count);
    let mut head: usize = 0;
    while head < queue.len()
        invariant
            board.wf(),
            g == board.grid(),
            head <= queue@.len(),
            filling(g, who, visited@, queue@, count as int),
            seeded(g, who, visited@),
            forall|k: int|
                0 <= k < head ==> expanded(
                    g,
                    who,
                    visited@,
                    (#[trigger] queue@[k]).0 as int,
                    queue@[k].1 as int,
                ),
        decreases unmarked_cells(g, visited@).len() + queue@.len() - head,
    {
        let (cy, cx) = queue[head];
        let ghost v0 = visited@;
        let ghost q0 = queue@;
        assert(marked(v0, q0[head as int].0 as int, q0[head as int].1 as int));
        expand(board, who, cy, cx, &mut visited, &mut queue, &mut count);
        proof {
            let v1 = visited@;
            assert forall|k: int| 0 <= k < head + 1 implies expanded(
                g,
                who,
                v1,
                (#[trigger] queue@[k]).0 as int,
                queue@[k].1 as int,
            ) by {
                assert(queue@[k] == q0[k]);
                if k < head {
                    assert(expanded(g, who, v0, q0[k].0 as int, q0[k].1 as int));
                }
            }
        }
        head += 1;
    }
    proof {
        lemma_fill_done(board, who, visited@, queue@, count as int);
    }
    count
}

/// Counts the empty cells that `side` could reach if `piece` were put down
/// at `(top_y, left_x)` for the mover. For the opponent that is never more
/// than it reaches on the board as it is.
pub fn reachable_empty_for(side: Owner, board: &Board, piece: &Piece, top_y: usize, left_x: usize) -> (count:
    usize)
    requires
        board.wf(),
        side != Owner::Empty,
    ensures
        count == reach_for(side, board.grid(), piece.cells@, top_y as int, left_x as int),
        count <= board.rows * board.cols,
        side == Owner::Opponent ==> count <= reach(board.grid(), Owner::Opponent),
{
    proof {
        lemma_placement_never_helps_opponent(
            board.grid(),
            piece.cells@,
            top_y as int,
            left_x as int,
        );
    }
    let after = board.with_piece(piece, top_y, left_x);
    count_reachable_empty(&after, side)
}

/// The board with the two players' cells exchanged.
pub open spec fn swapped(g: Grid) -> Grid {
    Seq::new(g.len(), |y: int| Seq::new(g[y].len(), |x: int| spec_opposite(g[y][x])))
}

impl Board {
    /// Builds the board with the two players' cells exchanged. Each side
    /// reaches on it as many empty cells as the other side reaches on this board.
    pub fn swapped_sides(&self) -> (other: Board)
        requires
            self.wf(),
        ensures
            other.wf(),
            other.rows == self.rows,
            other.cols == self.cols,
            other.grid() == swapped(self.grid()),
            reach(other.grid(), Owner::Opponent) == reach(self.grid(), Owner::Me),
            reach(other.grid(), Owner::Me) == reach(self.grid(), Owner::Opponent),
    {
        proof {
            lemma_reach_symmetry(self.grid(), Owner::Me);
            lemma_reach_symmetry(self.grid(), Owner::Opponent);
        }
        let mut cells: Vec<Vec<Owner>> = Vec::new();
        let mut y: usize = 0;
        while y < self.rows
            invariant
                self.wf(),
                y <= self.rows,
                cells@.len() == y,
                forall|r: int| 0 <= r < y ==> (#[trigger] cells@[r])@.len() == self.cols,
                forall|r: int, c: int|
                    0 <= r < y && 0 <= c < self.cols ==> cells@[r]@[c] == spec_opposite(
                        self.cells@[r]@[c],
                    ),
            decreases self.rows - y,
        {
            let mut row: Vec<Owner> = Vec::new();
            let mut x: usize = 0;
            while x < self.cols
                invariant
                    self.wf(),
                    y < self.rows,
                    x <= self.cols,
                    row@.len() == x,
                    forall|c: int| 0 <= c < x ==> row@[c] == spec_opposite(self.cells@[y as int]@[c]),
                decreases self.cols - x,
            {
                row.push(self.cells[y][x].opposite());
                x += 1;
            }
            cells.push(row);
            y += 1;
        }
        let other = Board { rows: self.rows, cols: self.cols, cells };
        proof {
            let want = swapped(self.grid());
            assert forall|r: int| 0 <= r < want.len() implies other.grid()[r] =~= want[r] by {
                assert(other.cells@[r]@.len() == self.cols);
            }
            assert(other.grid() =~= want);
        }
        other
    }
}

/// A walk of one side is a walk of the other side once the sides are exchanged.
proof fn lemma_walk_swapped(g: Grid, who: Owner, path: Seq<(int, int)>)
    requires
        is_walk(g, who, path),
    ensures
        is_walk(swapped(g), spec_opposite(who), path),
{
    let h = swapped(g);
    let other = spec_opposite(who);
    assert forall|k: int| 0 < k < path.len() implies passable(h, other, (#[trigger] path[k]).0, path[k].1)
        && adjacent(path[k - 1], path[k]) by {
        assert(passable(g, who, path[k].0, path[k].1));
    }
}

/// What one side reaches, the other side reaches once the sides are exchanged.
proof fn lemma_reach_swapped(g: Grid, who: Owner, c: (int, int))
    requires
        reachable_empty(g, who).contains(c),
    ensures
        reachable_empty(swapped(g), spec_opposite(who)).contains(c),
{
    let path = choose|path: Seq<(int, int)>| is_walk(g, who, path) && path.last() == c;
    lemma_walk_swapped(g, who, path);
}

/// Exchanging the players' cells exchanges what they can reach: the empty
/// cells that `who` reaches on `g` are those that the other side reaches on
/// the board with the sides exchanged.
pub proof fn lemma_reach_symmetry(g: Grid, who: Owner)
    ensures
        reachable_empty(g, who) == reachable_empty(swapped(g), spec_opposite(who)),
        reach(g, who) == reach(swapped(g), spec_opposite(who)),
{
    let h = swapped(g);
    let other = spec_opposite(who);
    assert forall|r: int| 0 <= r < g.len() implies swapped(h)[r] =~= g[r] by {}
    assert(swapped(h) =~= g);
    assert(spec_opposite(other) == who);
    assert forall|c: (int, int)| reachable_empty(g, who).contains(c) <==> reachable_empty(
        h,
        other,
    ).contains(c) by {
        if reachable_empty(g, who).contains(c) {
            lemma_reach_swapped(g, who, c);
        }
        if reachable_empty(h, other).contains(c) {
            lemma_reach_swapped(h, other, c);
        }
    }
    assert(reachable_empty(g, who) =~= reachable_empty(h, other));
}

/// The cells of the first `r` rows are finitely many, whatever the rows' lengths.
proof fn lemma_cells_finite(g: Grid, r: int)
    requires
        0 <= r <= g.len(),
    ensures
        cells_in_rows(g, r).finite(),
    decreases r,
{
    if r == 0 {
        assert(cells_in_rows(g, r) =~= Set::empty());
    } else {
        lemma_cells_finite(g, r - 1);
        lemma_cells_in_row(r - 1, g[r - 1].len() as int);
        assert(cells_in_rows(g, r) =~= cells_in_rows(g, r - 1) + cells_in_row(
            r - 1,
            g[r - 1].len() as int,
        ));
    }
}

/// The empty cells that a side reaches are finitely many.
pub proof fn lemma_reachable_finite(g: Grid, who: Owner)
    ensures
        reachable_empty(g, who).finite(),
{
    lemma_cells_finite(g, g.len() as int);
    lemma_len_subset(reachable_empty(g, who), all_cells(g));
}

/// One more filled cell never opens ground to the opponent: with it, the
/// opponent reaches no empty cell that it did not reach without it.
pub proof fn lemma_extra_cell_opponent(
    g: Grid,
    cells: Seq<(usize, usize)>,
    extra: (usize, usize),
    top: int,
    left: int,
)
    ensures
        reachable_empty(placed(g, cells.push(extra), top, left), Owner::Opponent).subset_of(
            reachable_empty(placed(g, cells, top, left), Owner::Opponent),
        ),
        reach_for(Owner::Opponent, g, cells.push(extra), top, left) <= reach_for(
            Owner::Opponent,
            g,
            cells,
            top,
            left,
        ),
{
    let before = placed(g, cells, top, left);
    let after = placed(g, cells.push(extra), top, left);
    let who = Owner::Opponent;
    assert forall|c: (int, int)| reachable_empty(after, who).contains(c) implies reachable_empty(
        before,
        who,
    ).contains(c) by {
        let path = choose|path: Seq<(int, int)>| is_walk(after, who, path) && path.last() == c;
        assert forall|k: int| 0 <= k < path.len() implies passable(
            before,
            who,
            (#[trigger] path[k]).0,
            path[k].1,
        ) && before[path[k].0][path[k].1] == after[path[k].0][path[k].1] by {
            if k > 0 {
                assert(passable(after, who, path[k].0, path[k].1));
            }
            lemma_placed_push(g, cells, extra, top, left, path[k].0, path[k].1);
        }
        assert(passable(before, who, path[0].0, path[0].1));
        assert(is_walk(before, who, path));
        assert(passable(before, who, path[path.len() - 1].0, path[path.len() - 1].1));
    }
    lemma_reachable_finite(before, who);
    lemma_len_subset(reachable_empty(after, who), reachable_empty(before, who));
}

/// One more filled cell never takes ground from the mover, unless the cell
/// itself was empty ground that the mover reached: with any other cell, the
/// mover still reaches every empty cell that it reached without it.
pub proof fn lemma_extra_cell_mover(
    g: Grid,
    cells: Seq<(usize, usize)>,
    extra: (usize, usize),
    top: int,
    left: int,
)
    requires
        !reachable_empty(placed(g, cells, top, left), Owner::Me).contains(
            (top + extra.0, left + extra.1),
        ),
    ensures
        reachable_empty(placed(g, cells, top, left), Owner::Me).subset_of(
            reachable_empty(placed(g, cells.push(extra), top, left), Owner::Me),
        ),
        reach_for(Owner::Me, g, cells, top, left) <= reach_for(
            Owner::Me,
            g,
            cells.push(extra),
            top,
            left,
        ),
{
    let before = placed(g, cells, top, left);
    let after = placed(g, cells.push(extra), top, left);
    let who = Owner::Me;
    assert forall|c: (int, int)| reachable_empty(before, who).contains(c) implies reachable_empty(
        after,
        who,
    ).contains(c) by {
        let path = choose|path: Seq<(int, int)>| is_walk(before, who, path) && path.last() == c;
        assert forall|k: int| 0 <= k < path.len() implies passable(
            after,
            who,
            (#[trigger] path[k]).0,
            path[k].1,
        ) && (before[path[k].0][path[k].1] == who ==> after[path[k].0][path[k].1] == who) by {
            if k > 0 {
                assert(passable(before, who, path[k].0, path[k].1));
            }
            lemma_placed_push(g, cells, extra, top, left, path[k].0, path[k].1);
        }
        assert(passable(after, who, path[0].0, path[0].1));
        assert(is_walk(after, who, path));
        lemma_placed_push(g, cells, extra, top, left, c.0, c.1);
    }
    lemma_reachable_finite(after, who);
    lemma_len_subset(reachable_empty(before, who), reachable_empty(after, who));
}

/// A filled cell put on empty ground that the mover reached takes that one
/// cell out of the mover's reach, and no other.
pub proof fn lemma_extra_cell_on_reached_ground(
    g: Grid,
    cells: Seq<(usize, usize)>,
    extra: (usize, usize),
    top: int,
    left: int,
)
    requires
        reachable_empty(placed(g, cells, top, left), Owner::Me).contains(
            (top + extra.0, left + extra.1),
        ),
    ensures
        reachable_empty(placed(g, cells.push(extra), top, left), Owner::Me) == reachable_empty(
            placed(g, cells, top, left),
            Owner::Me,
        ).remove((top + extra.0, left + extra.1)),
        reach_for(Owner::Me, g, cells.push(extra), top, left) == reach_for(
            Owner::Me,
            g,
            cells,
            top,
            left,
        ) - 1,
{
    let before = placed(g, cells, top, left);
    let after = placed(g, cells.push(extra), top, left);
    let who = Owner::Me;
    let e = (top + extra.0, left + extra.1);
    let reached = Set::new(|c: (int, int)| reachable(before, who, c.0, c.1));
    assert(closed_under_steps(after, who, reached)) by {
        assert forall|y: int, x: int| held_by(after, y, x, who) implies reached.contains((y, x)) by {
            lemma_placed_push(g, cells, extra, top, left, y, x);
            if (y, x) != e {
                lemma_reach_own(before, who, y, x);
            }
        }
        assert forall|c: (int, int), n: (int, int)|
            reached.contains(c) && adjacent(c, n) && passable(after, who, n.0, n.1) implies reached.contains(
            n,
        ) by {
            lemma_placed_push(g, cells, extra, top, left, n.0, n.1);
            if n != e {
                lemma_reach_step(before, who, c.0, c.1, n.0, n.1);
            }
        }
    }
    assert forall|c: (int, int)| reachable_empty(after, who).contains(c) implies reachable_empty(
        before,
        who,
    ).remove(e).contains(c) by {
        lemma_closed_holds_reachable(after, who, reached, c.0, c.1);
        lemma_placed_push(g, cells, extra, top, left, c.0, c.1);
    }
    assert forall|c: (int, int)| reachable_empty(before, who).remove(e).contains(c) implies reachable_empty(
        after,
        who,
    ).contains(c) by {
        let path = choose|path: Seq<(int, int)>| is_walk(before, who, path) && path.last() == c;
        assert forall|k: int| 0 <= k < path.len() implies passable(
            after,
            who,
            (#[trigger] path[k]).0,
            path[k].1,
        ) && (before[path[k].0][path[k].1] == who ==> after[path[k].0][path[k].1] == who) by {
            if k > 0 {
                assert(passable(before, who, path[k].0, path[k].1));
            }
            lemma_placed_push(g, cells, extra, top, left, path[k].0, path[k].1);
        }
        assert(passable(after, who, path[0].0, path[0].1));
        assert(is_walk(after, who, path));
        lemma_placed_push(g, cells, extra, top, left, c.0, c.1);
    }
    assert(reachable_empty(after, who) =~= reachable_empty(before, who).remove(e));
    lemma_reachable_finite(before, who);
}

/// No placement opens ground to the opponent: with the piece put down, the
/// opponent reaches no empty cell that it did not reach before.
pub proof fn lemma_placement_never_helps_opponent(
    g: Grid,
    cells: Seq<(usize, usize)>,
    top: int,
    left: int,
)
    ensures
        reachable_empty(placed(g, cells, top, left), Owner::Opponent).subset_of(
            reachable_empty(g, Owner::Opponent),
        ),
        reach_for(Owner::Opponent, g, cells, top, left) <= reach(g, Owner::Opponent),
    decreases cells.len(),
{
    if cells.len() == 0 {
        assert forall|y: int| 0 <= y < g.len() implies placed(g, cells, top, left)[y] =~= g[y] by {}
        assert(placed(g, cells, top, left) =~= g);
    } else {
        let fewer = cells.drop_last();
        assert(fewer.push(cells.last()) =~= cells);
        lemma_placement_never_helps_opponent(g, fewer, top, left);
        lemma_extra_cell_opponent(g, fewer, cells.last(), top, left);
    }
    lemma_reachable_finite(g, Owner::Opponent);
    lemma_len_subset(
        reachable_empty(placed(g, cells, top, left), Owner::Opponent),
        reachable_empty(g, Owner::Opponent),
    );
}

} // verus!
