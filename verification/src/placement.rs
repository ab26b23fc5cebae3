//! The rules of placement: when a piece may be put at an anchor, and what
//! the board looks like once it is.

use vstd::prelude::*;
use crate::board::{Board, Grid, Owner, held_by, in_grid};
use crate::game::Game;
use crate::piece::Piece;

verus! {

/// The `i`-th filled cell of a piece anchored at `(top, left)` lands on a
/// cell of `g` that `who` holds.
pub open spec fn lands_on(
    g: Grid,
    cells: Seq<(usize, usize)>,
    top: int,
    left: int,
    i: int,
    who: Owner,
) -> bool {
    held_by(g, top + cells[i].0, left + cells[i].1, who)
}

/// The `i`-th filled cell of a piece anchored at `(top, left)` lands on the
/// board and not on the opponent.
pub open spec fn lands_free(g: Grid, cells: Seq<(usize, usize)>, top: int, left: int, i: int) -> bool {
    &&& in_grid(g, top + cells[i].0, left + cells[i].1)
    &&& g[top + cells[i].0][left + cells[i].1] != Owner::Opponent
}

/// The `i`-th filled cell is the only one that lands on a cell of the mover.
pub open spec fn sole_overlap(g: Grid, cells: Seq<(usize, usize)>, top: int, left: int, i: int) -> bool {
    &&& 0 <= i < cells.len()
    &&& lands_on(g, cells, top, left, i, Owner::Me)
    &&& forall|j: int|
        0 <= j < cells.len() && j != i ==> !#[trigger] lands_on(g, cells, top, left, j, Owner::Me)
}

/// A placement is legal when every filled cell lands on the board, none lands
/// on the opponent, and exactly one lands on a cell of the mover.
pub open spec fn is_legal(g: Grid, cells: Seq<(usize, usize)>, top: int, left: int) -> bool {
    &&& forall|i: int| 0 <= i < cells.len() ==> #[trigger] lands_free(g, cells, top, left, i)
    &&& exists|i: int| sole_overlap(g, cells, top, left, i)
}

impl Game {
    /// Decides whether `piece` may be put with its origin at `(top_y, left_x)`.
    pub fn is_valid_placement(&self, board: &Board, piece: &Piece, top_y: usize, left_x: usize) -> (ok: bool)
        requires
            board.wf(),
        ensures
            ok == is_legal(board.grid(), piece.cells@, top_y as int, left_x as int),
    {
        let ghost g = board.grid();
        let ghost cells = piece.cells@;
        let ghost top = top_y as int;
        let ghost left = left_x as int;
        if top_y >= board.rows || left_x >= board.cols {
            proof {
                if cells.len() > 0 {
                    assert(!lands_free(g, cells, top, left, 0));
                }
            }
            return false;
        }
        let mut overlap_count: usize = 0;
        let ghost mut witness: int = 0;
        let mut i: usize = 0;
        while i < piece.cells.len()
            invariant
                board.wf(),
                g == board.grid(),
                cells == piece.cells@,
                top == top_y as int,
                left == left_x as int,
                top_y < board.rows,
                left_x < board.cols,
                i <= cells.len(),
                overlap_count <= 1,
                forall|k: int| 0 <= k < i ==> #[trigger] lands_free(g, cells, top, left, k),
                overlap_count == 0 ==> forall|k: int|
                    0 <= k < i ==> !#[trigger] lands_on(g, cells, top, left, k, Owner::Me),
                overlap_count == 1 ==> 0 <= witness < i && lands_on(
                    g,
                    cells,
                    top,
                    left,
                    witness,
                    Owner::Me,
                ) && forall|k: int|
                    0 <= k < i && k != witness ==> !#[trigger] lands_on(
                        g,
                        cells,
                        top,
                        left,
                        k,
                        Owner::Me,
                    ),
            decreases cells.len() - i,
        {
            let (dy, dx) = piece.cells[i];
            if dy >= board.rows - top_y || dx >= board.cols - left_x {
                assert(!lands_free(g, cells, top, left, i as int));
                return false;
            }
            let y = top_y + dy;
            let x = left_x + dx;
            match board.cells[y][x] {
                Owner::Opponent => {
                    assert(!lands_free(g, cells, top, left, i as int));
                    return false;
                },
                Owner::Me => {
                    if overlap_count == 1 {
                        proof {
                            assert(lands_on(g, cells, top, left, i as int, Owner::Me));
                            assert forall|w: int| !sole_overlap(g, cells, top, left, w) by {
                                if sole_overlap(g, cells, top, left, w) {
                                    if w == i as int {
                                        assert(!lands_on(g, cells, top, left, witness, Owner::Me));
                                    } else {
                                        assert(!lands_on(g, cells, top, left, i as int, Owner::Me));
                                    }
                                }
                            }
                        }
                        return false;
                    }
                    overlap_count = 1;
                    proof {
                        witness = i as int;
                    }
                },
                Owner::Empty => {},
            }
            i += 1;
        }
        proof {
            if overlap_count == 1 {
                assert(sole_overlap(g, cells, top, left, witness));
            } else {
                assert forall|w: int| !sole_overlap(g, cells, top, left, w) by {}
            }
        }
        overlap_count == 1
    }
}

/// Some filled cell of the piece anchored at `(top, left)` lands on `(y, x)`.
pub open spec fn covered(cells: Seq<(usize, usize)>, top: int, left: int, y: int, x: int) -> bool {
    exists|i: int| 0 <= i < cells.len() && top + (#[trigger] cells[i]).0 == y && left + cells[i].1 == x
}

/// The board as it would be with the piece put down at `(top, left)`: every
/// cell the piece covers is the mover's, whatever it was, and every other
/// cell is as before.
pub open spec fn placed(g: Grid, cells: Seq<(usize, usize)>, top: int, left: int) -> Grid {
    Seq::new(
        g.len(),
        |y: int|
            Seq::new(
                g[y].len(),
                |x: int|
                    if covered(cells, top, left, y, x) {
                        Owner::Me
                    } else {
                        g[y][x]
                    },
            ),
    )
}

/// Putting down one more filled cell changes at most the cell it lands on,
/// which becomes the mover's.
pub proof fn lemma_placed_push(
    g: Grid,
    cells: Seq<(usize, usize)>,
    extra: (usize, usize),
    top: int,
    left: int,
    y: int,
    x: int,
)
    requires
        in_grid(g, y, x),
    ensures
        in_grid(placed(g, cells, top, left), y, x),
        in_grid(placed(g, cells.push(extra), top, left), y, x),
        (y == top + extra.0 && x == left + extra.1) ==> placed(g, cells.push(extra), top, left)[y][x]
            == Owner::Me,
        !(y == top + extra.0 && x == left + extra.1) ==> placed(g, cells.push(extra), top, left)[y][x]
            == placed(g, cells, top, left)[y][x],
{
    let more = cells.push(extra);
    if y == top + extra.0 && x == left + extra.1 {
        assert(top + more[cells.len() as int].0 == y && left + more[cells.len() as int].1 == x);
    } else {
        if covered(cells, top, left, y, x) {
            let i = choose|i: int|
                0 <= i < cells.len() && top + (#[trigger] cells[i]).0 == y && left + cells[i].1 == x;
            assert(more[i] == cells[i]);
        }
        if covered(more, top, left, y, x) {
            let i = choose|i: int|
                0 <= i < more.len() && top + (#[trigger] more[i]).0 == y && left + more[i].1 == x;
            assert(i < cells.len());
            assert(more[i] == cells[i]);
        }
    }
}

impl Board {
    /// Builds the board as it would be with `piece` put down at
    /// `(top_y, left_x)`; filled cells that fall off the board are left out.
    pub fn with_piece(&self, piece: &Piece, top_y: usize, left_x: usize) -> (after: Board)
        requires
            self.wf(),
        ensures
            after.wf(),
            after.rows == self.rows,
            after.cols == self.cols,
            after.grid() == placed(self.grid(), piece.cells@, top_y as int, left_x as int),
    {
        let ghost g = self.grid();
        let ghost pcs = piece.cells@;
        let mut cells: Vec<Vec<Owner>> = Vec::new();
        let mut y: usize = 0;
        while y < self.rows
            invariant
                self.wf(),
                y <= self.rows,
                cells@.len() == y,
                forall|r: int| 0 <= r < y ==> (#[trigger] cells@[r])@ == self.cells@[r]@,
            decreases self.rows - y,
        {
            let mut row: Vec<Owner> = Vec::new();
            let mut x: usize = 0;
            while x < self.cols
                invariant
                    self.wf(),
                    y < self.rows,
                    x <= self.cols,
                    row@.len() == x,
                    forall|c: int| 0 <= c < x ==> row@[c] == self.cells@[y as int]@[c],
                decreases self.cols - x,
            {
                row.push(self.cells[y][x]);
                x += 1;
            }
            assert(row@ =~= self.cells@[y as int]@);
            cells.push(row);
            y += 1;
        }
        let mut i: usize = 0;
        proof {
            assert forall|r: int, c: int| in_grid(g, r, c) implies !covered(
                pcs.take(0),
                top_y as int,
                left_x as int,
                r,
                c,
            ) by {}
        }
        while i < piece.cells.len()
            invariant
                self.wf(),
                g == self.grid(),
                pcs == piece.cells@,
                i <= pcs.len(),
                cells@.len() == self.rows,
                forall|r: int| 0 <= r < self.rows ==> (#[trigger] cells@[r])@.len() == self.cols,
                forall|r: int, c: int|
                    in_grid(g, r, c) ==> cells@[r]@[c] == (if covered(
                        pcs.take(i as int),
                        top_y as int,
                        left_x as int,
                        r,
                        c,
                    ) {
                        Owner::Me
                    } else {
                        g[r][c]
                    }),
            decreases pcs.len() - i,
        {
            let (dy, dx) = piece.cells[i];
            let ghost before = cells@;
            let on_board = top_y < self.rows && dy < self.rows - top_y && left_x < self.cols && dx
                < self.cols - left_x;
            if on_board {
                cells[top_y + dy][left_x + dx] = Owner::Me;
            }
            proof {
                assert(pcs.take(i as int + 1) =~= pcs.take(i as int).push(pcs[i as int]));
                assert forall|r: int, c: int| in_grid(g, r, c) implies cells@[r]@[c] == (if covered(
                    pcs.take(i as int + 1),
                    top_y as int,
                    left_x as int,
                    r,
                    c,
                ) {
                    Owner::Me
                } else {
                    g[r][c]
                }) by {
                    lemma_placed_push(
                        g,
                        pcs.take(i as int),
                        pcs[i as int],
                        top_y as int,
                        left_x as int,
                        r,
                        c,
                    );
                    if on_board && r != top_y + dy {
                        assert(cells@[r] == before[r]);
                    }
                }
                assert forall|r: int| 0 <= r < self.rows implies (#[trigger] cells@[r])@.len()
                    == self.cols by {
                    if on_board && r != top_y + dy {
                        assert(cells@[r] == before[r]);
                    }
                    assert(before[r]@.len() == self.cols);
                }
            }
            i += 1;
        }
        let after = Board { rows: self.rows, cols: self.cols, cells };
        proof {
            assert(pcs.take(pcs.len() as int) =~= pcs);
            let hyp = placed(g, pcs, top_y as int, left_x as int);
            assert forall|r: int| 0 <= r < hyp.len() implies after.grid()[r] =~= hyp[r] by {
                assert(after.cells@[r]@.len() == self.cols);
                assert forall|c: int| 0 <= c < hyp[r].len() implies after.grid()[r][c] == hyp[r][c] by {
                    assert(in_grid(g, r, c));
                }
            }
            assert(after.grid() =~= hyp);
        }
        after
    }
}

} // verus!
