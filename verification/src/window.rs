//! The scan window: which anchors a search tries, all of them or, on large
//! boards, those around the mover's territory.

use vstd::prelude::*;
use crate::board::{Board, Owner, MAX_DIM};
use crate::piece::Piece;
use crate::placement::{is_legal, lands_on, sole_overlap};
use crate::turn::{held_cells, lemma_held_cells};

verus! {

/// Boards with more cells than this are scanned only around the mover's
/// territory, unless the caller sets another limit.
pub const WINDOW_AREA: usize = 2000;

/// The least margin kept around the mover's territory when the scan is narrowed.
pub const WINDOW_MARGIN: usize = 15;

/// The smallest box of cells that holds some points; all four sides belong to it.
pub struct Extent {
    pub top: usize,
    pub bottom: usize,
    pub left: usize,
    pub right: usize,
}

/// The anchors that a scan tries: rows from `min_y` up to `max_y`, columns
/// from `min_x` up to `max_x`, both upper ends left out.
pub struct Window {
    pub min_y: usize,
    pub max_y: usize,
    pub min_x: usize,
    pub max_x: usize,
}

/// The smaller of two sizes.
pub open spec fn lower(a: usize, b: usize) -> usize {
    if a <= b {
        a
    } else {
        b
    }
}

/// The larger of two sizes.
pub open spec fn higher(a: usize, b: usize) -> usize {
    if a >= b {
        a
    } else {
        b
    }
}

/// The smallest box that holds the first `n` points, for `n` at least 1.
pub open spec fn extent_of(points: Seq<(usize, usize)>, n: int) -> Extent
    decreases n,
{
    if n <= 1 {
        Extent { top: points[0].0, bottom: points[0].0, left: points[0].1, right: points[0].1 }
    } else {
        let rest = extent_of(points, n - 1);
        Extent {
            top: lower(rest.top, points[n - 1].0),
            bottom: higher(rest.bottom, points[n - 1].0),
            left: lower(rest.left, points[n - 1].1),
            right: higher(rest.right, points[n - 1].1),
        }
    }
}

/// The box holds each of the points it was made of, and is no wider than
/// they are.
pub proof fn lemma_extent_holds(points: Seq<(usize, usize)>, n: int, i: int)
    requires
        0 <= i < n <= points.len(),
    ensures
        extent_of(points, n).top <= points[i].0 <= extent_of(points, n).bottom,
        extent_of(points, n).left <= points[i].1 <= extent_of(points, n).right,
    decreases n,
{
    if n > 1 && i < n - 1 {
        lemma_extent_holds(points, n - 1, i);
    }
}

/// The margin kept on each side of the mover's territory, for a piece that
/// is `size` cells long that way: twice the size, and at least `WINDOW_MARGIN`.
pub open spec fn margin_for(size: usize) -> int {
    if 2 * size > WINDOW_MARGIN {
        2 * size
    } else {
        WINDOW_MARGIN as int
    }
}

/// The scan is narrowed: the board has more than `window_area` cells and
/// the mover holds some of them.
pub open spec fn narrowed(board: &Board, window_area: usize) -> bool {
    board.rows * board.cols > window_area && held_cells(board.grid(), Owner::Me).len() > 0
}

/// Where the scan starts along one axis: the margin before `first`, and
/// not before 0.
pub open spec fn window_start(first: usize, size: usize) -> usize {
    if first > margin_for(size) {
        (first - margin_for(size)) as usize
    } else {
        0
    }
}

/// Where the scan ends along one axis: the margin after `last`, and not
/// after the last anchor at which a piece of `size` fits in `length`.
pub open spec fn window_end(last: usize, size: usize, length: usize) -> usize {
    if last + margin_for(size) + 1 < length - size + 1 {
        (last + margin_for(size) + 1) as usize
    } else {
        (length - size + 1) as usize
    }
}

/// The anchors to try for a piece of `height` by `width` that is no larger
/// than the board: all at which the piece's box fits on the board or, when
/// the scan is narrowed, those of them within the margin around the mover's
/// territory.
pub open spec fn scan_window(board: &Board, height: usize, width: usize, window_area: usize) -> Window {
    if narrowed(board, window_area) {
        let mine = held_cells(board.grid(), Owner::Me);
        let held = extent_of(mine, mine.len() as int);
        Window {
            min_y: window_start(held.top, height),
            max_y: window_end(held.bottom, height, board.rows),
            min_x: window_start(held.left, width),
            max_x: window_end(held.right, width, board.cols),
        }
    } else {
        Window {
            min_y: 0,
            max_y: (board.rows - height + 1) as usize,
            min_x: 0,
            max_x: (board.cols - width + 1) as usize,
        }
    }
}

/// `(top, left)` is one of the anchors of the window.
pub open spec fn in_window(w: Window, top: int, left: int) -> bool {
    w.min_y <= top < w.max_y && w.min_x <= left < w.max_x
}

/// Finds the smallest box that holds all of `points`.
pub fn bounding_box(points: &[(usize, usize)]) -> (held: Extent)
    requires
        points@.len() > 0,
    ensures
        held == extent_of(points@, points@.len() as int),
{
    let first = points[0];
    let mut held = Extent { top: first.0, bottom: first.0, left: first.1, right: first.1 };
    let mut i: usize = 1;
    while i < points.len()
        invariant
            1 <= i <= points@.len(),
            held == extent_of(points@, i as int),
        decreases points@.len() - i,
    {
        let (y, x) = points[i];
        if y < held.top {
            held.top = y;
        }
        if y > held.bottom {
            held.bottom = y;
        }
        if x < held.left {
            held.left = x;
        }
        if x > held.right {
            held.right = x;
        }
        i += 1;
    }
    held
}

/// A playable board has at most `MAX_DIM` times `MAX_DIM` cells.
pub proof fn lemma_area_bound(rows: int, cols: int)
    by (nonlinear_arith)
    requires
        0 <= rows <= MAX_DIM,
        0 <= cols <= MAX_DIM,
    ensures
        0 <= rows * cols <= MAX_DIM * MAX_DIM,
        MAX_DIM * MAX_DIM == 0x100_0000_0000,
{
}

/// Where the scan starts along one axis.
fn start_of(first: usize, size: usize) -> (start: usize)
    requires
        size <= MAX_DIM,
    ensures
        start == window_start(first, size),
{
    let margin = if 2 * size > WINDOW_MARGIN {
        2 * size
    } else {
        WINDOW_MARGIN
    };
    if first > margin {
        first - margin
    } else {
        0
    }
}

/// Where the scan ends along one axis.
fn end_of(last: usize, size: usize, length: usize) -> (end: usize)
    requires
        size <= length <= MAX_DIM,
        last <= MAX_DIM,
    ensures
        end == window_end(last, size, length),
{
    let margin = if 2 * size > WINDOW_MARGIN {
        2 * size
    } else {
        WINDOW_MARGIN
    };
    let far = last + margin + 1;
    let fit = length - size + 1;
    if far < fit {
        far
    } else {
        fit
    }
}

/// Works out the anchors to try for `piece` on `board`, given the list of
/// the mover's cells. The board is to be playable: the area, and a cell's
/// coordinate with the margin added, then fit the machine's numbers.
pub fn search_window(board: &Board, piece: &Piece, my_coords: &[(usize, usize)], window_area: usize) -> (w:
    Window)
    requires
        board.playable(),
        piece.height <= board.rows,
        piece.width <= board.cols,
        my_coords@ == held_cells(board.grid(), Owner::Me),
    ensures
        w == scan_window(board, piece.height, piece.width, window_area),
        w.max_y <= board.rows - piece.height + 1,
        w.max_x <= board.cols - piece.width + 1,
{
    proof {
        lemma_area_bound(board.rows as int, board.cols as int);
    }
    let area: u64 = (board.rows as u64) * (board.cols as u64);
    if area > window_area as u64 && my_coords.len() > 0 {
        let held = bounding_box(my_coords);
        proof {
            let n = my_coords@.len() as int;
            let mine = my_coords@;
            assert(held.bottom <= MAX_DIM && held.right <= MAX_DIM) by {
                lemma_extent_reached(mine, n);
                let (i, j) = choose|i: int, j: int|
                    0 <= i < n && 0 <= j < n && extent_of(mine, n).bottom == mine[i].0 && extent_of(
                        mine,
                        n,
                    ).right == mine[j].1;
                lemma_held_cells(board, Owner::Me, mine[i]);
                lemma_held_cells(board, Owner::Me, mine[j]);
                assert(mine.contains(mine[i]) && mine.contains(mine[j]));
            }
        }
        Window {
            min_y: start_of(held.top, piece.height),
            max_y: end_of(held.bottom, piece.height, board.rows),
            min_x: start_of(held.left, piece.width),
            max_x: end_of(held.right, piece.width, board.cols),
        }
    } else {
        Window {
            min_y: 0,
            max_y: board.rows - piece.height + 1,
            min_x: 0,
            max_x: board.cols - piece.width + 1,
        }
    }
}

/// The far sides of the box are the coordinates of some of its points.
pub proof fn lemma_extent_reached(points: Seq<(usize, usize)>, n: int)
    requires
        0 < n <= points.len(),
    ensures
        exists|i: int, j: int|
            0 <= i < n && 0 <= j < n && extent_of(points, n).bottom == (#[trigger] points[i]).0
                && extent_of(points, n).right == (#[trigger] points[j]).1,
    decreases n,
{
    if n > 1 {
        lemma_extent_reached(points, n - 1);
        let (i, j) = choose|i: int, j: int|
            0 <= i < n - 1 && 0 <= j < n - 1 && extent_of(points, n - 1).bottom == (
            #[trigger] points[i]).0 && extent_of(points, n - 1).right == (#[trigger] points[j]).1;
        let i2 = if points[n - 1].0 >= extent_of(points, n - 1).bottom {
            n - 1
        } else {
            i
        };
        let j2 = if points[n - 1].1 >= extent_of(points, n - 1).right {
            n - 1
        } else {
            j
        };
        assert(0 <= i2 < n && 0 <= j2 < n && extent_of(points, n).bottom == points[i2].0
            && extent_of(points, n).right == points[j2].1);
    } else {
        assert(extent_of(points, n).bottom == points[0].0 && extent_of(points, n).right
            == points[0].1);
    }
}

/// Narrowing the scan loses no legal placement of a well-formed piece: a
/// legal anchor at which the piece's box fits on the board is an anchor of
/// the window, whatever the area limit.
pub proof fn lemma_window_holds_legal(
    board: &Board,
    piece: &Piece,
    window_area: usize,
    top: int,
    left: int,
)
    requires
        board.wf(),
        piece.wf(),
        0 <= top,
        0 <= left,
        top + piece.height <= board.rows,
        left + piece.width <= board.cols,
        is_legal(board.grid(), piece.cells@, top, left),
    ensures
        in_window(scan_window(board, piece.height, piece.width, window_area), top, left),
{
    let g = board.grid();
    let cells = piece.cells@;
    if narrowed(board, window_area) {
        let mine = held_cells(g, Owner::Me);
        let n = mine.len() as int;
        let i = choose|i: int| sole_overlap(g, cells, top, left, i);
        assert(lands_on(g, cells, top, left, i, Owner::Me));
        let c = ((top + cells[i].0) as usize, (left + cells[i].1) as usize);
        lemma_held_cells(board, Owner::Me, c);
        let k = choose|k: int| 0 <= k < mine.len() && mine[k] == c;
        lemma_extent_holds(mine, n, k);
        assert(cells[i].0 < piece.height && cells[i].1 < piece.width);
    }
}

} // verus!
