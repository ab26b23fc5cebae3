//! The search: every anchor of the scan window is tried, the legal ones are
//! scored by the policy, and the first of the best is chosen.

use vstd::prelude::*;
use crate::board::{Board, Grid, Owner, MAX_DIM};
use crate::game::Game;
use crate::piece::{Piece, MAX_CELLS};
use crate::placement::{is_legal, lands_on, sole_overlap};
use crate::scoring::{
    all_within,
    count_gained,
    gained,
    lemma_gained_counts,
    rush_then_block_score,
    turn_figures_fit,
    within,
};
use crate::territory::{
    count_reachable_empty,
    lemma_placement_never_helps_opponent,
    reach,
    reach_for,
};
use crate::turn::{
    cells_held_by,
    centroid,
    closest_pair,
    frontier_of,
    held_cells,
    lemma_held_cells,
    lemma_within_pairs_fit,
    pair_before,
};
use crate::window::{
    Window,
    in_window,
    lemma_area_bound,
    lemma_window_holds_legal,
    scan_window,
    search_window,
};

verus! {

/// How placements are scored. With either policy a higher score is better.
#[derive(Clone, Copy, Debug, PartialEq, Eq, Structural)]
pub enum Policy {
    /// Take reachable space from the opponent first, keep the mover's own
    /// reachable space second, gain cells third.
    SpaceStarving,
    /// Close in on the opponent while it is far, then stay in touch with it.
    RushThenBlock,
}

/// Weight of an empty cell that the opponent can no longer reach.
pub const DENIAL_WEIGHT: i64 = 100;

/// Weight of an empty cell that the mover can still reach.
pub const OWN_SPACE_WEIGHT: i64 = 10;

/// Weight of a cell gained by the placement itself.
pub const GAIN_WEIGHT: i64 = 1;

/// The score of the space-starving policy, given how many empty cells the
/// opponent reached `before` the move: the reachable space taken from the
/// opponent counts most, the mover's own reachable space ten times less, and
/// the cells gained ten times less again.
pub open spec fn space_starving_score_from(
    before: int,
    g: Grid,
    cells: Seq<(usize, usize)>,
    top: int,
    left: int,
) -> int {
    DENIAL_WEIGHT * (before - reach_for(Owner::Opponent, g, cells, top, left)) + OWN_SPACE_WEIGHT
        * reach_for(Owner::Me, g, cells, top, left) + GAIN_WEIGHT * gained(
        g,
        cells,
        top,
        left,
        cells.len() as int,
    )
}

/// The score of the space-starving policy on the board `g`.
pub open spec fn space_starving_score(g: Grid, cells: Seq<(usize, usize)>, top: int, left: int) -> int {
    space_starving_score_from(reach(g, Owner::Opponent) as int, g, cells, top, left)
}

/// The direction the rush-then-block policy heads in: from the mover's cell
/// nearest to the opponent towards the opponent's cell nearest to the mover
/// or, with no opponent on the board, from the middle of the mover's cells
/// towards the middle of the board.
pub open spec fn rush_direction(board: &Board) -> (int, int) {
    let mine = held_cells(board.grid(), Owner::Me);
    let theirs = held_cells(board.grid(), Owner::Opponent);
    if theirs.len() > 0 {
        let pair = closest_pair(mine, theirs);
        (pair.1.0 - pair.0.0, pair.1.1 - pair.0.1)
    } else {
        let middle = centroid(mine);
        (board.rows as int / 2 - middle.0, board.cols as int / 2 - middle.1)
    }
}

/// The score of the rush-then-block policy on `board`, with the per-turn
/// figures taken from the board itself.
pub open spec fn rush_score_on(board: &Board, cells: Seq<(usize, usize)>, top: int, left: int) -> int {
    let g = board.grid();
    let mine = held_cells(g, Owner::Me);
    let theirs = held_cells(g, Owner::Opponent);
    let pair = closest_pair(mine, theirs);
    rush_then_block_score(
        g,
        cells,
        top,
        left,
        theirs,
        frontier_of(g, mine, mine.len() as int),
        rush_direction(board),
        pair.2 as int,
        (pair.1.0 as int, pair.1.1 as int),
    )
}

/// The score that `policy` gives to the piece `cells` anchored at `(top, left)`.
pub open spec fn policy_score(
    policy: Policy,
    board: &Board,
    cells: Seq<(usize, usize)>,
    top: int,
    left: int,
) -> int {
    match policy {
        Policy::SpaceStarving => space_starving_score(board.grid(), cells, top, left),
        Policy::RushThenBlock => rush_score_on(board, cells, top, left),
    }
}

/// What is worked out once per turn, before any placement is scored.
pub struct TurnFigures {
    /// The opponent's cells.
    pub enemy_coords: Vec<(usize, usize)>,
    /// The mover's cells that touch an empty cell.
    pub frontier: Vec<(usize, usize)>,
    /// The direction to head in.
    pub target_direction: (isize, isize),
    /// The distance between the two territories; `usize::MAX` with no opponent.
    pub min_distance: usize,
    /// The opponent's cell nearest to the mover.
    pub closest_enemy: (usize, usize),
    /// How many empty cells the opponent can reach before the move.
    pub opponent_reach: usize,
}

impl TurnFigures {
    /// The figures are those of `board`.
    pub open spec fn describes(&self, board: &Board) -> bool {
        let g = board.grid();
        let mine = held_cells(g, Owner::Me);
        let theirs = held_cells(g, Owner::Opponent);
        let pair = closest_pair(mine, theirs);
        &&& self.enemy_coords@ == theirs
        &&& self.frontier@ == frontier_of(g, mine, mine.len() as int)
        &&& (self.target_direction.0 as int, self.target_direction.1 as int) == rush_direction(board)
        &&& self.min_distance == pair.2
        &&& self.closest_enemy == pair.1
        &&& self.opponent_reach == reach(g, Owner::Opponent)
    }

    /// The figures are small enough for the scoring arithmetic.
    pub open spec fn fit(&self) -> bool {
        &&& turn_figures_fit(
            self.enemy_coords@,
            self.frontier@,
            (self.target_direction.0 as int, self.target_direction.1 as int),
            self.min_distance as int,
            (self.closest_enemy.0 as int, self.closest_enemy.1 as int),
        )
        &&& self.opponent_reach <= MAX_DIM * MAX_DIM
    }
}

/// The cells that a side holds on a playable board are within the limit.
pub proof fn lemma_held_within(board: &Board, who: Owner)
    requires
        board.playable(),
    ensures
        all_within(held_cells(board.grid(), who)),
{
    let cells = held_cells(board.grid(), who);
    assert forall|i: int| 0 <= i < cells.len() implies within(#[trigger] cells[i]) by {
        lemma_held_cells(board, who, cells[i]);
        assert(cells.contains(cells[i]));
    }
}

/// The frontier is picked out of the given points.
pub proof fn lemma_frontier_from_points(g: Grid, points: Seq<(usize, usize)>, n: int, k: int)
    requires
        0 <= n <= points.len(),
        0 <= k < frontier_of(g, points, n).len(),
    ensures
        points.contains(frontier_of(g, points, n)[k]),
    decreases n,
{
    if n > 0 {
        let prev = frontier_of(g, points, n - 1);
        if k < prev.len() {
            lemma_frontier_from_points(g, points, n - 1, k);
            assert(frontier_of(g, points, n)[k] == prev[k]);
        } else {
            assert(frontier_of(g, points, n)[k] == points[n - 1]);
        }
    }
}

impl Game {
    /// Works out the figures of the turn from the board and the list of the
    /// mover's cells.
    pub fn survey(&self, board: &Board, my_coords: &Vec<(usize, usize)>) -> (figures: TurnFigures)
        requires
            board.playable(),
            my_coords@ == held_cells(board.grid(), Owner::Me),
            my_coords@.len() > 0,
        ensures
            figures.describes(board),
            figures.fit(),
    {
        let ghost g = board.grid();
        let enemy_coords = cells_held_by(board, Owner::Opponent);
        proof {
            lemma_held_within(board, Owner::Me);
            lemma_held_within(board, Owner::Opponent);
            lemma_within_pairs_fit(my_coords@, enemy_coords@);
        }
        let (closest_my, closest_enemy, min_distance) = self.find_closest_pair(
            my_coords.as_slice(),
            enemy_coords.as_slice(),
        );
        let target_direction: (isize, isize) = if enemy_coords.len() > 0 {
            proof {
                let i = choose|i: int| 0 <= i < my_coords@.len() && my_coords@[i] == closest_my;
                let j = choose|j: int| 0 <= j < enemy_coords@.len() && enemy_coords@[j] == closest_enemy;
                assert(within(my_coords@[i]) && within(enemy_coords@[j]));
            }
            (
                closest_enemy.0 as isize - closest_my.0 as isize,
                closest_enemy.1 as isize - closest_my.1 as isize,
            )
        } else {
            let center = (board.rows / 2, board.cols / 2);
            let my_center = self.calculate_centroid(my_coords.as_slice());
            (center.0 as isize - my_center.0 as isize, center.1 as isize - my_center.1 as isize)
        };
        let frontier = self.find_frontier(my_coords.as_slice(), board);
        let opponent_reach = count_reachable_empty(board, Owner::Opponent);
        proof {
            lemma_area_bound(board.rows as int, board.cols as int);
            if frontier@.len() > 0 {
                lemma_frontier_from_points(g, my_coords@, my_coords@.len() as int, 0);
                let i = choose|i: int| 0 <= i < my_coords@.len() && my_coords@[i] == frontier@[0];
                assert(within(my_coords@[i]));
            }
        }
        TurnFigures {
            enemy_coords,
            frontier,
            target_direction,
            min_distance,
            closest_enemy,
            opponent_reach,
        }
    }
}

impl Game {
    /// Scores a legal placement by the space-starving policy; higher is
    /// better. `opponent_reach` is the number of empty cells the opponent
    /// reaches before the move.
    pub fn score_by_territory(
        &self,
        board: &Board,
        piece: &Piece,
        top_y: usize,
        left_x: usize,
        opponent_reach: usize,
    ) -> (score: i64)
        requires
            board.playable(),
            piece.cells@.len() <= MAX_CELLS,
            is_legal(board.grid(), piece.cells@, top_y as int, left_x as int),
            opponent_reach <= MAX_DIM * MAX_DIM,
        ensures
            score == space_starving_score_from(
                opponent_reach as int,
                board.grid(),
                piece.cells@,
                top_y as int,
                left_x as int,
            ),
            -0x40_0000_0000_0000 < score < 0x40_0000_0000_0000,
    {
        proof {
            lemma_area_bound(board.rows as int, board.cols as int);
        }
        let after = board.with_piece(piece, top_y, left_x);
        let opponent_after = count_reachable_empty(&after, Owner::Opponent);
        let own_after = count_reachable_empty(&after, Owner::Me);
        let gain = count_gained(board, piece, top_y, left_x);
        let denied: i64 = opponent_reach as i64 - opponent_after as i64;
        DENIAL_WEIGHT * denied + OWN_SPACE_WEIGHT * (own_after as i64) + GAIN_WEIGHT * (gain as i64)
    }

    /// Scores a legal placement by `policy`, with the figures of the turn.
    pub fn score_candidate(
        &self,
        board: &Board,
        piece: &Piece,
        top_y: usize,
        left_x: usize,
        policy: Policy,
        figures: &TurnFigures,
    ) -> (score: i64)
        requires
            board.playable(),
            piece.cells@.len() <= MAX_CELLS,
            is_legal(board.grid(), piece.cells@, top_y as int, left_x as int),
            figures.describes(board),
            figures.fit(),
        ensures
            score == policy_score(policy, board, piece.cells@, top_y as int, left_x as int),
            -0x40_0000_0000_0000 < score < 0x40_0000_0000_0000,
            policy == Policy::SpaceStarving ==> score >= 0,
    {
        proof {
            lemma_placement_never_helps_opponent(
                board.grid(),
                piece.cells@,
                top_y as int,
                left_x as int,
            );
            lemma_gained_counts(
                board.grid(),
                piece.cells@,
                top_y as int,
                left_x as int,
                piece.cells@.len() as int,
            );
        }
        match policy {
            Policy::SpaceStarving => self.score_by_territory(
                board,
                piece,
                top_y,
                left_x,
                figures.opponent_reach,
            ),
            Policy::RushThenBlock => self.score_placement(
                board,
                piece,
                top_y,
                left_x,
                figures.enemy_coords.as_slice(),
                figures.frontier.as_slice(),
                figures.target_direction,
                figures.min_distance,
                figures.closest_enemy,
            ),
        }
    }
}

/// The engine has nothing to search: the piece has no filled cell, the board
/// or the piece has no extent, or the piece is larger than the board.
pub open spec fn degenerate(board: &Board, piece: &Piece) -> bool {
    ||| piece.cells@.len() == 0
    ||| board.rows == 0
    ||| board.cols == 0
    ||| piece.height == 0
    ||| piece.width == 0
    ||| piece.height > board.rows
    ||| piece.width > board.cols
}

/// `(top, left)` is an anchor of the window at which the piece's box fits on
/// the board and the placement is legal.
pub open spec fn is_candidate(board: &Board, piece: &Piece, w: Window, top: int, left: int) -> bool {
    &&& in_window(w, top, left)
    &&& top + piece.height <= board.rows
    &&& left + piece.width <= board.cols
    &&& is_legal(board.grid(), piece.cells@, top, left)
}

/// The candidate `(t, l)` does not beat `(top, left)`: it scores less, or
/// the same and comes no earlier when anchors are listed row by row.
pub open spec fn no_better(
    policy: Policy,
    board: &Board,
    piece: &Piece,
    t: int,
    l: int,
    top: int,
    left: int,
) -> bool {
    let other = policy_score(policy, board, piece.cells@, t, l);
    let this = policy_score(policy, board, piece.cells@, top, left);
    other < this || (other == this && !pair_before(t, l, top, left))
}

/// `(top, left)` is the candidate with the highest score and, among those
/// with that score, the first when anchors are listed row by row.
pub open spec fn is_first_best(
    policy: Policy,
    board: &Board,
    piece: &Piece,
    w: Window,
    top: int,
    left: int,
) -> bool {
    &&& is_candidate(board, piece, w, top, left)
    &&& forall|t: int, l: int| #[trigger]
        is_candidate(board, piece, w, t, l) ==> no_better(policy, board, piece, t, l, top, left)
}

/// `choice` is what a scan of the window gives: nothing when the window
/// holds no candidate, else the first best candidate.
pub open spec fn is_choice(
    policy: Policy,
    board: &Board,
    piece: &Piece,
    w: Window,
    choice: Option<(usize, usize)>,
) -> bool {
    match choice {
        None => forall|t: int, l: int| !is_candidate(board, piece, w, t, l),
        Some(anchor) => is_first_best(policy, board, piece, w, anchor.0 as int, anchor.1 as int),
    }
}

/// The choice is determined: a board, a piece, a policy and a window admit
/// one answer only.
pub proof fn lemma_choice_is_unique(
    policy: Policy,
    board: &Board,
    piece: &Piece,
    w: Window,
    a: Option<(usize, usize)>,
    b: Option<(usize, usize)>,
)
    requires
        is_choice(policy, board, piece, w, a),
        is_choice(policy, board, piece, w, b),
    ensures
        a == b,
{
    match (a, b) {
        (Some(x), Some(y)) => {
            assert(is_candidate(board, piece, w, x.0 as int, x.1 as int));
            assert(is_candidate(board, piece, w, y.0 as int, y.1 as int));
            assert(no_better(policy, board, piece, x.0 as int, x.1 as int, y.0 as int, y.1 as int));
            assert(no_better(policy, board, piece, y.0 as int, y.1 as int, x.0 as int, x.1 as int));
        },
        (Some(x), None) => {
            assert(is_candidate(board, piece, w, x.0 as int, x.1 as int));
        },
        (None, Some(y)) => {
            assert(is_candidate(board, piece, w, y.0 as int, y.1 as int));
        },
        (None, None) => {},
    }
}

/// The engine finds no placement exactly when no anchor of its scan window
/// is legal.
pub proof fn lemma_no_choice_iff_no_legal_anchor(
    policy: Policy,
    board: &Board,
    piece: &Piece,
    window_area: usize,
    choice: Option<(usize, usize)>,
)
    requires
        !degenerate(board, piece),
        is_choice(
            policy,
            board,
            piece,
            scan_window(board, piece.height, piece.width, window_area),
            choice,
        ),
    ensures
        choice is None <==> forall|t: int, l: int|
            in_window(scan_window(board, piece.height, piece.width, window_area), t, l) ==> !is_legal(
                board.grid(),
                piece.cells@,
                t,
                l,
            ),
{
    let w = scan_window(board, piece.height, piece.width, window_area);
    match choice {
        Some(anchor) => {
            assert(is_candidate(board, piece, w, anchor.0 as int, anchor.1 as int));
        },
        None => {
            assert forall|t: int, l: int| in_window(w, t, l) implies !is_legal(
                board.grid(),
                piece.cells@,
                t,
                l,
            ) by {
                assert(!is_candidate(board, piece, w, t, l));
            }
        },
    }
}

/// Where the mover holds no cell, no placement is legal.
pub proof fn lemma_no_cell_no_placement(board: &Board, cells: Seq<(usize, usize)>, top: int, left: int)
    requires
        board.wf(),
        held_cells(board.grid(), Owner::Me).len() == 0,
        0 <= top,
        0 <= left,
    ensures
        !is_legal(board.grid(), cells, top, left),
{
    let g = board.grid();
    if is_legal(g, cells, top, left) {
        let i = choose|i: int| sole_overlap(g, cells, top, left, i);
        assert(lands_on(g, cells, top, left, i, Owner::Me));
        let c = ((top + cells[i].0) as usize, (left + cells[i].1) as usize);
        lemma_held_cells(board, Owner::Me, c);
        assert(held_cells(g, Owner::Me).contains(c));
    }
}

/// The anchor `(t, l)` of the window comes before `(top, left)` in the scan.
pub open spec fn scanned(w: Window, t: int, l: int, top: int, left: int) -> bool {
    in_window(w, t, l) && pair_before(t, l, top, left)
}

impl Game {
    /// Tries every anchor of the window, row by row, and keeps the legal
    /// one with the highest score; of equals, the first.
    pub fn best_in_window(
        &self,
        board: &Board,
        piece: &Piece,
        policy: Policy,
        figures: &TurnFigures,
        w: Window,
    ) -> (choice: Option<(usize, usize)>)
        requires
            board.playable(),
            piece.cells@.len() <= MAX_CELLS,
            piece.height <= board.rows,
            piece.width <= board.cols,
            w.max_y <= board.rows - piece.height + 1,
            w.max_x <= board.cols - piece.width + 1,
            figures.describes(board),
            figures.fit(),
        ensures
            is_choice(policy, board, piece, w, choice),
    {
        let mut best_pos: Option<(usize, usize)> = None;
        let mut best_score: i64 = i64::MIN;
        let mut top_y: usize = w.min_y;
        while top_y < w.max_y
            invariant
                board.playable(),
                piece.cells@.len() <= MAX_CELLS,
                piece.height <= board.rows,
                piece.width <= board.cols,
                w.max_y <= board.rows - piece.height + 1,
                w.max_x <= board.cols - piece.width + 1,
                figures.describes(board),
                figures.fit(),
                w.min_y <= top_y,
                best_pos is None ==> forall|t: int, l: int|
                    scanned(w, t, l, top_y as int, w.min_x as int) ==> !#[trigger] is_candidate(
                        board,
                        piece,
                        w,
                        t,
                        l,
                    ),
                best_pos matches Some(b) ==> {
                    &&& is_candidate(board, piece, w, b.0 as int, b.1 as int)
                    &&& scanned(w, b.0 as int, b.1 as int, top_y as int, w.min_x as int)
                    &&& best_score == policy_score(policy, board, piece.cells@, b.0 as int, b.1 as int)
                    &&& forall|t: int, l: int|
                        scanned(w, t, l, top_y as int, w.min_x as int) && #[trigger] is_candidate(
                            board,
                            piece,
                            w,
                            t,
                            l,
                        ) ==> no_better(policy, board, piece, t, l, b.0 as int, b.1 as int)
                },
            decreases w.max_y - top_y,
        {
            let mut left_x: usize = w.min_x;
            while left_x < w.max_x
                invariant
                    board.playable(),
                    piece.cells@.len() <= MAX_CELLS,
                    piece.height <= board.rows,
                    piece.width <= board.cols,
                    w.max_y <= board.rows - piece.height + 1,
                    w.max_x <= board.cols - piece.width + 1,
                    figures.describes(board),
                    figures.fit(),
                    w.min_y <= top_y < w.max_y,
                    w.min_x <= left_x,
                    best_pos is None ==> forall|t: int, l: int|
                        scanned(w, t, l, top_y as int, left_x as int) ==> !#[trigger] is_candidate(
                            board,
                            piece,
                            w,
                            t,
                            l,
                        ),
                    best_pos matches Some(b) ==> {
                        &&& is_candidate(board, piece, w, b.0 as int, b.1 as int)
                        &&& scanned(w, b.0 as int, b.1 as int, top_y as int, left_x as int)
                        &&& best_score == policy_score(
                            policy,
                            board,
                            piece.cells@,
                            b.0 as int,
                            b.1 as int,
                        )
                        &&& forall|t: int, l: int|
                            scanned(w, t, l, top_y as int, left_x as int) && #[trigger] is_candidate(
                                board,
                                piece,
                                w,
                                t,
                                l,
                            ) ==> no_better(policy, board, piece, t, l, b.0 as int, b.1 as int)
                    },
                decreases w.max_x - left_x,
            {
                if self.is_valid_placement(board, piece, top_y, left_x) {
                    let score = self.score_candidate(board, piece, top_y, left_x, policy, figures);
                    let better = match best_pos {
                        None => true,
                        Some(_) => score > best_score,
                    };
                    if better {
                        best_score = score;
                        best_pos = Some((top_y, left_x));
                    }
                }
                left_x += 1;
            }
            top_y += 1;
        }
        best_pos
    }

    /// Picks the best legal placement of `piece` on `board` by `policy`.
    /// Boards of more than `window_area` cells are scanned only around the
    /// mover's territory.
    pub fn choose_best_placement(&self, board: &Board, piece: &Piece, policy: Policy, window_area: usize) -> (choice:
        Option<(usize, usize)>)
        requires
            board.playable(),
            piece.cells@.len() <= MAX_CELLS,
        ensures
            degenerate(board, piece) ==> choice is None,
            !degenerate(board, piece) ==> is_choice(
                policy,
                board,
                piece,
                scan_window(board, piece.height, piece.width, window_area),
                choice,
            ),
            choice matches Some(anchor) ==> is_legal(
                board.grid(),
                piece.cells@,
                anchor.0 as int,
                anchor.1 as int,
            ),
    {
        if piece.cells.len() == 0 || board.rows == 0 || board.cols == 0 || piece.height == 0
            || piece.width == 0 || piece.height > board.rows || piece.width > board.cols {
            return None;
        }
        let my_coords = cells_held_by(board, Owner::Me);
        if my_coords.len() == 0 {
            proof {
                let w = scan_window(board, piece.height, piece.width, window_area);
                assert forall|t: int, l: int| !is_candidate(board, piece, w, t, l) by {
                    if in_window(w, t, l) {
                        lemma_no_cell_no_placement(board, piece.cells@, t, l);
                    }
                }
            }
            return None;
        }
        let figures = self.survey(board, &my_coords);
        let w = search_window(board, piece, my_coords.as_slice(), window_area);
        self.best_in_window(board, piece, policy, &figures, w)
    }
}

/// For a well-formed piece the area limit is immaterial: narrowed or not,
/// the scan gives the same choice.
pub proof fn lemma_area_limit_is_immaterial(
    policy: Policy,
    board: &Board,
    piece: &Piece,
    area_one: usize,
    area_two: usize,
    one: Option<(usize, usize)>,
    two: Option<(usize, usize)>,
)
    requires
        board.wf(),
        piece.wf(),
        is_choice(policy, board, piece, scan_window(board, piece.height, piece.width, area_one), one),
        is_choice(policy, board, piece, scan_window(board, piece.height, piece.width, area_two), two),
    ensures
        one == two,
{
    let w1 = scan_window(board, piece.height, piece.width, area_one);
    let w2 = scan_window(board, piece.height, piece.width, area_two);
    assert forall|t: int, l: int| is_candidate(board, piece, w1, t, l) <==> is_candidate(
        board,
        piece,
        w2,
        t,
        l,
    ) by {
        if is_candidate(board, piece, w1, t, l) {
            lemma_window_holds_legal(board, piece, area_two, t, l);
        }
        if is_candidate(board, piece, w2, t, l) {
            lemma_window_holds_legal(board, piece, area_one, t, l);
        }
    }
    match one {
        Some(x) => {
            assert(is_candidate(board, piece, w2, x.0 as int, x.1 as int));
            assert forall|t: int, l: int| #[trigger]
                is_candidate(board, piece, w2, t, l) implies no_better(
                policy,
                board,
                piece,
                t,
                l,
                x.0 as int,
                x.1 as int,
            ) by {
                assert(is_candidate(board, piece, w1, t, l));
            }
        },
        None => {
            assert forall|t: int, l: int| !is_candidate(board, piece, w2, t, l) by {
                assert(!is_candidate(board, piece, w1, t, l));
            }
        },
    }
    lemma_choice_is_unique(policy, board, piece, w2, one, two);
}

} // verus!
