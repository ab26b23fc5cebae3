use filler::board::{Board, Owner};
use filler::game::Game;
use filler::piece::Piece;

fn board_from(rows: &[&str]) -> Board {
    let cells: Vec<Vec<Owner>> = rows
        .iter()
        .map(|r| {
            r.chars()
                .map(|c| match c {
                    'M' => Owner::Me,
                    'O' => Owner::Opponent,
                    _ => Owner::Empty,
                })
                .collect()
        })
        .collect();
    Board { rows: cells.len(), cols: if cells.is_empty() { 0 } else { cells[0].len() }, cells }
}

fn corner() -> Piece {
    Piece { width: 2, height: 2, cells: vec![(0, 0), (1, 0), (1, 1)] }
}

#[test]
fn placement_needs_exactly_one_own_cell() {
    let board = board_from(&["....", ".M..", ".M.O", "...."]);
    let game = Game::new(1);
    assert!(game.is_valid_placement(&board, &corner(), 0, 1));
    assert!(game.is_valid_placement(&board, &corner(), 0, 0));
    assert!(!game.is_valid_placement(&board, &corner(), 0, 2));
    assert!(!game.is_valid_placement(&board, &corner(), 1, 1));
    assert!(game.is_valid_placement(&board, &corner(), 2, 1));
    assert!(game.is_valid_placement(&board, &corner(), 1, 0));
}

#[test]
fn placement_may_not_cover_the_opponent() {
    let board = board_from(&["M.", "O."]);
    let game = Game::new(1);
    assert!(!game.is_valid_placement(&board, &corner(), 0, 0));
    let bar = Piece { width: 2, height: 1, cells: vec![(0, 0), (0, 1)] };
    assert!(game.is_valid_placement(&board, &bar, 0, 0));
    assert!(!game.is_valid_placement(&board, &bar, 1, 0));
}

#[test]
fn placement_may_not_leave_the_board() {
    let board = board_from(&["..", ".M"]);
    let game = Game::new(1);
    let bar = Piece { width: 2, height: 1, cells: vec![(0, 0), (0, 1)] };
    assert!(game.is_valid_placement(&board, &bar, 1, 0));
    assert!(!game.is_valid_placement(&board, &bar, 1, 1));
    assert!(!game.is_valid_placement(&board, &bar, 2, 0));
    assert!(!game.is_valid_placement(&board, &bar, usize::MAX, usize::MAX));
    let far = Piece { width: 1, height: 1, cells: vec![(usize::MAX, usize::MAX)] };
    assert!(!game.is_valid_placement(&board, &far, 1, 1));
}

#[test]
fn placement_of_a_piece_without_cells_is_never_legal() {
    let board = board_from(&["M"]);
    let game = Game::new(1);
    let nothing = Piece { width: 1, height: 1, cells: vec![] };
    assert!(!game.is_valid_placement(&board, &nothing, 0, 0));
}

#[test]
fn the_same_cell_listed_twice_counts_twice() {
    let board = board_from(&["M."]);
    let game = Game::new(1);
    let twice = Piece { width: 1, height: 1, cells: vec![(0, 0), (0, 0)] };
    assert!(!game.is_valid_placement(&board, &twice, 0, 0));
    assert!(!game.is_valid_placement(&board, &twice, 0, 1));
}

#[test]
fn board_with_the_piece_put_down() {
    let board = board_from(&["M..", "..O"]);
    let after = board.with_piece(&corner(), 0, 0);
    assert_eq!(after.rows, 2);
    assert_eq!(after.cols, 3);
    assert_eq!(
        after.cells,
        vec![
            vec![Owner::Me, Owner::Empty, Owner::Empty],
            vec![Owner::Me, Owner::Me, Owner::Opponent],
        ]
    );
    let over = board.with_piece(&corner(), 0, 1);
    assert_eq!(over.cells[1], vec![Owner::Empty, Owner::Me, Owner::Me]);
    let off = board.with_piece(&corner(), 1, 2);
    assert_eq!(off.cells, vec![
        vec![Owner::Me, Owner::Empty, Owner::Empty],
        vec![Owner::Empty, Owner::Empty, Owner::Me],
    ]);
}

#[test]
fn well_formed_pieces_and_boards() {
    assert!(corner().is_well_formed());
    assert!(!Piece { width: 1, height: 2, cells: vec![(0, 1)] }.is_well_formed());
    assert!(!Piece { width: 2, height: 1, cells: vec![(1, 0)] }.is_well_formed());
    assert!(Piece { width: 0, height: 0, cells: vec![] }.is_well_formed());
    assert!(board_from(&["M..", "..O"]).is_well_formed());
    let ragged = Board { rows: 2, cols: 2, cells: vec![vec![Owner::Me, Owner::Empty], vec![Owner::Empty]] };
    assert!(!ragged.is_well_formed());
    let short = Board { rows: 3, cols: 1, cells: vec![vec![Owner::Me]] };
    assert!(!short.is_well_formed());
}

#[test]
fn the_other_side() {
    assert_eq!(Owner::Me.opposite(), Owner::Opponent);
    assert_eq!(Owner::Opponent.opposite(), Owner::Me);
    assert_eq!(Owner::Empty.opposite(), Owner::Empty);
}
