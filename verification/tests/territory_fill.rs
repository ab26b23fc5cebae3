use filler::board::{Board, Owner};
use filler::piece::Piece;
use filler::territory::{count_reachable_empty, reachable_empty_for};

fn board_from(rows: &[&str]) -> Board {
    let cells: Vec<Vec<Owner>> = rows
        .iter()
        .map(|r| {
            r.chars()
                .map(|c| match c {
                    'M' => Owner::Me,
                    'O' => Owner::Opponent,
                    _ => Owner::Empty,
                })
                .collect()
        })
        .collect();
    Board { rows: cells.len(), cols: if cells.is_empty() { 0 } else { cells[0].len() }, cells }
}

struct Dice(u64);

impl Dice {
    fn roll(&mut self, sides: usize) -> usize {
        self.0 ^= self.0 << 13;
        self.0 ^= self.0 >> 7;
        self.0 ^= self.0 << 17;
        (self.0 % sides as u64) as usize
    }
}

fn random_board(dice: &mut Dice, rows: usize, cols: usize) -> Board {
    let mut cells = vec![vec![Owner::Empty; cols]; rows];
    for row in cells.iter_mut() {
        for cell in row.iter_mut() {
            *cell = match dice.roll(5) {
                0 => Owner::Me,
                1 => Owner::Opponent,
                _ => Owner::Empty,
            };
        }
    }
    Board { rows, cols, cells }
}

/// Counts by repeated sweeps over the board until nothing changes.
fn expected_reach(board: &Board, who: Owner) -> usize {
    let mut seen = vec![vec![false; board.cols]; board.rows];
    for y in 0..board.rows {
        for x in 0..board.cols {
            seen[y][x] = board.cells[y][x] == who;
        }
    }
    loop {
        let mut changed = false;
        for y in 0..board.rows {
            for x in 0..board.cols {
                let open = board.cells[y][x] == who || board.cells[y][x] == Owner::Empty;
                let near = (y > 0 && seen[y - 1][x])
                    || (y + 1 < board.rows && seen[y + 1][x])
                    || (x > 0 && seen[y][x - 1])
                    || (x + 1 < board.cols && seen[y][x + 1]);
                if open && near && !seen[y][x] {
                    seen[y][x] = true;
                    changed = true;
                }
            }
        }
        if !changed {
            break;
        }
    }
    let mut count = 0;
    for y in 0..board.rows {
        for x in 0..board.cols {
            if seen[y][x] && board.cells[y][x] == Owner::Empty {
                count += 1;
            }
        }
    }
    count
}

#[test]
fn flood_fill_counts_connected_empty_cells() {
    let board = board_from(&["M.O", "..O", "OOO"]);
    assert_eq!(count_reachable_empty(&board, Owner::Me), 3);
    assert_eq!(count_reachable_empty(&board, Owner::Opponent), 3);
}

#[test]
fn flood_fill_stops_at_the_other_side() {
    let board = board_from(&["M.O..", "..O..", "OOO.."]);
    assert_eq!(count_reachable_empty(&board, Owner::Me), 3);
    assert_eq!(count_reachable_empty(&board, Owner::Opponent), 9);
    let walled = board_from(&["..M..", "MMM..", "....O"]);
    assert_eq!(count_reachable_empty(&walled, Owner::Opponent), 8);
    assert_eq!(count_reachable_empty(&walled, Owner::Me), 10);
}

#[test]
fn flood_fill_does_not_go_over_corners() {
    let board = board_from(&["MO", "O."]);
    assert_eq!(count_reachable_empty(&board, Owner::Me), 0);
    assert_eq!(count_reachable_empty(&board, Owner::Opponent), 1);
}

#[test]
fn flood_fill_without_territory_reaches_nothing() {
    let board = board_from(&["...", "...", "..O"]);
    assert_eq!(count_reachable_empty(&board, Owner::Me), 0);
    assert_eq!(count_reachable_empty(&board, Owner::Opponent), 8);
    let none = Board { rows: 0, cols: 0, cells: vec![] };
    assert_eq!(count_reachable_empty(&none, Owner::Me), 0);
}

#[test]
fn flood_fill_counts_each_cell_once() {
    let board = board_from(&["M.M", "...", "M.M"]);
    assert_eq!(count_reachable_empty(&board, Owner::Me), 5);
    let full = board_from(&["MM", "MM"]);
    assert_eq!(count_reachable_empty(&full, Owner::Me), 0);
}

#[test]
fn flood_fill_agrees_with_repeated_sweeps() {
    let mut dice = Dice(0x853C49E6748FEA9B);
    for _ in 0..300 {
        let rows = 1 + dice.roll(9);
        let cols = 1 + dice.roll(9);
        let board = random_board(&mut dice, rows, cols);
        for who in [Owner::Me, Owner::Opponent] {
            assert_eq!(count_reachable_empty(&board, who), expected_reach(&board, who));
        }
    }
}

#[test]
fn reach_with_the_piece_put_down() {
    let board = board_from(&["M.O", "..O", "OOO"]);
    let bar = Piece { width: 2, height: 1, cells: vec![(0, 0), (0, 1)] };
    assert_eq!(reachable_empty_for(Owner::Me, &board, &bar, 0, 0), 2);
    assert_eq!(reachable_empty_for(Owner::Opponent, &board, &bar, 0, 0), 2);
    let nothing = Piece { width: 1, height: 1, cells: vec![] };
    assert_eq!(reachable_empty_for(Owner::Me, &board, &nothing, 0, 0), 3);
    let over = Piece { width: 1, height: 1, cells: vec![(0, 0)] };
    assert_eq!(reachable_empty_for(Owner::Opponent, &board, &over, 0, 2), 3);
    assert_eq!(reachable_empty_for(Owner::Me, &board, &over, 0, 2), 3);
    let lone = board_from(&["..O"]);
    assert_eq!(reachable_empty_for(Owner::Opponent, &lone, &over, 0, 2), 0);
    assert_eq!(reachable_empty_for(Owner::Me, &lone, &over, 0, 2), 2);
}

#[test]
fn one_more_cell_never_helps_the_opponent() {
    let mut dice = Dice(0xDA942042E4DD58B5);
    for _ in 0..200 {
        let board = random_board(&mut dice, 5, 6);
        let mut cells = vec![(dice.roll(3), dice.roll(3))];
        let top = dice.roll(4);
        let left = dice.roll(4);
        for _ in 0..4 {
            let less = Piece { width: 3, height: 3, cells: cells.clone() };
            let extra = (dice.roll(3), dice.roll(3));
            cells.push(extra);
            let more = Piece { width: 3, height: 3, cells: cells.clone() };
            let before = reachable_empty_for(Owner::Opponent, &board, &less, top, left);
            let after = reachable_empty_for(Owner::Opponent, &board, &more, top, left);
            assert!(after <= before);
            assert!(before <= count_reachable_empty(&board, Owner::Opponent));
        }
    }
}

#[test]
fn one_more_cell_costs_the_mover_at_most_that_cell() {
    let mut dice = Dice(0xA0761D6478BD642F);
    for _ in 0..200 {
        let board = random_board(&mut dice, 5, 6);
        let mut cells = vec![(dice.roll(3), dice.roll(3))];
        let top = dice.roll(4);
        let left = dice.roll(4);
        for _ in 0..4 {
            let less = Piece { width: 3, height: 3, cells: cells.clone() };
            let extra = (dice.roll(3), dice.roll(3));
            cells.push(extra);
            let more = Piece { width: 3, height: 3, cells: cells.clone() };
            let held_before = board.with_piece(&less, top, left);
            let (y, x) = (top + extra.0, left + extra.1);
            let was_open = y < 5 && x < 6 && held_before.cells[y][x] == Owner::Empty;
            let before = reachable_empty_for(Owner::Me, &board, &less, top, left);
            let after = reachable_empty_for(Owner::Me, &board, &more, top, left);
            if was_open {
                assert!(after + 1 >= before);
            } else {
                assert!(after >= before);
            }
        }
    }
}

#[test]
fn one_more_cell_on_reached_ground_takes_it_from_the_count() {
    let board = board_from(&["M."]);
    let less = Piece { width: 2, height: 1, cells: vec![(0, 0)] };
    let more = Piece { width: 2, height: 1, cells: vec![(0, 0), (0, 1)] };
    assert_eq!(reachable_empty_for(Owner::Me, &board, &less, 0, 0), 1);
    assert_eq!(reachable_empty_for(Owner::Me, &board, &more, 0, 0), 0);
}

#[test]
fn sides_exchanged_reach_exchanged() {
    let mut dice = Dice(0xE7037ED1A0B428DB);
    for _ in 0..200 {
        let rows = 1 + dice.roll(7);
        let cols = 1 + dice.roll(7);
        let board = random_board(&mut dice, rows, cols);
        let other = board.swapped_sides();
        assert_eq!(count_reachable_empty(&board, Owner::Me), count_reachable_empty(&other, Owner::Opponent));
        assert_eq!(count_reachable_empty(&board, Owner::Opponent), count_reachable_empty(&other, Owner::Me));
    }
    let board = board_from(&["M.O", "..."]);
    let other = board.swapped_sides();
    assert_eq!(other.cells[0], vec![Owner::Opponent, Owner::Empty, Owner::Me]);
    assert_eq!(other.cells[1], vec![Owner::Empty, Owner::Empty, Owner::Empty]);
}
