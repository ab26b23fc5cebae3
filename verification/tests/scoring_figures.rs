use filler::board::{Board, Owner};
use filler::game::Game;
use filler::piece::Piece;
use filler::projection::project;
use filler::scoring::{
    advance_of, best_advance_of, count_contacts, count_gained, count_sides, distance_to_target,
    manhattan_distance, nearest_distance, nearest_to_footprint,
};
use filler::turn::{cells_held_by, touches_cell_of};

fn board_from(rows: &[&str]) -> Board {
    let cells: Vec<Vec<Owner>> = rows
        .iter()
        .map(|r| {
            r.chars()
                .map(|c| match c {
                    'M' => Owner::Me,
                    'O' => Owner::Opponent,
                    _ => Owner::Empty,
                })
                .collect()
        })
        .collect();
    Board { rows: cells.len(), cols: if cells.is_empty() { 0 } else { cells[0].len() }, cells }
}

fn bar() -> Piece {
    Piece { width: 2, height: 1, cells: vec![(0, 0), (0, 1)] }
}

#[test]
fn projection_rounds_towards_zero() {
    assert_eq!(project(7, 4), 3);
    assert_eq!(project(-7, 4), -3);
    assert_eq!(project(10, 2), 7);
    assert_eq!(project(-10, 2), -7);
    assert_eq!(project(0, 5), 0);
    assert_eq!(project(5, 0), 0);
    assert_eq!(project(12, 9), 4);
    assert_eq!(project(1, 2), 0);
    assert_eq!(project(-1, 2), 0);
    assert_eq!(project(0x200_0000_0000, 1), 0x200_0000_0000);
    assert_eq!(project(0x200_0000_0000, 0x200_0000_0000), 1482910);
}

#[test]
fn projection_agrees_with_floating_point() {
    for d in -300i64..=300 {
        for n in 0i64..=200 {
            let expected = if n == 0 { 0 } else { (d as f64 / (n as f64).sqrt()) as i64 };
            assert_eq!(project(d, n), expected, "{} over root {}", d, n);
        }
    }
}

#[test]
fn distances_in_steps() {
    assert_eq!(manhattan_distance((1, 2), (4, 0)), 5);
    assert_eq!(manhattan_distance((4, 0), (1, 2)), 5);
    assert_eq!(manhattan_distance((3, 3), (3, 3)), 0);
    assert_eq!(manhattan_distance((usize::MAX, 7), (0, 7)), usize::MAX);
    assert_eq!(manhattan_distance((0, usize::MAX - 5), (5, 0)), usize::MAX);
    assert_eq!(nearest_distance(usize::MAX, 0, &[(0, 0), (usize::MAX - 3, 1)]), 4);
    assert_eq!(nearest_distance(0, 0, &[(usize::MAX, 0)]), usize::MAX);
    assert_eq!(nearest_distance(2, 2, &[(0, 0), (2, 5), (9, 9)]), 3);
    assert_eq!(nearest_distance(2, 2, &[]), usize::MAX);
    let piece = Piece { width: 2, height: 2, cells: vec![(0, 0), (1, 1)] };
    assert_eq!(nearest_to_footprint(&piece, 1, 1, &[(5, 5), (0, 3)]), 3);
    assert_eq!(nearest_to_footprint(&piece, 1, 1, &[]), usize::MAX);
    assert_eq!(distance_to_target(&piece, 1, 1, (4, 4)), 4);
    let nothing = Piece { width: 1, height: 1, cells: vec![] };
    assert_eq!(nearest_to_footprint(&nothing, 0, 0, &[(1, 1)]), usize::MAX);
    assert_eq!(distance_to_target(&nothing, 0, 0, (1, 1)), usize::MAX);
}

#[test]
fn gained_cells_and_contacts() {
    let board = board_from(&["M.O", "..O", "OOO"]);
    assert_eq!(count_gained(&board, &bar(), 0, 0), 1);
    assert_eq!(count_contacts(&board, &bar(), 0, 0, Owner::Opponent), 1);
    assert_eq!(count_contacts(&board, &bar(), 0, 0, Owner::Empty), 3);
    assert_eq!(count_sides(&board, 1, 1, Owner::Opponent), 2);
    assert_eq!(count_sides(&board, 1, 1, Owner::Empty), 2);
    assert_eq!(count_sides(&board, 0, 0, Owner::Empty), 2);
    assert_eq!(count_sides(&board, 2, 2, Owner::Opponent), 2);
    assert!(touches_cell_of(&board, 0, 0, Owner::Empty));
    assert!(!touches_cell_of(&board, 0, 0, Owner::Opponent));
    assert!(touches_cell_of(&board, 3, 1, Owner::Opponent));
    assert!(!touches_cell_of(&board, 4, 1, Owner::Opponent));
    assert!(touches_cell_of(&board, 1, 3, Owner::Opponent));
    assert!(!touches_cell_of(&board, usize::MAX, usize::MAX, Owner::Opponent));
}

#[test]
fn advance_along_the_heading() {
    assert_eq!(advance_of(3, 4, (1, 1), (3, 4)), 3);
    assert_eq!(advance_of(1, 1, (3, 4), (3, 4)), -3);
    assert_eq!(advance_of(5, 1, (1, 1), (1, 0)), 4);
    assert_eq!(advance_of(5, 1, (1, 1), (0, 0)), 0);
    assert_eq!(advance_of(2, 2, (0, 0), (1, 1)), 2);
    let piece = Piece { width: 2, height: 2, cells: vec![(0, 0), (1, 1)] };
    assert_eq!(best_advance_of(&piece, 1, 1, (0, 0), (1, 1)), 2);
    assert_eq!(best_advance_of(&piece, 1, 1, (0, 0), (-1, -1)), -1);
    let nothing = Piece { width: 1, height: 1, cells: vec![] };
    assert_eq!(best_advance_of(&nothing, 0, 0, (0, 0), (1, 1)), i64::MIN);
}

#[test]
fn cells_listed_row_by_row() {
    let board = board_from(&["M.O", ".M.", "O.M"]);
    assert_eq!(cells_held_by(&board, Owner::Me), vec![(0, 0), (1, 1), (2, 2)]);
    assert_eq!(cells_held_by(&board, Owner::Opponent), vec![(0, 2), (2, 0)]);
    assert_eq!(cells_held_by(&board, Owner::Empty), vec![(0, 1), (1, 0), (1, 2), (2, 1)]);
}

#[test]
fn closest_pair_is_the_first_of_the_nearest() {
    let game = Game::new(1);
    let mine = [(0, 0), (2, 2), (5, 5)];
    let theirs = [(9, 9), (2, 4), (4, 2), (5, 7)];
    assert_eq!(game.find_closest_pair(&mine, &theirs), ((2, 2), (2, 4), 2));
    assert_eq!(game.find_closest_pair(&[(3, 3)], &[(3, 3)]), ((3, 3), (3, 3), 0));
    assert_eq!(game.find_closest_pair(&[(1, 1), (1, 3)], &[(1, 2)]), ((1, 1), (1, 2), 1));
    let far = usize::MAX;
    assert_eq!(game.find_closest_pair(&[(0, 0), (far, 2)], &[(far, 0), (9, far)]), ((far, 2), (far, 0), 2));
}

#[test]
fn closest_pair_without_one_side() {
    let game = Game::new(1);
    assert_eq!(game.find_closest_pair(&[(4, 5), (1, 1)], &[]), ((4, 5), (0, 0), usize::MAX));
    assert_eq!(game.find_closest_pair(&[], &[(2, 2)]), ((0, 0), (0, 0), usize::MAX));
    assert_eq!(game.find_closest_pair(&[], &[]), ((0, 0), (0, 0), usize::MAX));
}

#[test]
fn centroid_is_the_mean_rounded_down() {
    let game = Game::new(1);
    assert_eq!(game.calculate_centroid(&[(2, 4), (5, 9)]), (3, 6));
    assert_eq!(game.calculate_centroid(&[(7, 1)]), (7, 1));
    assert_eq!(game.calculate_centroid(&[(0, 0), (0, 1), (0, 1)]), (0, 0));
    assert_eq!(game.calculate_centroid(&[]), (0, 0));
    let far = usize::MAX;
    assert_eq!(game.calculate_centroid(&[(far, far), (far, far - 2), (far, 1)]), (far, far / 3 * 2 - 1));
}

#[test]
fn frontier_is_the_own_cells_next_to_empty_cells() {
    let game = Game::new(1);
    let board = board_from(&["MMM", "MMM", "MM."]);
    let mine = cells_held_by(&board, Owner::Me);
    assert_eq!(game.find_frontier(&mine, &board), vec![(1, 2), (2, 1)]);
    let closed = board_from(&["MO", "OO"]);
    assert_eq!(game.find_frontier(&[(0, 0)], &closed), vec![]);
    assert_eq!(game.find_frontier(&[(2, 1), (1, 2), (1, 2)], &board), vec![(2, 1), (1, 2), (1, 2)]);
}

#[test]
fn score_while_rushing() {
    let game = Game::new(1);
    let board = board_from(&["M.........", "..........", ".........O"]);
    // reach 10, before 11, advance 0, gain 1, touch 0
    let score = game.score_placement(&board, &bar(), 0, 0, &[(2, 9)], &[(0, 0)], (2, 9), 11, (2, 9));
    assert_eq!(score, 1000000 / 11 * 100 + 50000 + 10);
    assert_eq!(score, 9140910);
    let upright = Piece { width: 1, height: 2, cells: vec![(0, 0), (1, 0)] };
    // reach 10, advance along (2, 9): 2 over root 85 is 0
    let score = game.score_placement(&board, &upright, 0, 0, &[(2, 9)], &[(0, 0)], (2, 9), 11, (2, 9));
    assert_eq!(score, 9140910);
    let long = Piece { width: 4, height: 1, cells: vec![(0, 0), (0, 3)] };
    // reach 8, cut 3, advance 27 over root 85 is 2, gain 1
    let score = game.score_placement(&board, &long, 0, 0, &[(2, 9)], &[(0, 0)], (2, 9), 11, (2, 9));
    assert_eq!(score, 1000000 / 9 * 100 + 3 * 50000 + 2 * 1000 + 10);
}

#[test]
fn score_while_rushing_counts_contacts() {
    let game = Game::new(1);
    let board = board_from(&["M.O.....", "........"]);
    // before 9 is handed in as it is; reach 1, touch 1, advance 1, gain 1
    let score = game.score_placement(&board, &bar(), 0, 0, &[(0, 2)], &[(0, 0)], (0, 2), 9, (0, 2));
    assert_eq!(score, 500000 * 100 + 8 * 50000 + 1000 + 10 + 100000);
}

#[test]
fn score_while_blocking() {
    let game = Game::new(1);
    let board = board_from(&["M..O", "...."]);
    // reach 2, touch 0, gain 1, advance 1, target 2
    let score = game.score_placement(&board, &bar(), 0, 0, &[(0, 3)], &[(0, 0)], (0, 3), 3, (0, 3));
    assert_eq!(score, 100000 / 3 * 50 + 2000 + 500 - 200);
    assert_eq!(score, 1668950);
    let upright = Piece { width: 1, height: 2, cells: vec![(0, 0), (1, 0)] };
    // reach 3, advance 0, target 3
    let score = game.score_placement(&board, &upright, 0, 0, &[(0, 3)], &[(0, 0)], (0, 3), 3, (0, 3));
    assert_eq!(score, 25000 * 50 + 2000 - 300);
    // at the limit of the rush the mover still blocks
    let far = board_from(&["M....O"]);
    let score = game.score_placement(&far, &bar(), 0, 0, &[(0, 5)], &[(0, 0)], (0, 5), 5, (0, 5));
    assert_eq!(score, 100000 / 5 * 50 + 2000 + 500 - 400);
    let score = game.score_placement(&far, &bar(), 0, 0, &[(0, 5)], &[(0, 0)], (0, 5), 6, (0, 5));
    assert_eq!(score, 200000 * 100 + 2 * 50000 + 1000 + 10);
}

#[test]
fn score_without_opponent() {
    let game = Game::new(1);
    let board = board_from(&["M....", "....."]);
    let score = game.score_placement(&board, &bar(), 0, 0, &[], &[(0, 0)], (1, 2), usize::MAX, (0, 0));
    // advance: 2 over root 5 is 0; nothing for distances
    assert_eq!(score, 10);
    let long = Piece { width: 4, height: 1, cells: vec![(0, 0), (0, 3)] };
    let score = game.score_placement(&board, &long, 0, 0, &[], &[(0, 0)], (1, 2), usize::MAX, (0, 0));
    assert_eq!(score, 2 * 1000 + 10);
}

#[test]
fn score_measures_the_advance_from_the_corner_without_frontier() {
    let game = Game::new(1);
    let board = board_from(&["....", ".M.O"]);
    let with = game.score_placement(&board, &bar(), 1, 1, &[(1, 3)], &[(1, 1)], (0, 2), 2, (1, 3));
    let without = game.score_placement(&board, &bar(), 1, 1, &[(1, 3)], &[], (0, 2), 2, (1, 3));
    // reach 1, touch 1, gain 1, target 1; advance 1 from (1, 1), 2 from the corner
    assert_eq!(with, 50000 + 50000 * 50 + 2000 + 500 - 100);
    assert_eq!(without, 50000 + 50000 * 50 + 2000 + 1000 - 100);
}

#[test]
fn score_by_territory_weighs_the_three_parts() {
    let game = Game::new(1);
    let board = board_from(&["M.O", "..O", "OOO"]);
    // opponent reaches 2 of 3 after the move, the mover 2, one cell gained
    assert_eq!(game.score_by_territory(&board, &bar(), 0, 0, 3), 100 + 20 + 1);
    assert_eq!(game.score_by_territory(&board, &bar(), 0, 0, 0), -200 + 20 + 1);
}
