use filler::board::{Board, Owner};
use filler::piece::Piece;
use filler::protocol::{Phase, Session, Step};

fn feed_all(session: &mut Session, lines: &[&str]) -> Vec<String> {
    lines.iter().map(|l| format!("{:?}", session.feed(l))).collect()
}

#[test]
fn session_waits_for_the_player_line() {
    let mut session = Session::new();
    assert_eq!(session.phase, Phase::AwaitPlayer);
    assert_eq!(session.game.my_player, 0);
    assert_eq!(session.rows_left, 0);
    assert!(session.board_lines.is_empty() && session.piece_lines.is_empty());
    assert!(session.board.is_none() && session.piece.is_none());
    assert!(matches!(session.feed("launching"), Step::More));
    assert_eq!(session.phase, Phase::AwaitPlayer);
    assert!(matches!(session.feed("Anfield 2 2:"), Step::More));
    assert_eq!(session.phase, Phase::AwaitPlayer);
    assert!(matches!(session.feed("$$$ exec p2 : [./me]"), Step::More));
    assert_eq!(session.phase, Phase::AwaitBoard);
    assert_eq!(session.game.my_player, 2);
}

#[test]
fn session_plays_a_turn() {
    let mut session = Session::new();
    let steps = feed_all(
        &mut session,
        &[
            "$$$ exec p1 : [./me]",
            "$$$ exec p2 : [./other]",
            "Anfield 4 3:",
            "    0123",
            "000 ....",
            "001 .@..",
            "002 ...$",
            "Piece 2 1:",
            "**",
        ],
    );
    assert_eq!(steps[..8], vec!["More"; 8][..]);
    assert_eq!(steps[8], "Move(Some((1, 1)))");
    assert_eq!(session.phase, Phase::AwaitBoard);
    assert_eq!(session.game.my_player, 1);
    let board = session.board.as_ref().unwrap();
    assert_eq!((board.rows, board.cols), (3, 4));
    assert_eq!(board.cells[1][1], Owner::Me);
    assert_eq!(board.cells[2][3], Owner::Opponent);
    let piece = session.piece.as_ref().unwrap();
    assert_eq!(piece.cells, vec![(0, 0), (0, 1)]);
}

#[test]
fn session_plays_turn_after_turn() {
    let mut session = Session::new();
    let steps = feed_all(
        &mut session,
        &[
            "$$$ exec p2 : [./me]",
            "Anfield 3 2:",
            "    012",
            "000 $..",
            "001 ..@",
            "Piece 1 2:",
            "*",
            "*",
            "Got (O): [0, 0]",
            "Anfield 3 2:",
            "    012",
            "000 $.@",
            "001 $.@",
            "Piece 2 1:",
            "*.",
        ],
    );
    assert_eq!(steps[7], "Move(Some((0, 0)))");
    assert_eq!(steps[8], "More");
    assert_eq!(steps[14], "Move(Some((0, 0)))");
    assert_eq!(session.board_lines.len(), 4);
    assert_eq!(session.piece_lines, vec!["Piece 2 1:".to_string(), "*.".to_string()]);
}

#[test]
fn session_hands_out_no_move_when_none_is_legal() {
    let mut session = Session::new();
    let steps = feed_all(
        &mut session,
        &["$$$ exec p1 : x", "Anfield 2 2:", "000 @$", "001 $$", "Piece 2 1:", "**"],
    );
    assert_eq!(steps[5], "Move(None)");
    assert_eq!(session.phase, Phase::AwaitBoard);
}

#[test]
fn session_stops_without_a_board() {
    let mut session = Session::new();
    let steps = feed_all(&mut session, &["$$$ exec p1 : x", "Anfield 2 2:", "    01", "Piece 1 1:"]);
    assert_eq!(steps[3], "Stop");
    assert_eq!(session.phase, Phase::Done);
    assert!(matches!(session.feed("*"), Step::Stop));
    assert!(matches!(session.feed("Anfield 2 2:"), Step::Stop));
}

#[test]
fn session_stops_without_a_piece() {
    let mut session = Session::new();
    let steps = feed_all(&mut session, &["$$$ exec p1 : x", "Anfield 2 1:", "000 @.", "Piece 2 1:", ".."]);
    assert_eq!(steps[4], "Stop");
    let mut session = Session::new();
    let steps = feed_all(&mut session, &["$$$ exec p1 : x", "Anfield 2 1:", "000 @.", "Piece 2 0:"]);
    assert_eq!(steps[3], "Stop");
    let mut session = Session::new();
    let steps = feed_all(&mut session, &["$$$ exec p1 : x", "Anfield 2 1:", "000 @.", "Piece two"]);
    assert_eq!(steps[3], "Stop");
    let mut session = Session::new();
    let steps = feed_all(&mut session, &["$$$ exec p1 : x", "Anfield 2 1:", "000 @.", "Piece x 1:", "*"]);
    assert_eq!(steps[3], "More");
    assert_eq!(steps[4], "Stop");
}

#[test]
fn session_stops_on_uneven_rows() {
    let mut session = Session::new();
    let steps = feed_all(&mut session, &["$$$ exec p1 : x", "Anfield 3 2:", "000 @..", "001 ..", "Piece 1 1:"]);
    assert_eq!(steps[4], "Stop");
    assert_eq!(session.phase, Phase::Done);
    assert!(session.board.is_none());
}

#[test]
fn session_gives_up_on_a_board_beyond_the_limit() {
    let mut session = Session::new();
    let wide = format!("000 @{}", ".".repeat(0x10_0000));
    let steps = feed_all(&mut session, &["$$$ exec p1 : x", "Anfield 1048577 1:", &wide, "Piece 1 1:", "*"]);
    assert_eq!(steps[3], "More");
    assert_eq!(steps[4], "Unplayable");
    assert_eq!(session.phase, Phase::Done);
    assert_eq!(session.board.as_ref().unwrap().cols, 0x10_0001);
    let mut session = Session::new();
    let fits = format!("000 @{}", ".".repeat(0x10_0000 - 1));
    let steps = feed_all(&mut session, &["$$$ exec p1 : x", "Anfield 1048576 1:", &fits, "Piece 1 1:", "*"]);
    assert_eq!(steps[4], "Move(Some((0, 0)))");
}

#[test]
fn session_takes_rows_as_the_header_announces() {
    let mut session = Session::new();
    let steps = feed_all(
        &mut session,
        &["$$$ exec p1 : x", "Anfield 3 3:", "000 @..", "001 ...", "002 ...", "Piece 2 3:", "*.", "*.", "**"],
    );
    assert_eq!(steps[6], "More");
    assert_eq!(steps[7], "More");
    assert_eq!(steps[8], "Move(Some((0, 0)))");
    assert_eq!(session.rows_left, 1);
}

#[test]
fn headers_are_told_by_their_first_word() {
    assert!(Board::is_header("Anfield 20 15:"));
    assert!(Board::is_header("   Anfieldish"));
    assert!(!Board::is_header("the Anfield"));
    assert!(!Board::is_header("Anfiel"));
    assert!(!Board::is_header(""));
    assert!(Piece::is_header("Piece 2 2:"));
    assert!(Piece::is_header("\tPieces"));
    assert!(!Piece::is_header("A Piece"));
    assert!(!Piece::is_header("piece 2 2:"));
}

#[test]
fn rows_that_a_header_announces() {
    assert_eq!(Piece::rows_announced("Piece 3 5:"), 5);
    assert_eq!(Piece::rows_announced("  Piece  3   12:::  "), 12);
    assert_eq!(Piece::rows_announced("Piece x 4"), 4);
    assert_eq!(Piece::rows_announced("Piece 3 +7:"), 7);
    assert_eq!(Piece::rows_announced("Piece 3"), 0);
    assert_eq!(Piece::rows_announced("Piece 3 y:"), 0);
    assert_eq!(Piece::rows_announced("Piece 3 :"), 0);
    assert_eq!(Piece::rows_announced("Piece 3 5 :"), 5);
    assert_eq!(Piece::rows_announced("Piece 3 99999999999999999999999:"), 0);
    assert_eq!(Piece::rows_announced(""), 0);
}

#[test]
fn board_answers_for_its_cells() {
    let board = Board {
        rows: 2,
        cols: 3,
        cells: vec![
            vec![Owner::Me, Owner::Empty, Owner::Opponent],
            vec![Owner::Empty, Owner::Empty, Owner::Empty],
        ],
    };
    assert_eq!(board.dimensions(), (2, 3));
    assert_eq!(board.owner_at(0, 0), Some(Owner::Me));
    assert_eq!(board.owner_at(0, 2), Some(Owner::Opponent));
    assert_eq!(board.owner_at(1, 1), Some(Owner::Empty));
    assert_eq!(board.owner_at(2, 0), None);
    assert_eq!(board.owner_at(0, 3), None);
    assert_eq!(board.owner_at(usize::MAX, usize::MAX), None);
}
