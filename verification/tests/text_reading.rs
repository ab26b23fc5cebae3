use filler::board::{classify_char, Board, Owner};
use filler::parser::parse_player_number;
use filler::piece::Piece;
use filler::text::{char_in_class, char_is_space, find, find_back, parse_number, to_chars, CharClass};

fn lines(text: &[&str]) -> Vec<String> {
    text.iter().map(|l| l.to_string()).collect()
}

fn expected_player(line: &str) -> Option<u8> {
    let trimmed = line.trim();
    let rest = trimmed.strip_prefix("$$$ exec p")?;
    let colon = rest.find(':')?;
    match rest[..colon].trim().parse::<u8>() {
        Ok(n) if n == 1 || n == 2 => Some(n),
        _ => None,
    }
}

#[test]
fn white_space_is_what_std_calls_white_space() {
    for code in 0u32..=0x10FFFF {
        if let Some(c) = char::from_u32(code) {
            assert_eq!(char_is_space(c), c.is_whitespace(), "U+{:04X}", code);
        }
    }
}

#[test]
fn classes_of_characters() {
    assert!(char_in_class('7', CharClass::DigitOrSpace));
    assert!(char_in_class('\t', CharClass::DigitOrSpace));
    assert!(!char_in_class('.', CharClass::DigitOrSpace));
    assert!(!char_in_class('7', CharClass::Space));
    assert!(char_in_class(':', CharClass::Colon));
    assert!(!char_in_class(';', CharClass::Colon));
}

#[test]
fn to_chars_keeps_every_character() {
    assert_eq!(to_chars("a\u{e9}\u{3000}z"), vec!['a', '\u{e9}', '\u{3000}', 'z']);
    assert_eq!(to_chars(""), Vec::<char>::new());
}

#[test]
fn find_stops_at_the_first_match() {
    let text = to_chars("  12 ab  ");
    assert_eq!(find(&text, CharClass::Space, false, 0), 2);
    assert_eq!(find(&text, CharClass::Space, true, 2), 4);
    assert_eq!(find(&text, CharClass::DigitOrSpace, false, 0), 5);
    assert_eq!(find(&text, CharClass::Colon, true, 0), 9);
    assert_eq!(find_back(&text, CharClass::Space, 9), 7);
    assert_eq!(find_back(&text, CharClass::Space, 2), 0);
}

#[test]
fn numbers_read_as_std_reads_them() {
    let samples = [
        "0", "7", "42", "+42", "007", "+", "", "-1", "4 2", "12a", " 12", "12 ", "++1", "1_000",
        "18446744073709551615", "18446744073709551616", "99999999999999999999999999",
        "\u{661}\u{662}",
    ];
    for s in samples {
        let text = to_chars(s);
        assert_eq!(parse_number(&text, 0, text.len()), s.parse::<usize>().ok(), "{:?}", s);
    }
    let text = to_chars("ab123cd");
    assert_eq!(parse_number(&text, 2, 5), Some(123));
    assert_eq!(parse_number(&text, 2, 2), None);
}

#[test]
fn player_number_of_the_exec_line() {
    assert_eq!(parse_player_number("$$$ exec p1 : [./player]"), Some(1));
    assert_eq!(parse_player_number("$$$ exec p2 : [./other]"), Some(2));
    assert_eq!(parse_player_number("  $$$ exec p2:x  "), Some(2));
    assert_eq!(parse_player_number("$$$ exec p 1 :"), Some(1));
    assert_eq!(parse_player_number("$$$ exec p+2 :"), Some(2));
    assert_eq!(parse_player_number("$$$ exec p002 :"), Some(2));
}

#[test]
fn player_number_refuses_other_lines() {
    assert_eq!(parse_player_number("$$$ exec p3 : [./player]"), None);
    assert_eq!(parse_player_number("$$$ exec p0 :"), None);
    assert_eq!(parse_player_number("$$$ exec p1"), None);
    assert_eq!(parse_player_number("$$$ exec p : 1"), None);
    assert_eq!(parse_player_number("$$$ exec q1 :"), None);
    assert_eq!(parse_player_number("hello $$$ exec p1 :"), None);
    assert_eq!(parse_player_number("$$$ exec p1 2 :"), None);
    assert_eq!(parse_player_number("$$$ exec p256 :"), None);
    assert_eq!(parse_player_number(""), None);
    assert_eq!(parse_player_number("   "), None);
    assert_eq!(parse_player_number("$$$ exec p"), None);
}

#[test]
fn player_number_agrees_with_std_on_many_lines() {
    let heads = ["", " ", "\t", "x"];
    let prefixes = ["$$$ exec p", "$$$ exec  p", "$$$ exec", "$$ exec p"];
    let numbers = ["1", "2", "3", " 1", "2 ", "+1", "01", "", "1a", "12", "-1", "\u{a0}2"];
    let tails = [":", " :", " : [./p]", "", ":1:", " x"];
    for h in heads {
        for p in prefixes {
            for n in numbers {
                for t in tails {
                    let line = format!("{}{}{}{}", h, p, n, t);
                    assert_eq!(parse_player_number(&line), expected_player(&line), "{:?}", line);
                }
            }
        }
    }
}

#[test]
fn characters_of_the_board() {
    assert_eq!(classify_char('.', 1), Owner::Empty);
    assert_eq!(classify_char('@', 1), Owner::Me);
    assert_eq!(classify_char('a', 1), Owner::Me);
    assert_eq!(classify_char('$', 1), Owner::Opponent);
    assert_eq!(classify_char('s', 1), Owner::Opponent);
    assert_eq!(classify_char('@', 2), Owner::Opponent);
    assert_eq!(classify_char('a', 2), Owner::Opponent);
    assert_eq!(classify_char('$', 2), Owner::Me);
    assert_eq!(classify_char('s', 2), Owner::Me);
    assert_eq!(classify_char('x', 1), Owner::Empty);
    assert_eq!(classify_char('@', 3), Owner::Opponent);
    assert_eq!(classify_char('$', 3), Owner::Opponent);
}

#[test]
fn board_from_a_block() {
    let block = lines(&["noise", "Anfield 4 3:", "    0123", "000 ..@.", "001 .$..", "", "002 a..s"]);
    let board = Board::from_anfield_lines(&block, 1).unwrap();
    assert_eq!(board.rows, 3);
    assert_eq!(board.cols, 4);
    assert_eq!(
        board.cells,
        vec![
            vec![Owner::Empty, Owner::Empty, Owner::Me, Owner::Empty],
            vec![Owner::Empty, Owner::Opponent, Owner::Empty, Owner::Empty],
            vec![Owner::Me, Owner::Empty, Owner::Empty, Owner::Opponent],
        ]
    );
    assert!(board.is_well_formed());
    assert!(board.is_playable());
    let other = Board::from_anfield_lines(&block, 2).unwrap();
    assert_eq!(other.cells[0][2], Owner::Opponent);
    assert_eq!(other.cells[1][1], Owner::Me);
}

#[test]
fn board_rows_before_the_header_are_passed_over() {
    let block = lines(&["000 ..@.", "Anfield 4 1:", "000 .@.."]);
    let board = Board::from_anfield_lines(&block, 1).unwrap();
    assert_eq!(board.rows, 1);
    assert_eq!(board.cells, vec![vec![Owner::Empty, Owner::Me, Owner::Empty, Owner::Empty]]);
}

#[test]
fn board_cells_may_be_spaced_out() {
    let block = lines(&["Anfield 3 1:", "000 . @ $"]);
    let board = Board::from_anfield_lines(&block, 1).unwrap();
    assert_eq!(board.cells, vec![vec![Owner::Empty, Owner::Me, Owner::Opponent]]);
    assert_eq!(board.cols, 3);
}

#[test]
fn board_without_rows_is_none() {
    assert!(Board::from_anfield_lines(&[], 1).is_none());
    assert!(Board::from_anfield_lines(&lines(&["Anfield 4 3:"]), 1).is_none());
    assert!(Board::from_anfield_lines(&lines(&["Anfield 4 3:", "   0123", "  "]), 1).is_none());
    assert!(Board::from_anfield_lines(&lines(&["000 ..@."]), 1).is_none());
}

#[test]
fn board_with_uneven_rows_is_none() {
    assert!(Board::from_anfield_lines(&lines(&["Anfield 4 2:", "000 ..@.", "001 .$"]), 1).is_none());
    assert!(Board::from_anfield_lines(&lines(&["Anfield 2 2:", "000 ..", "001 ."]), 1).is_none());
    assert!(Board::from_anfield_lines(&lines(&["Anfield 2 2:", "000 .", "001 .."]), 1).is_none());
    assert!(Board::from_anfield_lines(&lines(&["Anfield 2 3:", "000 ..", "001 ..", "002 ..."]), 1).is_none());
    let even = Board::from_anfield_lines(&lines(&["Anfield 2 2:", "000 ..", "001 . ."]), 1).unwrap();
    assert_eq!((even.rows, even.cols), (2, 2));
}

#[test]
fn boards_that_are_read_are_rectangles() {
    let block = lines(&["Anfield 3 2:", "000 .@.", "001 $.."]);
    let board = Board::from_anfield_lines(&block, 2).unwrap();
    assert!(board.is_well_formed());
    assert!(board.is_playable());
    assert_eq!(board.cells.len(), board.rows);
    assert!(board.cells.iter().all(|row| row.len() == board.cols));
}

#[test]
fn piece_from_a_block() {
    let block = lines(&["Piece 5 3:", "..*..", ".***.", "..*.."]);
    let piece = Piece::from_piece_lines(&block).unwrap();
    assert_eq!(piece.width, 5);
    assert_eq!(piece.height, 3);
    assert_eq!(piece.cells, vec![(0, 2), (1, 1), (1, 2), (1, 3), (2, 2)]);
    assert!(piece.is_well_formed());
}

#[test]
fn piece_takes_letters_for_filled_cells() {
    let block = lines(&["  Piece 2 2:", "O.", ".o"]);
    let piece = Piece::from_piece_lines(&block).unwrap();
    assert_eq!(piece.cells, vec![(0, 0), (1, 1)]);
    assert_eq!((piece.width, piece.height), (2, 2));
}

#[test]
fn piece_is_widened_by_a_long_row() {
    let block = lines(&["Piece 2 2:", "*...", ".*"]);
    let piece = Piece::from_piece_lines(&block).unwrap();
    assert_eq!(piece.width, 4);
    assert_eq!(piece.height, 2);
}

#[test]
fn piece_stops_at_the_height_of_the_header() {
    let block = lines(&["Piece 2 1:", "*.", ".*"]);
    let piece = Piece::from_piece_lines(&block).unwrap();
    assert_eq!(piece.height, 1);
    assert_eq!(piece.cells, vec![(0, 0)]);
    let unlimited = lines(&["Piece 2 0:", "*.", "", ".*"]);
    let piece = Piece::from_piece_lines(&unlimited).unwrap();
    assert_eq!(piece.height, 2);
    assert_eq!(piece.cells, vec![(0, 0), (1, 1)]);
}

#[test]
fn piece_may_have_fewer_rows_than_the_header_says() {
    let block = lines(&["Piece 3 4:", "***", "  "]);
    let piece = Piece::from_piece_lines(&block).unwrap();
    assert_eq!(piece.height, 1);
    assert_eq!(piece.width, 3);
}

#[test]
fn piece_that_cannot_be_read_is_none() {
    assert!(Piece::from_piece_lines(&[]).is_none());
    assert!(Piece::from_piece_lines(&lines(&["*.", ".*"])).is_none());
    assert!(Piece::from_piece_lines(&lines(&["Piece 2:", "*."])).is_none());
    assert!(Piece::from_piece_lines(&lines(&["Piece x 2:", "*."])).is_none());
    assert!(Piece::from_piece_lines(&lines(&["Piece 2 y:", "*."])).is_none());
    assert!(Piece::from_piece_lines(&lines(&["Piece 2 2:"])).is_none());
    assert!(Piece::from_piece_lines(&lines(&["Piece 2 2:", "..", ".."])).is_none());
    assert!(Piece::from_piece_lines(&lines(&["Piece 2 :", "*."])).is_none());
}

#[test]
fn piece_header_is_the_first_one() {
    let block = lines(&["junk", "Piece 1 1:", "*", "Piece 2 2:", "**"]);
    let piece = Piece::from_piece_lines(&block).unwrap();
    assert_eq!((piece.width, piece.height), (1, 1));
    assert_eq!(piece.cells, vec![(0, 0)]);
}

struct Dice(u64);

impl Dice {
    fn roll(&mut self, sides: usize) -> usize {
        self.0 ^= self.0 << 13;
        self.0 ^= self.0 >> 7;
        self.0 ^= self.0 << 17;
        (self.0 % sides as u64) as usize
    }

    fn line(&mut self, words: &[&str], most: usize) -> String {
        let mut line = String::new();
        for _ in 0..self.roll(most + 1) {
            line.push_str(words[self.roll(words.len())]);
        }
        line
    }
}

fn expected_piece(lines: &[String]) -> Option<(usize, usize, Vec<(usize, usize)>)> {
    let at = lines.iter().position(|l| l.trim_start().starts_with("Piece"))?;
    let words: Vec<&str> = lines[at].split_whitespace().collect();
    if words.len() < 3 {
        return None;
    }
    let width: usize = words[1].parse().ok()?;
    let height: usize = words[2].trim_end_matches(':').parse().ok()?;
    let mut rows: Vec<&str> = Vec::new();
    for line in &lines[at + 1..] {
        let row = line.trim_end();
        if !row.is_empty() {
            rows.push(row);
            if rows.len() == height {
                break;
            }
        }
    }
    let mut widest = width;
    let mut cells = Vec::new();
    for (y, row) in rows.iter().enumerate() {
        widest = widest.max(row.chars().count());
        for (x, c) in row.chars().enumerate() {
            if "*Oo".contains(c) {
                cells.push((y, x));
            }
        }
    }
    if cells.is_empty() {
        None
    } else {
        Some((widest, rows.len(), cells))
    }
}

fn expected_board(lines: &[String], me: u8) -> Option<Vec<Vec<Owner>>> {
    let mut rows = Vec::new();
    let mut seen = false;
    for line in lines {
        let inner = line.trim();
        if inner.starts_with("Anfield") {
            seen = true;
        } else if seen && !inner.chars().all(|c| c.is_ascii_digit() || c.is_whitespace()) {
            let row: Vec<Owner> = line
                .chars()
                .skip_while(|c| c.is_ascii_digit() || c.is_whitespace())
                .filter(|&c| c != ' ')
                .map(|c| classify_char(c, me))
                .collect();
            if !row.is_empty() {
                rows.push(row);
            }
        }
    }
    if rows.is_empty() || rows.iter().any(|row| row.len() != rows[0].len()) {
        None
    } else {
        Some(rows)
    }
}

#[test]
fn pieces_agree_with_std_on_many_blocks() {
    let mut dice = Dice(0xC2B2AE3D27D4EB4F);
    let header = ["Piece", " ", "  ", "3", "2", "1:", "2:", "0", ":", "+2", "x", "\t", "\u{a0}", "02::"];
    let row = ["*", ".", "O", "o", " ", "\t", "#", "\u{2003}", "\u{e9}", "**", ".."];
    for _ in 0..3000 {
        let mut block = Vec::new();
        for _ in 0..dice.roll(6) {
            if dice.roll(3) == 0 {
                block.push(dice.line(&header, 6));
            } else {
                block.push(dice.line(&row, 5));
            }
        }
        let got = Piece::from_piece_lines(&block).map(|p| {
            assert!(p.is_well_formed());
            (p.width, p.height, p.cells)
        });
        assert_eq!(got, expected_piece(&block), "{:?}", block);
        for line in &block {
            assert_eq!(Piece::is_header(line), line.trim_start().starts_with("Piece"), "{:?}", line);
        }
    }
}

#[test]
fn boards_agree_with_std_on_many_blocks() {
    let mut dice = Dice(0x165667B19E3779F9);
    let words = [
        "Anfield", "000", "001", " ", "  ", ".", "@", "$", "a", "s", "x", "12", "\t", "\u{a0}", "\u{3000}", ":",
        "..", "@.", "\u{e9}",
    ];
    for _ in 0..3000 {
        let mut block = Vec::new();
        for _ in 0..dice.roll(7) {
            block.push(dice.line(&words, 6));
        }
        let me = 1 + dice.roll(2) as u8;
        let got = Board::from_anfield_lines(&block, me);
        let expected = expected_board(&block, me);
        match (&got, &expected) {
            (Some(board), Some(rows)) => {
                assert_eq!(&board.cells, rows, "{:?}", block);
                assert_eq!(board.rows, rows.len());
                assert_eq!(board.cols, rows[0].len());
                assert!(board.is_well_formed());
            }
            (None, None) => {}
            _ => panic!("{:?}", block),
        }
        for line in &block {
            assert_eq!(Board::is_header(line), line.trim_start().starts_with("Anfield"), "{:?}", line);
        }
    }
}

#[test]
fn announced_rows_agree_with_std_on_many_headers() {
    let mut dice = Dice(0x27D4EB2F165667C5);
    let header = ["Piece", " ", "  ", "3", "2", "1:", "2:", "0", ":", "+2", "x", "\t", "\u{a0}", "02::", "7"];
    for _ in 0..3000 {
        let line = dice.line(&header, 7);
        let words: Vec<&str> = line.split_whitespace().collect();
        let expected = if words.len() >= 3 {
            words[2].trim_end_matches(':').parse::<usize>().unwrap_or(0)
        } else {
            0
        };
        assert_eq!(Piece::rows_announced(&line), expected, "{:?}", line);
    }
}
