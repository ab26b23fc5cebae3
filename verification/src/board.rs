//! The board: who holds which cell, and how a board is read from the lines
//! of a board block.

use vstd::prelude::*;
use crate::text::{CharClass, begins_at, find, has_prefix, scan, texts, to_chars};

verus! {

/// Largest number of rows or columns the engine's arithmetic is proved for.
pub const MAX_DIM: usize = 0x10_0000;

/// Who holds a cell of the board.
#[derive(Clone, Copy, Debug, PartialEq, Eq, Structural)]
pub enum Owner {
    Empty,
    Me,
    Opponent,
}

/// A board as a mathematical value: one sequence of owners per row.
pub type Grid = Seq<Seq<Owner>>;

/// `(y, x)` names a cell of `g`.
pub open spec fn in_grid(g: Grid, y: int, x: int) -> bool {
    0 <= y < g.len() && 0 <= x < g[y].len()
}

/// `(y, x)` names a cell of `g` that `who` holds.
pub open spec fn held_by(g: Grid, y: int, x: int, who: Owner) -> bool {
    in_grid(g, y, x) && g[y][x] == who
}

/// The other player; `Empty` has no other side and stays as it is.
pub open spec fn spec_opposite(who: Owner) -> Owner {
    match who {
        Owner::Empty => Owner::Empty,
        Owner::Me => Owner::Opponent,
        Owner::Opponent => Owner::Me,
    }
}

impl Owner {
    /// The other player; `Empty` stays `Empty`.
    pub fn opposite(self) -> (other: Owner)
        ensures
            other == spec_opposite(self),
    {
        match self {
            Owner::Empty => Owner::Empty,
            Owner::Me => Owner::Opponent,
            Owner::Opponent => Owner::Me,
        }
    }
}

/// The board of a turn: `rows` by `cols` cells, held row by row.
pub struct Board {
    pub rows: usize,
    pub cols: usize,
    pub cells: Vec<Vec<Owner>>,
}

impl Board {
    /// The cells as a mathematical grid.
    pub open spec fn grid(&self) -> Grid {
        Seq::new(self.cells@.len(), |y: int| self.cells@[y]@)
    }

    /// The board is a rectangle of `rows` by `cols` cells.
    pub open spec fn wf(&self) -> bool {
        &&& self.cells@.len() == self.rows
        &&& forall|y: int| 0 <= y < self.cells@.len() ==> (#[trigger] self.cells@[y])@.len() == self.cols
    }

    /// The board is a rectangle small enough for the engine's arithmetic.
    pub open spec fn playable(&self) -> bool {
        &&& self.wf()
        &&& self.rows <= MAX_DIM
        &&& self.cols <= MAX_DIM
    }

    /// The number of rows and of columns.
    pub fn dimensions(&self) -> (size: (usize, usize))
        ensures
            size == (self.rows, self.cols),
    {
        (self.rows, self.cols)
    }

    /// Who holds the cell `(y, x)`; `None` when the board has no such cell.
    pub fn owner_at(&self, y: usize, x: usize) -> (owner: Option<Owner>)
        ensures
            owner == (if in_grid(self.grid(), y as int, x as int) {
                Some(self.grid()[y as int][x as int])
            } else {
                None
            }),
    {
        if y < self.cells.len() && x < self.cells[y].len() {
            Some(self.cells[y][x])
        } else {
            None
        }
    }

    /// Tells whether every row has exactly `cols` cells and there are `rows` of them.
    pub fn is_well_formed(&self) -> (ok: bool)
        ensures
            ok == self.wf(),
    {
        if self.cells.len() != self.rows {
            return false;
        }
        let mut y: usize = 0;
        while y < self.cells.len()
            invariant
                y <= self.cells@.len(),
                forall|k: int| 0 <= k < y ==> (#[trigger] self.cells@[k])@.len() == self.cols,
            decreases self.cells@.len() - y,
        {
            if self.cells[y].len() != self.cols {
                return false;
            }
            y += 1;
        }
        true
    }

    /// Tells whether the board is well formed and within `MAX_DIM` both ways.
    pub fn is_playable(&self) -> (ok: bool)
        ensures
            ok == self.playable(),
    {
        self.is_well_formed() && self.rows <= MAX_DIM && self.cols <= MAX_DIM
    }
}

/// What a board character stands for, seen by player `my_player`.
pub open spec fn spec_classify_char(c: char, my_player: u8) -> Owner {
    if c == '@' || c == 'a' {
        if my_player == 1 {
            Owner::Me
        } else {
            Owner::Opponent
        }
    } else if c == '$' || c == 's' {
        if my_player == 2 {
            Owner::Me
        } else {
            Owner::Opponent
        }
    } else {
        Owner::Empty
    }
}

/// Player 1 is drawn with `@` and `a`, player 2 with `$` and `s`; every
/// other character is an empty cell.
pub fn classify_char(c: char, my_player: u8) -> (owner: Owner)
    ensures
        owner == spec_classify_char(c, my_player),
{
    match c {
        '.' => Owner::Empty,
        '@' | 'a' => {
            if my_player == 1 {
                Owner::Me
            } else {
                Owner::Opponent
            }
        },
        '$' | 's' => {
            if my_player == 2 {
                Owner::Me
            } else {
                Owner::Opponent
            }
        },
        _ => Owner::Empty,
    }
}

/// The line is the header of a board: its first word begins with `Anfield`.
pub open spec fn is_board_header(line: Seq<char>) -> bool {
    has_prefix(line.skip(scan(line, CharClass::Space, false, 0)), "Anfield"@)
}

/// One of the first `n` lines is a board header.
pub open spec fn header_seen(lines: Seq<Seq<char>>, n: int) -> bool {
    exists|j: int| 0 <= j < n && is_board_header(#[trigger] lines[j])
}

/// The line holds a row of the board: it is no header, and not made of
/// digits and white space alone, as the line of column numbers is.
pub open spec fn is_row_line(line: Seq<char>) -> bool {
    !is_board_header(line) && scan(line, CharClass::DigitOrSpace, false, 0) < line.len()
}

/// The cells that the characters of `line` from `start` up to `n` stand
/// for; spaces between them stand for nothing.
pub open spec fn row_upto(line: Seq<char>, start: int, n: int, my_player: u8) -> Seq<Owner>
    decreases n - start,
{
    if n <= start {
        Seq::empty()
    } else if line[n - 1] == ' ' {
        row_upto(line, start, n - 1, my_player)
    } else {
        row_upto(line, start, n - 1, my_player).push(spec_classify_char(line[n - 1], my_player))
    }
}

/// The row of cells that a line holds, after the row number and the white
/// space that it starts with.
pub open spec fn board_row(line: Seq<char>, my_player: u8) -> Seq<Owner> {
    row_upto(line, scan(line, CharClass::DigitOrSpace, false, 0), line.len() as int, my_player)
}

/// The rows that the first `n` lines hold: one for each row line that
/// comes after a header.
pub open spec fn board_rows_upto(lines: Seq<Seq<char>>, n: int, my_player: u8) -> Grid
    decreases n,
{
    if n <= 0 {
        Seq::empty()
    } else if header_seen(lines, n - 1) && is_row_line(lines[n - 1]) {
        board_rows_upto(lines, n - 1, my_player).push(board_row(lines[n - 1], my_player))
    } else {
        board_rows_upto(lines, n - 1, my_player)
    }
}

/// The rows of cells that the lines hold, of whatever lengths.
pub open spec fn board_rows(lines: Seq<Seq<char>>, my_player: u8) -> Grid {
    board_rows_upto(lines, lines.len() as int, my_player)
}

/// Every row of `g` has `cols` cells.
pub open spec fn rectangular(g: Grid, cols: int) -> bool {
    forall|y: int| 0 <= y < g.len() ==> (#[trigger] g[y]).len() == cols
}

/// The board that the lines describe: the rows that they hold, where there
/// is a row and all rows are as long as the first. `None` for any other block.
pub open spec fn spec_board(lines: Seq<Seq<char>>, my_player: u8) -> Option<Grid> {
    let rows = board_rows(lines, my_player);
    if rows.len() > 0 && rectangular(rows, rows[0].len() as int) {
        Some(rows)
    } else {
        None
    }
}

/// A row that starts on a character other than the space has a cell.
pub proof fn lemma_row_has_cell(line: Seq<char>, start: int, n: int, my_player: u8)
    requires
        0 <= start < n <= line.len(),
        line[start] != ' ',
    ensures
        row_upto(line, start, n, my_player).len() > 0,
    decreases n - start,
{
    if n - 1 > start {
        lemma_row_has_cell(line, start, n - 1, my_player);
    }
}

/// Reads the row of cells that a row line holds.
fn read_row(text: &Vec<char>, my_player: u8) -> (row: Vec<Owner>)
    ensures
        row@ == board_row(text@, my_player),
{
    let start = find(text, CharClass::DigitOrSpace, false, 0);
    let mut row: Vec<Owner> = Vec::new();
    let mut i: usize = start;
    while i < text.len()
        invariant
            start <= i <= text@.len(),
            row@ == row_upto(text@, start as int, i as int, my_player),
        decreases text@.len() - i,
    {
        let ch = text[i];
        if ch != ' ' {
            row.push(classify_char(ch, my_player));
        }
        i += 1;
    }
    row
}

impl Board {
    /// Tells whether the line is the header of a board block.
    pub fn is_header(line: &str) -> (yes: bool)
        ensures
            yes == is_board_header(line@),
    {
        let text = to_chars(line);
        let prefix = to_chars("Anfield");
        let first = find(&text, CharClass::Space, false, 0);
        begins_at(&text, first, &prefix)
    }

    /// Builds a board from the lines of a board block, such as
    ///
    /// ```text
    /// Anfield 4 2:
    ///     0123
    /// 000 ..@.
    /// 001 .$..
    /// ```
    ///
    /// Lines before the header, blank lines and the line of column numbers
    /// are passed over. `None` when no row is found, or when the rows are
    /// not all of one length: a board is a rectangle.
    pub fn from_anfield_lines(lines: &[String], my_player: u8) -> (board: Option<Board>)
        ensures
            match board {
                None => spec_board(texts(lines@), my_player) is None,
                Some(b) => spec_board(texts(lines@), my_player) == Some(b.grid()) && b.wf() && b.rows
                    > 0 && b.cols > 0,
            },
    {
        let ghost all = texts(lines@);
        let prefix = to_chars("Anfield");
        let mut grid: Vec<Vec<Owner>> = Vec::new();
        let mut seen_header = false;
        let mut i: usize = 0;
        while i < lines.len()
            invariant
                i <= lines@.len(),
                all == texts(lines@),
                prefix@ == "Anfield"@,
                seen_header == header_seen(all, i as int),
                grid@.len() == board_rows_upto(all, i as int, my_player).len(),
                forall|y: int|
                    0 <= y < grid@.len() ==> (#[trigger] grid@[y])@ == board_rows_upto(
                        all,
                        i as int,
                        my_player,
                    )[y],
                forall|y: int| 0 <= y < grid@.len() ==> (#[trigger] grid@[y])@.len() > 0,
            decreases lines@.len() - i,
        {
            let text = to_chars(lines[i].as_str());
            assert(all[i as int] == text@);
            let first = find(&text, CharClass::Space, false, 0);
            let is_header = begins_at(&text, first, &prefix);
            let ghost was_seen = seen_header;
            if is_header {
                seen_header = true;
            } else if seen_header {
                let cells_from = find(&text, CharClass::DigitOrSpace, false, 0);
                if cells_from < text.len() {
                    let row = read_row(&text, my_player);
                    proof {
                        lemma_row_has_cell(text@, cells_from as int, text@.len() as int, my_player);
                    }
                    grid.push(row);
                }
            }
            proof {
                if is_header {
                    assert(is_board_header(all[i as int]));
                } else if was_seen {
                    let j = choose|j: int| 0 <= j < i && is_board_header(#[trigger] all[j]);
                    assert(0 <= j < i + 1 && is_board_header(all[j]));
                } else {
                    assert forall|j: int| 0 <= j < i + 1 implies !is_board_header(
                        #[trigger] all[j],
                    ) by {}
                }
            }
            i += 1;
        }
        if grid.len() == 0 {
            return None;
        }
        let rows = grid.len();
        let cols = grid[0].len();
        let board = Board { rows, cols, cells: grid };
        proof {
            assert(board.grid() =~= board_rows(all, my_player));
            assert forall|y: int| 0 <= y < board.grid().len() implies (#[trigger] board.grid()[y]).len()
                == board.cells@[y]@.len() by {}
        }
        if !board.is_well_formed() {
            proof {
                let y = choose|y: int|
                    0 <= y < board.cells@.len() && (#[trigger] board.cells@[y])@.len() != board.cols;
                assert(board.grid()[y].len() != board.grid()[0].len());
            }
            return None;
        }
        proof {
            assert forall|y: int| 0 <= y < board.grid().len() implies (#[trigger] board.grid()[y]).len()
                == board.grid()[0].len() by {
                assert(board.cells@[y]@.len() == board.cols);
            }
        }
        Some(board)
    }
}

} // verus!
