//! The piece: its filled cells, and how a piece is read from the lines of a
//! piece block.

use vstd::prelude::*;
use crate::text::{
    CharClass,
    begins_at,
    between,
    decimal_value,
    find,
    find_back,
    has_prefix,
    next_word,
    parse_number,
    row_texts,
    scan,
    scan_back,
    texts,
    to_chars,
    word_at,
};

verus! {

/// Largest number of filled cells the engine's arithmetic is proved for.
pub const MAX_CELLS: usize = 0xFFFF_FFFF;

/// The piece of a turn: its bounding box and its filled cells.
pub struct Piece {
    pub width: usize,
    pub height: usize,
    /// Coordinates `(dy, dx)` of filled cells relative to the top-left of the piece.
    pub cells: Vec<(usize, usize)>,
}

impl Piece {
    /// Every filled cell lies inside the `height` by `width` bounding box.
    pub open spec fn wf(&self) -> bool {
        forall|i: int|
            0 <= i < self.cells@.len() ==> (#[trigger] self.cells@[i]).0 < self.height
                && self.cells@[i].1 < self.width
    }

    /// Tells whether every filled cell lies inside the bounding box.
    pub fn is_well_formed(&self) -> (ok: bool)
        ensures
            ok == self.wf(),
    {
        let mut i: usize = 0;
        while i < self.cells.len()
            invariant
                i <= self.cells@.len(),
                forall|k: int|
                    0 <= k < i ==> (#[trigger] self.cells@[k]).0 < self.height
                        && self.cells@[k].1 < self.width,
            decreases self.cells@.len() - i,
        {
            let (dy, dx) = self.cells[i];
            if dy >= self.height || dx >= self.width {
                return false;
            }
            i += 1;
        }
        true
    }
}

/// The line is the header of a piece: its first word begins with `Piece`.
pub open spec fn is_piece_header(line: Seq<char>) -> bool {
    has_prefix(line.skip(scan(line, CharClass::Space, false, 0)), "Piece"@)
}

/// The place of the first piece header at or after `from`; the number of
/// lines when there is none.
pub open spec fn first_piece_header(lines: Seq<Seq<char>>, from: int) -> int
    decreases lines.len() - from,
{
    if from >= lines.len() {
        lines.len() as int
    } else if is_piece_header(lines[from]) {
        from
    } else {
        first_piece_header(lines, from + 1)
    }
}

/// The width and the height that a header such as `Piece 3 5:` gives: its
/// second word is the width, its third word, colons at its end apart, the
/// height. `None` when the header has fewer than three words or either
/// number cannot be read into a `usize`.
pub open spec fn header_sizes(line: Seq<char>) -> Option<(usize, usize)> {
    let first = next_word(line, 0);
    let second = next_word(line, first.1);
    let third = next_word(line, second.1);
    if third.0 >= line.len() {
        None
    } else {
        match (
            decimal_value(between(line, second.0, second.1)),
            decimal_value(between(line, third.0, scan_back(line, CharClass::Colon, third.1))),
        ) {
            (Some(width), Some(height)) => if width <= usize::MAX && height <= usize::MAX {
                Some((width as usize, height as usize))
            } else {
                None
            },
            _ => None,
        }
    }
}

/// The number of pattern rows that a header announces: its third word,
/// colons at its end apart, read as a number; 0 when there is no such word
/// or it cannot be read into a `usize`.
pub open spec fn announced_rows(line: Seq<char>) -> usize {
    let first = next_word(line, 0);
    let second = next_word(line, first.1);
    let third = next_word(line, second.1);
    if third.0 >= line.len() {
        0
    } else {
        match decimal_value(between(line, third.0, scan_back(line, CharClass::Colon, third.1))) {
            Some(height) => if height <= usize::MAX {
                height as usize
            } else {
                0
            },
            None => 0,
        }
    }
}

/// The line holds white space only.
pub open spec fn is_blank(line: Seq<char>) -> bool {
    scan_back(line, CharClass::Space, line.len() as int) == 0
}

/// The line without the white space at its end.
pub open spec fn trimmed_end(line: Seq<char>) -> Seq<char> {
    line.take(scan_back(line, CharClass::Space, line.len() as int))
}

/// The rows of the pattern found in the lines from `start` up to `n`: each
/// line that is not blank, without the white space at its end, until
/// `limit` rows are found. A `limit` of 0 sets no limit.
pub open spec fn pattern_upto(lines: Seq<Seq<char>>, start: int, n: int, limit: int) -> Seq<Seq<char>>
    decreases n - start,
{
    if n <= start {
        Seq::empty()
    } else {
        let rows = pattern_upto(lines, start, n - 1, limit);
        if (rows.len() > 0 && rows.len() == limit) || is_blank(lines[n - 1]) {
            rows
        } else {
            rows.push(trimmed_end(lines[n - 1]))
        }
    }
}

/// The character marks a filled cell.
pub open spec fn is_filled(c: char) -> bool {
    c == '*' || c == 'O' || c == 'o'
}

/// The filled cells among the first `n` characters of row `y`, from left to right.
pub open spec fn filled_in_row(row: Seq<char>, y: int, n: int) -> Seq<(usize, usize)>
    decreases n,
{
    if n <= 0 {
        Seq::empty()
    } else if is_filled(row[n - 1]) {
        filled_in_row(row, y, n - 1).push((y as usize, (n - 1) as usize))
    } else {
        filled_in_row(row, y, n - 1)
    }
}

/// The filled cells of the first `r` rows, row by row.
pub open spec fn filled_in_rows(rows: Seq<Seq<char>>, r: int) -> Seq<(usize, usize)>
    decreases r,
{
    if r <= 0 {
        Seq::empty()
    } else {
        filled_in_rows(rows, r - 1) + filled_in_row(rows[r - 1], r - 1, rows[r - 1].len() as int)
    }
}

/// The length of the longest of the first `r` rows, and at least `floor`.
pub open spec fn widest(rows: Seq<Seq<char>>, r: int, floor: int) -> int
    decreases r,
{
    if r <= 0 {
        floor
    } else if rows[r - 1].len() > widest(rows, r - 1, floor) {
        rows[r - 1].len() as int
    } else {
        widest(rows, r - 1, floor)
    }
}

/// The piece that the lines describe, as width, height and filled cells.
/// The first header line gives the sizes; the pattern follows it, at most
/// as many rows as the height says. The piece is as high as the pattern has
/// rows and as wide as the header says or, if a row is longer, as that row.
/// `None` when there is no header, the sizes cannot be read, or no cell is filled.
pub open spec fn spec_piece(lines: Seq<Seq<char>>) -> Option<(int, int, Seq<(usize, usize)>)> {
    let header = first_piece_header(lines, 0);
    if header >= lines.len() {
        None
    } else {
        match header_sizes(lines[header]) {
            None => None,
            Some(sizes) => {
                let rows = pattern_upto(lines, header + 1, lines.len() as int, sizes.1 as int);
                let cells = filled_in_rows(rows, rows.len() as int);
                if cells.len() == 0 {
                    None
                } else {
                    Some((widest(rows, rows.len() as int, sizes.0 as int), rows.len() as int, cells))
                }
            },
        }
    }
}

/// Once the pattern is full, further lines add nothing.
pub proof fn lemma_pattern_full(lines: Seq<Seq<char>>, start: int, n: int, m: int, limit: int)
    requires
        start <= n <= m,
        pattern_upto(lines, start, n, limit).len() > 0,
        pattern_upto(lines, start, n, limit).len() == limit,
    ensures
        pattern_upto(lines, start, m, limit) == pattern_upto(lines, start, n, limit),
    decreases m - n,
{
    if m > n {
        lemma_pattern_full(lines, start, n, m - 1, limit);
    }
}

/// The filled cells of a row lie in that row, within its length.
pub proof fn lemma_filled_in_row(row: Seq<char>, y: int, n: int, k: int)
    requires
        0 <= y <= usize::MAX,
        0 <= n <= row.len() <= usize::MAX,
        0 <= k < filled_in_row(row, y, n).len(),
    ensures
        filled_in_row(row, y, n)[k].0 == y,
        filled_in_row(row, y, n)[k].1 < n,
    decreases n,
{
    if n > 0 {
        let rest = filled_in_row(row, y, n - 1);
        if k < rest.len() {
            lemma_filled_in_row(row, y, n - 1, k);
        }
    }
}

/// The filled cells of the first `r` rows lie in those rows, each within
/// the length of its row.
pub proof fn lemma_filled_in_rows(rows: Seq<Seq<char>>, r: int, k: int)
    requires
        0 <= r <= rows.len() <= usize::MAX,
        forall|y: int| 0 <= y < rows.len() ==> (#[trigger] rows[y]).len() <= usize::MAX,
        0 <= k < filled_in_rows(rows, r).len(),
    ensures
        filled_in_rows(rows, r)[k].0 < r,
        filled_in_rows(rows, r)[k].1 < rows[filled_in_rows(rows, r)[k].0 as int].len(),
    decreases r,
{
    if r > 0 {
        let above = filled_in_rows(rows, r - 1);
        if k < above.len() {
            lemma_filled_in_rows(rows, r - 1, k);
        } else {
            lemma_filled_in_row(rows[r - 1], r - 1, rows[r - 1].len() as int, k - above.len());
        }
    }
}

/// No row among the first `r` is longer than `widest` says.
pub proof fn lemma_widest(rows: Seq<Seq<char>>, r: int, floor: int, y: int)
    requires
        0 <= y < r <= rows.len(),
    ensures
        rows[y].len() <= widest(rows, r, floor),
    decreases r,
{
    if y < r - 1 {
        lemma_widest(rows, r - 1, floor, y);
    }
}

/// Finds the first line that is a piece header.
fn find_piece_header(lines: &[String]) -> (at: usize)
    ensures
        at == first_piece_header(texts(lines@), 0),
        at <= lines@.len(),
{
    let prefix = to_chars("Piece");
    let mut at: usize = 0;
    while at < lines.len()
        invariant
            at <= lines@.len(),
            prefix@ == "Piece"@,
            first_piece_header(texts(lines@), 0) == first_piece_header(texts(lines@), at as int),
        decreases lines@.len() - at,
    {
        let text = to_chars(lines[at].as_str());
        let start = find(&text, CharClass::Space, false, 0);
        assert(texts(lines@)[at as int] == text@);
        if begins_at(&text, start, &prefix) {
            return at;
        }
        at += 1;
    }
    at
}

/// Reads the width and the height out of a header line.
fn read_header_sizes(text: &Vec<char>) -> (sizes: Option<(usize, usize)>)
    ensures
        sizes == header_sizes(text@),
{
    let first = word_at(text, 0);
    let second = word_at(text, first.1);
    let third = word_at(text, second.1);
    if third.0 >= text.len() {
        return None;
    }
    let third_end = find_back(text, CharClass::Colon, third.1);
    let width = parse_number(text, second.0, second.1);
    if third_end < third.0 {
        return None;
    }
    let height = parse_number(text, third.0, third_end);
    match (width, height) {
        (Some(w), Some(h)) => Some((w, h)),
        _ => None,
    }
}

/// Collects the rows of the pattern from the lines at `start` and after.
fn read_pattern(lines: &[String], start: usize, limit: usize) -> (rows: Vec<Vec<char>>)
    requires
        start <= lines@.len(),
    ensures
        row_texts(rows@) == pattern_upto(
            texts(lines@),
            start as int,
            lines@.len() as int,
            limit as int,
        ),
{
    let ghost all = texts(lines@);
    let mut rows: Vec<Vec<char>> = Vec::new();
    let mut i: usize = start;
    assert(row_texts(rows@) =~= pattern_upto(all, start as int, i as int, limit as int));
    while i < lines.len()
        invariant_except_break
            row_texts(rows@) == pattern_upto(all, start as int, i as int, limit as int),
            !(rows@.len() > 0 && rows@.len() == limit),
        invariant
            start <= i <= lines@.len(),
            all == texts(lines@),
        ensures
            row_texts(rows@) == pattern_upto(all, start as int, lines@.len() as int, limit as int),
        decreases lines@.len() - i,
    {
        let mut text = to_chars(lines[i].as_str());
        assert(all[i as int] == text@);
        let end = find_back(&text, CharClass::Space, text.len());
        let ghost before = rows@;
        if end > 0 {
            text.truncate(end);
            rows.push(text);
            proof {
                assert(row_texts(rows@) =~= row_texts(before).push(text@));
                assert(text@ =~= all[i as int].take(end as int));
            }
        }
        i += 1;
        if rows.len() > 0 && rows.len() == limit {
            proof {
                lemma_pattern_full(all, start as int, i as int, lines@.len() as int, limit as int);
            }
            break;
        }
    }
    rows
}

/// Lists the filled cells of the pattern, row by row.
fn list_filled(rows: &Vec<Vec<char>>) -> (cells: Vec<(usize, usize)>)
    ensures
        cells@ == filled_in_rows(row_texts(rows@), rows@.len() as int),
{
    let ghost all = row_texts(rows@);
    let mut cells: Vec<(usize, usize)> = Vec::new();
    let mut y: usize = 0;
    while y < rows.len()
        invariant
            y <= rows@.len(),
            all == row_texts(rows@),
            cells@ == filled_in_rows(all, y as int),
        decreases rows@.len() - y,
    {
        let ghost above = cells@;
        let mut x: usize = 0;
        while x < rows[y].len()
            invariant
                y < rows@.len(),
                x <= rows@[y as int]@.len(),
                all == row_texts(rows@),
                above == filled_in_rows(all, y as int),
                cells@ == above + filled_in_row(all[y as int], y as int, x as int),
            decreases rows@[y as int]@.len() - x,
        {
            let ch = rows[y][x];
            if ch == '*' || ch == 'O' || ch == 'o' {
                cells.push((y, x));
            }
            x += 1;
        }
        y += 1;
    }
    cells
}

/// Finds the length of the longest row, and at least `floor`.
fn widest_row(rows: &Vec<Vec<char>>, floor: usize) -> (width: usize)
    ensures
        width == widest(row_texts(rows@), rows@.len() as int, floor as int),
{
    let mut width: usize = floor;
    let mut y: usize = 0;
    while y < rows.len()
        invariant
            y <= rows@.len(),
            width == widest(row_texts(rows@), y as int, floor as int),
        decreases rows@.len() - y,
    {
        let row_len = rows[y].len();
        if row_len > width {
            width = row_len;
        }
        y += 1;
    }
    width
}

impl Piece {
    /// Tells whether the line is the header of a piece block.
    pub fn is_header(line: &str) -> (yes: bool)
        ensures
            yes == is_piece_header(line@),
    {
        let text = to_chars(line);
        let prefix = to_chars("Piece");
        let first = find(&text, CharClass::Space, false, 0);
        begins_at(&text, first, &prefix)
    }

    /// Reads from a header how many pattern rows follow it; 0 when the
    /// header does not say.
    pub fn rows_announced(header: &str) -> (rows: usize)
        ensures
            rows == announced_rows(header@),
    {
        let text = to_chars(header);
        let first = word_at(&text, 0);
        let second = word_at(&text, first.1);
        let third = word_at(&text, second.1);
        if third.0 >= text.len() {
            return 0;
        }
        let third_end = find_back(&text, CharClass::Colon, third.1);
        if third_end < third.0 {
            return 0;
        }
        match parse_number(&text, third.0, third_end) {
            Some(rows) => rows,
            None => 0,
        }
    }

    /// Builds a piece from the lines of a piece block, such as
    ///
    /// ```text
    /// Piece 3 2:
    /// .*.
    /// ***
    /// ```
    ///
    /// The header reads `Piece <width> <height>:`; the characters `*`, `O`
    /// and `o` mark filled cells.
    pub fn from_piece_lines(lines: &[String]) -> (piece: Option<Piece>)
        ensures
            match piece {
                None => spec_piece(texts(lines@)) is None,
                Some(p) => spec_piece(texts(lines@)) == Some(
                    (p.width as int, p.height as int, p.cells@),
                ) && p.wf() && p.cells@.len() > 0,
            },
    {
        let header_index = find_piece_header(lines);
        if header_index >= lines.len() {
            return None;
        }
        let header = to_chars(lines[header_index].as_str());
        assert(texts(lines@)[header_index as int] == header@);
        let (expected_width, expected_height) = match read_header_sizes(&header) {
            Some(sizes) => sizes,
            None => {
                return None;
            },
        };
        let pattern = read_pattern(lines, header_index + 1, expected_height);
        let filled_cells = list_filled(&pattern);
        if filled_cells.len() == 0 {
            return None;
        }
        let height = pattern.len();
        let width = widest_row(&pattern, expected_width);
        proof {
            let rows = row_texts(pattern@);
            assert forall|k: int| 0 <= k < filled_cells@.len() implies (#[trigger] filled_cells@[k]).0
                < height && filled_cells@[k].1 < width by {
                assert forall|y: int| 0 <= y < rows.len() implies (#[trigger] rows[y]).len()
                    <= usize::MAX by {
                    assert(rows[y] == pattern@[y]@);
                    assert(pattern@[y].len() == pattern@[y]@.len());
                }
                lemma_filled_in_rows(rows, height as int, k);
                lemma_widest(rows, height as int, expected_width as int, filled_cells@[k].0 as int);
            }
        }
        Some(Piece { width, height, cells: filled_cells })
    }
}

} // verus!
