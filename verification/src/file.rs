use vstd::prelude::*;

use crate::board::{
    board_rows, board_text, lemma_place_of_square, lemma_square_count_bound,
    lemma_square_of_place, Board, BoardView,
};
use crate::datastructure::Coord;
use crate::solvestate::{
    lemma_taken_up_same, square_glyph, square_of_code, state_text, taken_up, Charset,
    SolveStateView, SquareVal,
};
use crate::squarecolor::{color_of_code, SquareColor};
use crate::text::{
    chars_of, is_plain_line, is_space, join_lines, joined_lines, lemma_joined_lines_concat,
    lemma_joined_lines_ends, lemma_joined_lines_spaces, lemma_lines_of_joined,
    lemma_trim_end_spaces, lemma_trimmed_same, line_views, lines_of, text_of, trimmed,
    trimmed_lines,
};

verus! {

/// Why a text is not a board, a saved state or a puzzle file.
#[derive(Clone, Copy, Debug, PartialEq, Eq, Structural)]
pub enum ParseError {
    /// A row of a board does not have as many squares as the board has
    /// rows.
    BoardRowLength {
        /// The number of the row, counted from one.
        row: usize,
        /// The number of squares of the row.
        len: usize,
        /// The number of rows.
        size: usize,
    },
    /// A board has more than 16 rows.
    BoardTooLarge {
        /// The number of rows.
        size: usize,
    },
    /// A character of a board is the code of no color.
    UnknownColor {
        /// The character.
        code: char,
    },
    /// A row of a saved state does not have as many squares as the state
    /// has rows.
    SquaresRowLength {
        /// The number of the row, counted from one.
        row: usize,
        /// The number of squares of the row.
        len: usize,
        /// The number of rows.
        size: usize,
    },
    /// A character of a saved state stands for no state of a square.
    UnknownSquare {
        /// The character.
        code: char,
    },
    /// A puzzle file has no lines.
    NoLines,
    /// A puzzle file has neither as many lines as its first line has
    /// characters, nor twice as many and an empty line between the halves.
    LineCount {
        /// The number of lines.
        lines: usize,
        /// The number of characters of the first line.
        size: usize,
    },
    /// The saved state of a puzzle file does not have a square for each
    /// square of the board.
    SquaresCount {
        /// The number of squares of the saved state.
        squares: usize,
        /// The number of rows of the board.
        size: usize,
    },
}

/// The first of the first `n` rows that does not have as many characters
/// as there are rows.
pub open spec fn uneven_row_before(lines: Seq<Seq<char>>, n: nat) -> Option<int>
    decreases n,
{
    if n == 0 {
        None
    } else {
        match uneven_row_before(lines, (n - 1) as nat) {
            Some(row) => Some(row),
            None => if lines[n - 1].len() != lines.len() {
                Some(n - 1)
            } else {
                None
            },
        }
    }
}

/// The characters of the rows of a square grid, row after row.
pub open spec fn cells(lines: Seq<Seq<char>>) -> Seq<char> {
    Seq::new(
        lines.len() * lines.len(),
        |k: int| lines[k / lines.len() as int][k % lines.len() as int],
    )
}

/// The place of the first of the first `n` characters that is the code of
/// no color.
pub open spec fn no_color_before(cells: Seq<char>, n: nat) -> Option<int>
    decreases n,
{
    if n == 0 {
        None
    } else {
        match no_color_before(cells, (n - 1) as nat) {
            Some(k) => Some(k),
            None => if color_of_code(cells[n - 1]) is None {
                Some(n - 1)
            } else {
                None
            },
        }
    }
}

/// The place of the first of the first `n` characters that stands for no
/// state of a square.
pub open spec fn no_square_before(cells: Seq<char>, n: nat) -> Option<int>
    decreases n,
{
    if n == 0 {
        None
    } else {
        match no_square_before(cells, (n - 1) as nat) {
            Some(k) => Some(k),
            None => if square_of_code(cells[n - 1]) is None {
                Some(n - 1)
            } else {
                None
            },
        }
    }
}

/// The board that a text describes: once the white space around the text
/// is taken away, each line is a row, and each character the code of the
/// color of a square. There are as many squares in each row as there are
/// rows, and at most 16 rows.
pub open spec fn parse_board(text: Seq<char>) -> Result<BoardView, ParseError> {
    let lines = lines_of(trimmed(text));
    let size = lines.len();
    match uneven_row_before(lines, size) {
        Some(row) => Err(
            ParseError::BoardRowLength {
                row: (row + 1) as usize,
                len: lines[row].len() as usize,
                size: size as usize,
            },
        ),
        None => if size > 16 {
            Err(ParseError::BoardTooLarge { size: size as usize })
        } else {
            match no_color_before(cells(lines), size * size) {
                Some(k) => Err(ParseError::UnknownColor { code: cells(lines)[k] }),
                None => Ok(
                    BoardView {
                        size,
                        colors: cells(lines).map_values(
                            |code: char| color_of_code(code).unwrap(),
                        ),
                    },
                ),
            }
        },
    }
}

/// The saved state that a text describes: once the white space around the
/// text is taken away, each line is a row, and each character stands for
/// what is known of a square. There are as many squares in each row as
/// there are rows, and at most 16 rows.
pub open spec fn parse_squares(text: Seq<char>) -> Result<Seq<Option<SquareVal>>, ParseError> {
    let lines = lines_of(trimmed(text));
    let size = lines.len();
    match uneven_row_before(lines, size) {
        Some(row) => Err(
            ParseError::SquaresRowLength {
                row: (row + 1) as usize,
                len: lines[row].len() as usize,
                size: size as usize,
            },
        ),
        None => if size > 16 {
            Err(ParseError::BoardTooLarge { size: size as usize })
        } else {
            match no_square_before(cells(lines), size * size) {
                Some(k) => Err(ParseError::UnknownSquare { code: cells(lines)[k] }),
                None => Ok(
                    cells(lines).map_values(|code: char| square_of_code(code).unwrap()),
                ),
            }
        },
    }
}

/// What a puzzle file holds, as mathematics.
pub struct QueensFileView {
    /// The board.
    pub board: BoardView,
    /// The saved state, where the file holds one.
    pub squares: Option<Seq<Option<SquareVal>>>,
}

/// The puzzle that a text describes: once the white space around the text
/// is taken away, either as many lines as the first line has characters,
/// which are a board, or a board, an empty line and as many lines again,
/// which are a saved state of that board.
pub open spec fn parse_file(text: Seq<char>) -> Result<QueensFileView, ParseError> {
    let lines = lines_of(trimmed(text));
    if lines.len() == 0 {
        Err(ParseError::NoLines)
    } else {
        let size = lines[0].len();
        let saved = lines.len() == 1 + 2 * size && lines[size as int].len() == 0;
        if !(lines.len() == size || saved) {
            Err(ParseError::LineCount { lines: lines.len() as usize, size: size as usize })
        } else {
            match parse_board(joined_lines(lines.subrange(0, size as int))) {
                Err(error) => Err(error),
                Ok(board) => if !saved {
                    Ok(QueensFileView { board, squares: None })
                } else {
                    match parse_squares(
                        joined_lines(lines.subrange((size + 1) as int, (2 * size + 1) as int)),
                    ) {
                        Err(error) => Err(error),
                        Ok(squares) => if squares.len() != board.square_count() {
                            Err(
                                ParseError::SquaresCount {
                                    squares: squares.len() as usize,
                                    size: size as usize,
                                },
                            )
                        } else {
                            Ok(QueensFileView { board, squares: Some(squares) })
                        },
                    }
                },
            }
        }
    }
}

/// The first row that does not have as many characters as there are rows.
fn uneven_row(lines: &Vec<Vec<char>>) -> (found: Option<usize>)
    ensures
        match found {
            Some(row) => uneven_row_before(line_views(lines@), lines@.len()) == Some(row as int)
                && row < lines@.len(),
            None => uneven_row_before(line_views(lines@), lines@.len()) is None,
        },
        found is None ==> forall|row: int|
            0 <= row < lines@.len() ==> (#[trigger] lines@[row])@.len() == lines@.len(),
{
    for row in 0..lines.len()
        invariant
            uneven_row_before(line_views(lines@), row as nat) is None,
            forall|earlier: int|
                0 <= earlier < row ==> (#[trigger] lines@[earlier])@.len() == lines@.len(),
    {
        if lines[row].len() != lines.len() {
            proof {
                lemma_uneven_stays(line_views(lines@), (row + 1) as nat, lines@.len() as nat);
            }
            return Some(row);
        }
    }
    None
}

/// A row that is the first uneven one among the first `n` is so among
/// more.
proof fn lemma_uneven_stays(lines: Seq<Seq<char>>, n: nat, m: nat)
    requires
        n <= m,
        uneven_row_before(lines, n) is Some,
    ensures
        uneven_row_before(lines, m) == uneven_row_before(lines, n),
    decreases m,
{
    if n < m {
        lemma_uneven_stays(lines, n, (m - 1) as nat);
    }
}

/// A character that is the first without a color among the first `n` is so
/// among more.
proof fn lemma_no_color_stays(cells: Seq<char>, n: nat, m: nat)
    requires
        n <= m,
        no_color_before(cells, n) is Some,
    ensures
        no_color_before(cells, m) == no_color_before(cells, n),
    decreases m,
{
    if n < m {
        lemma_no_color_stays(cells, n, (m - 1) as nat);
    }
}

/// A character that is the first that stands for no square among the first
/// `n` is so among more.
proof fn lemma_no_square_stays(cells: Seq<char>, n: nat, m: nat)
    requires
        n <= m,
        no_square_before(cells, n) is Some,
    ensures
        no_square_before(cells, m) == no_square_before(cells, n),
    decreases m,
{
    if n < m {
        lemma_no_square_stays(cells, n, (m - 1) as nat);
    }
}

/// The board that a list of characters describes.
pub fn board_from_chars(chars: &Vec<char>) -> (result: Result<Board, ParseError>)
    ensures
        match (result, parse_board(chars@)) {
            (Ok(board), Ok(view)) => board@ == view,
            (Err(error), Err(expected)) => error == expected,
            _ => false,
        },
{
    let lines = trimmed_lines(chars);
    let size = lines.len();
    let ghost rows = line_views(lines@);
    match uneven_row(&lines) {
        Some(row) => {
            return Err(ParseError::BoardRowLength { row: row + 1, len: lines[row].len(), size });
        },
        None => {},
    }
    if size > 16 {
        return Err(ParseError::BoardTooLarge { size });
    }
    proof {
        lemma_square_count_bound(size as int);
    }
    let mut colors: Vec<SquareColor> = Vec::new();
    for k in 0..size * size
        invariant
            size <= 16,
            size == lines@.len(),
            rows == line_views(lines@),
            rows == lines_of(trimmed(chars@)),
            uneven_row_before(rows, rows.len()) is None,
            forall|row: int|
                0 <= row < lines@.len() ==> (#[trigger] lines@[row])@.len() == lines@.len(),
            no_color_before(cells(rows), k as nat) is None,
            colors@ == cells(rows).take(k as int).map_values(
                |code: char| color_of_code(code).unwrap(),
            ),
    {
        proof {
            lemma_square_of_place(size as int, k as int);
        }
        let code = lines[k / size][k % size];
        assert(code == cells(rows)[k as int]);
        match SquareColor::try_from(code) {
            Ok(color) => {
                colors.push(color);
                assert(colors@ =~= cells(rows).take(k + 1).map_values(
                    |code: char| color_of_code(code).unwrap(),
                ));
            },
            Err(_) => {
                proof {
                    assert(color_of_code(cells(rows)[k as int]) is None);
                    assert(no_color_before(cells(rows), (k + 1) as nat) == Some(k as int));
                    lemma_no_color_stays(cells(rows), (k + 1) as nat, (size * size) as nat);
                    assert(rows.len() * rows.len() == size * size);
                }
                return Err(ParseError::UnknownColor { code });
            },
        }
    }
    assert(cells(rows).take((size * size) as int) =~= cells(rows));
    match Board::new(size, colors) {
        Ok(board) => Ok(board),
        Err(_) => Err(ParseError::BoardTooLarge { size }),
    }
}

/// The state of the squares of a board as a file holds it, row after row.
#[derive(Debug)]
pub struct InputSquares(pub Vec<Option<SquareVal>>);

impl Clone for InputSquares {
    fn clone(&self) -> (copy: Self)
        ensures
            copy.0@ == self.0@,
    {
        let mut squares: Vec<Option<SquareVal>> = Vec::new();
        for k in 0..self.0.len()
            invariant
                squares@ == self.0@.take(k as int),
        {
            squares.push(self.0[k]);
            assert(self.0@.take(k + 1) =~= self.0@.take(k as int).push(self.0@[k as int]));
        }
        assert(self.0@.take(self.0@.len() as int) =~= self.0@);
        InputSquares(squares)
    }
}

/// Whether `root` is the greatest number whose square is at most `n`.
pub open spec fn is_square_root(n: nat, root: nat) -> bool {
    root * root <= n < (root + 1) * (root + 1)
}

/// The greatest number whose square is at most `n`.
pub open spec fn square_root(n: nat) -> nat {
    choose|root: nat| is_square_root(n, root)
}

/// A number has one square root only.
pub proof fn lemma_square_root_unique(n: nat, a: nat, b: nat)
    requires
        is_square_root(n, a),
        is_square_root(n, b),
    ensures
        a == b,
{
    assert(a == b) by (nonlinear_arith)
        requires
            a * a <= n < (a + 1) * (a + 1),
            b * b <= n < (b + 1) * (b + 1),
    ;
}

/// The rows in which a state is drawn in plain characters: a row for each
/// of the first `size` rows of squares.
pub open spec fn square_rows(size: nat, squares: Seq<Option<SquareVal>>) -> Seq<Seq<char>> {
    Seq::new(
        size,
        |r: int|
            Seq::new(size, |c: int| square_glyph(squares[r * size + c], false, Charset::Ascii)),
    )
}

/// The saved state that a list of characters describes.
pub fn squares_from_chars(chars: &Vec<char>) -> (result: Result<InputSquares, ParseError>)
    ensures
        match (result, parse_squares(chars@)) {
            (Ok(squares), Ok(view)) => squares.0@ == view,
            (Err(error), Err(expected)) => error == expected,
            _ => false,
        },
{
    let lines = trimmed_lines(chars);
    let size = lines.len();
    let ghost rows = line_views(lines@);
    match uneven_row(&lines) {
        Some(row) => {
            return Err(
                ParseError::SquaresRowLength { row: row + 1, len: lines[row].len(), size },
            );
        },
        None => {},
    }
    if size > 16 {
        return Err(ParseError::BoardTooLarge { size });
    }
    proof {
        lemma_square_count_bound(size as int);
    }
    let mut squares: Vec<Option<SquareVal>> = Vec::new();
    for k in 0..size * size
        invariant
            size <= 16,
            size == lines@.len(),
            rows == line_views(lines@),
            rows == lines_of(trimmed(chars@)),
            uneven_row_before(rows, rows.len()) is None,
            forall|row: int|
                0 <= row < lines@.len() ==> (#[trigger] lines@[row])@.len() == lines@.len(),
            no_square_before(cells(rows), k as nat) is None,
            squares@ == cells(rows).take(k as int).map_values(
                |code: char| square_of_code(code).unwrap(),
            ),
    {
        proof {
            lemma_square_of_place(size as int, k as int);
        }
        let code = lines[k / size][k % size];
        assert(code == cells(rows)[k as int]);
        match SquareVal::try_from(code) {
            Ok(square) => {
                squares.push(square);
                assert(squares@ =~= cells(rows).take(k + 1).map_values(
                    |code: char| square_of_code(code).unwrap(),
                ));
            },
            Err(_) => {
                proof {
                    assert(square_of_code(cells(rows)[k as int]) is None);
                    assert(no_square_before(cells(rows), (k + 1) as nat) == Some(k as int));
                    lemma_no_square_stays(cells(rows), (k + 1) as nat, (size * size) as nat);
                    assert(rows.len() * rows.len() == size * size);
                }
                return Err(ParseError::UnknownSquare { code });
            },
        }
    }
    assert(cells(rows).take((size * size) as int) =~= cells(rows));
    Ok(InputSquares(squares))
}

impl InputSquares {
    /// The saved state of which nothing is known, for a board.
    pub fn from_board(board: &Board) -> (squares: InputSquares)
        ensures
            squares.0@ == Seq::new(board@.square_count(), |index: int| None::<SquareVal>),
    {
        let count = board.square_count();
        let mut squares: Vec<Option<SquareVal>> = Vec::new();
        for index in 0..count
            invariant
                squares@ == Seq::new(index as nat, |index: int| None::<SquareVal>),
        {
            squares.push(None);
            assert(squares@ =~= Seq::new((index + 1) as nat, |index: int| None::<SquareVal>));
        }
        InputSquares(squares)
    }

    /// The saved state in plain characters, row after row: as many rows,
    /// and as many squares in each, as the square root of the number of
    /// squares says.
    pub fn to_string(&self) -> (text: String)
        ensures
            text@ == joined_lines(square_rows(square_root(self.0@.len()), self.0@)),
    {
        let len = self.0.len();
        let mut size: usize = 0;
        while size < len && size + 1 <= len / (size + 1)
            invariant
                size <= len,
                size * size <= len,
            decreases len - size,
        {
            proof {
                let next = (size + 1) as int;
                let whole = len as int;
                assert(next * next <= whole) by (nonlinear_arith)
                    requires
                        next <= whole / next,
                        next > 0,
                        whole >= 0,
                ;
            }
            size += 1;
        }
        proof {
            let next = (size + 1) as int;
            let whole = len as int;
            if size < len {
                assert(whole < next * next) by (nonlinear_arith)
                    requires
                        next > whole / next,
                        next > 0,
                        whole >= 0,
                ;
            } else {
                assert(whole < next * next) by (nonlinear_arith)
                    requires
                        next == whole + 1,
                        whole >= 0,
                ;
            }
            assert(is_square_root(len as nat, size as nat));
            lemma_square_root_unique(len as nat, size as nat, square_root(len as nat));
        }
        let mut rows: Vec<Vec<char>> = Vec::new();
        for r in 0..size
            invariant
                size * size <= len,
                len == self.0@.len(),
                line_views(rows@) == square_rows(size as nat, self.0@).take(r as int),
        {
            let mut row: Vec<char> = Vec::new();
            for c in 0..size
                invariant
                    r < size,
                    size * size <= len,
                    len == self.0@.len(),
                    row@ == square_rows(size as nat, self.0@)[r as int].take(c as int),
            {
                proof {
                    lemma_place_of_square(size as int, r as int, c as int);
                }
                row.push(SquareVal::as_char(self.0[r * size + c], false, &Charset::Ascii));
                assert(row@ =~= square_rows(size as nat, self.0@)[r as int].take(c + 1));
            }
            assert(square_rows(size as nat, self.0@)[r as int].take(size as int)
                =~= square_rows(size as nat, self.0@)[r as int]);
            let ghost before = rows@;
            let ghost target = square_rows(size as nat, self.0@);
            assert(row@ == target[r as int]);
            rows.push(row);
            assert(line_views(rows@) =~= line_views(before).push(target[r as int]));
            assert(target.take(r + 1) =~= target.take(r as int).push(target[r as int]));
        }
        assert(square_rows(size as nat, self.0@).take(size as int) =~= square_rows(
            size as nat,
            self.0@,
        ));
        assert(line_views(rows@).subrange(0, size as int) =~= line_views(rows@));
        let chars = join_lines(&rows, 0, size);
        text_of(&chars)
    }

    /// The saved state that a text describes.
    pub fn from_str(s: &str) -> (result: Result<InputSquares, ParseError>)
        ensures
            match (result, parse_squares(s@)) {
                (Ok(squares), Ok(view)) => squares.0@ == view,
                (Err(error), Err(expected)) => error == expected,
                _ => false,
            },
    {
        let chars = chars_of(s);
        squares_from_chars(&chars)
    }
}

/// What a puzzle file holds: a board, and perhaps a state of its squares.
#[derive(Debug)]
pub struct QueensFile {
    /// The board.
    pub board: Board,
    /// The saved state, where the file holds one.
    pub squares: Option<InputSquares>,
}

impl View for QueensFile {
    type V = QueensFileView;

    open spec fn view(&self) -> QueensFileView {
        QueensFileView {
            board: self.board@,
            squares: match self.squares {
                Some(squares) => Some(squares.0@),
                None => None,
            },
        }
    }
}

impl QueensFile {
    /// The puzzle that a text describes.
    pub fn from_str(s: &str) -> (result: Result<QueensFile, ParseError>)
        ensures
            match (result, parse_file(s@)) {
                (Ok(file), Ok(view)) => file@ == view,
                (Err(error), Err(expected)) => error == expected,
                _ => false,
            },
            result matches Ok(file) ==> (file.squares matches Some(saved) ==> saved.0@.len()
                == file.board@.square_count()),
    {
        let chars = chars_of(s);
        let lines = trimmed_lines(&chars);
        let lines_len = lines.len();
        if lines_len == 0 {
            return Err(ParseError::NoLines);
        }
        let size = lines[0].len();
        let doubled = lines_len >= 1 && (lines_len - 1) % 2 == 0 && (lines_len - 1) / 2 == size;
        let saved = doubled && lines[size].len() == 0;
        assert(saved == (lines_len == 1 + 2 * size && line_views(lines@)[size as int].len() == 0));
        if !(lines_len == size || saved) {
            return Err(ParseError::LineCount { lines: lines_len, size });
        }
        let board_text = join_lines(&lines, 0, size);
        let board = match board_from_chars(&board_text) {
            Ok(board) => board,
            Err(error) => {
                return Err(error);
            },
        };
        if !saved {
            return Ok(QueensFile { board, squares: None });
        }
        let squares_text = join_lines(&lines, size + 1, size * 2 + 1);
        let squares = match squares_from_chars(&squares_text) {
            Ok(squares) => squares,
            Err(error) => {
                return Err(error);
            },
        };
        if squares.0.len() != board.square_count() {
            return Err(ParseError::SquaresCount { squares: squares.0.len(), size });
        }
        Ok(QueensFile { board, squares: Some(squares) })
    }
}

/// Where every row has as many characters as there are rows, no row is
/// uneven.
pub proof fn lemma_even_rows(lines: Seq<Seq<char>>, n: nat)
    requires
        n <= lines.len(),
        forall|row: int| 0 <= row < lines.len() ==> (#[trigger] lines[row]).len() == lines.len(),
    ensures
        uneven_row_before(lines, n) is None,
    decreases n,
{
    if n > 0 {
        lemma_even_rows(lines, (n - 1) as nat);
    }
}

/// Where every character is the code of a color, none is without a color.
pub proof fn lemma_all_colors(cells: Seq<char>, n: nat)
    requires
        n <= cells.len(),
        forall|k: int| 0 <= k < cells.len() ==> color_of_code(#[trigger] cells[k]) is Some,
    ensures
        no_color_before(cells, n) is None,
    decreases n,
{
    if n > 0 {
        lemma_all_colors(cells, (n - 1) as nat);
    }
}

/// Where every character stands for a state of a square, none stands for
/// nothing.
pub proof fn lemma_all_squares(cells: Seq<char>, n: nat)
    requires
        n <= cells.len(),
        forall|k: int| 0 <= k < cells.len() ==> square_of_code(#[trigger] cells[k]) is Some,
    ensures
        no_square_before(cells, n) is None,
    decreases n,
{
    if n > 0 {
        lemma_all_squares(cells, (n - 1) as nat);
    }
}

/// The text of a board that has a row is read back as that board.
pub proof fn lemma_board_text_read_back(board: BoardView)
    requires
        board.wf(),
        board.size > 0,
    ensures
        parse_board(board_text(board)) == Ok::<BoardView, ParseError>(board),
{
    let rows = board_rows(board);
    let size = board.size as int;
    let text = board_text(board);
    assert forall|k: int| 0 <= k < rows.len() implies is_plain_line(#[trigger] rows[k]) by {}
    lemma_joined_lines_ends(rows);
    lemma_trimmed_same(text);
    lemma_lines_of_joined(rows);
    lemma_even_rows(rows, rows.len());
    let codes = cells(rows);
    assert forall|k: int| 0 <= k < codes.len() implies color_of_code(#[trigger] codes[k])
        == Some(board.colors[k]) by {
        lemma_square_of_place(size, k);
        assert(codes[k] == rows[k / size][k % size]);
    }
    lemma_all_colors(codes, codes.len());
    assert(codes.map_values(|code: char| color_of_code(code).unwrap()) =~= board.colors);
}

/// The text of the squares of a state that has a row, and whose first
/// and last squares are settled, is read back as those squares.
pub proof fn lemma_squares_text_read_back(size: nat, squares: Seq<Option<SquareVal>>)
    requires
        0 < size <= 16,
        squares.len() == size * size,
        squares[0] is Some,
        squares.last() is Some,
    ensures
        parse_squares(joined_lines(square_rows(size, squares))) == Ok::<
            Seq<Option<SquareVal>>,
            ParseError,
        >(squares),
{
    let rows = square_rows(size, squares);
    let n = size as int;
    let text = joined_lines(rows);
    assert forall|k: int| 0 <= k < rows.len() implies is_plain_line(#[trigger] rows[k]) by {}
    lemma_place_of_square(n, n - 1, n - 1);
    assert((n - 1) * n + (n - 1) == n * n - 1) by (nonlinear_arith);
    assert(rows[0][0] == square_glyph(squares[0], false, Charset::Ascii));
    assert(rows.last().last() == square_glyph(squares.last(), false, Charset::Ascii));
    lemma_joined_lines_ends(rows);
    lemma_trimmed_same(text);
    lemma_lines_of_joined(rows);
    lemma_even_rows(rows, rows.len());
    let codes = cells(rows);
    assert forall|k: int| 0 <= k < codes.len() implies square_of_code(#[trigger] codes[k])
        == Some(squares[k]) by {
        lemma_square_of_place(n, k);
        assert(codes[k] == rows[k / n][k % n]);
    }
    lemma_all_squares(codes, codes.len());
    assert(codes.map_values(|code: char| square_of_code(code).unwrap()) =~= squares);
}

/// The text of a state is read back as the board and the squares of the
/// state, where the board has a row and the first and the last square of
/// the state are settled.
///
/// White space at the end of a text is not read. So a state whose last
/// square is open is not read back from its text: its text ends with the
/// space that stands for that square.
pub proof fn lemma_state_text_read_back(state: SolveStateView)
    requires
        state.wf(),
        state.board.size > 0,
        state.squares[0] is Some,
        state.squares.last() is Some,
    ensures
        parse_file(state_text(state)) == Ok::<QueensFileView, ParseError>(
            QueensFileView { board: state.board, squares: Some(state.squares) },
        ),
{
    let size = state.board.size;
    let n = size as int;
    let upper = board_rows(state.board);
    let lower = square_rows(size, state.squares);
    let gap: Seq<Seq<char>> = seq![Seq::<char>::empty()];
    let all = upper + gap + lower;
    let text = state_text(state);
    lemma_joined_lines_concat(upper, gap);
    assert((upper + gap).len() > 0);
    lemma_joined_lines_concat(upper + gap, lower);
    assert(joined_lines(gap) =~= Seq::<char>::empty());
    assert(text =~= joined_lines(all));
    assert forall|k: int| 0 <= k < all.len() implies is_plain_line(#[trigger] all[k]) by {
        if k < n {
            assert(all[k] == upper[k]);
        } else if k == n {
            assert(all[k] == gap[0]);
        } else {
            assert(all[k] == lower[k - n - 1]);
        }
    }
    assert(all[0] == upper[0]);
    assert(all.last() == lower.last());
    lemma_place_of_square(n, n - 1, n - 1);
    assert((n - 1) * n + (n - 1) == n * n - 1) by (nonlinear_arith);
    assert(lower.last().last() == square_glyph(state.squares.last(), false, Charset::Ascii));
    lemma_joined_lines_ends(all);
    lemma_trimmed_same(text);
    lemma_lines_of_joined(all);
    let lines = lines_of(trimmed(text));
    assert(lines == all);
    assert(lines.len() == 2 * n + 1);
    assert(lines[0].len() == size);
    assert(lines[n] == gap[0]);
    assert(lines.subrange(0, n) =~= upper);
    assert(lines.subrange(n + 1, 2 * n + 1) =~= lower);
    lemma_board_text_read_back(state.board);
    lemma_squares_text_read_back(size, state.squares);
}

/// Writing a state and reading it back gives the same queens, marks and
/// open squares: the text of the state is read as a puzzle file, and the
/// state that is taken up from that file has the squares of the first.
///
/// This holds of a state of a board that has a row, in which every square
/// that a queen forbids is settled, and whose first and last squares are
/// settled.
pub proof fn lemma_written_state_read_back(state: SolveStateView)
    requires
        state.wf(),
        state.board.size > 0,
        state.squares[0] is Some,
        state.squares.last() is Some,
        forall|queen: Coord, coord: Coord|
            state.queen(queen) && state.board.forbids(queen, coord) ==> state.square(coord)
                is Some,
    ensures
        parse_file(state_text(state)) matches Ok(file) && file.board == state.board && (
        file.squares matches Some(saved) && taken_up(file.board, saved) == state.squares),
{
    lemma_state_text_read_back(state);
    lemma_taken_up_same(state.board, state.squares);
}

/// The text of a state of which nothing is known is read back as its
/// board alone, and the state that is taken up from a board alone is one
/// of which nothing is known.
pub proof fn lemma_written_blank_state_read_back(state: SolveStateView)
    requires
        state.wf(),
        state.board.size > 0,
        forall|index: int| 0 <= index < state.squares.len() ==> state.squares[index] is None,
    ensures
        parse_file(state_text(state)) == Ok::<QueensFileView, ParseError>(
            QueensFileView { board: state.board, squares: None },
        ),
{
    let size = state.board.size;
    let n = size as int;
    let upper = board_rows(state.board);
    let lower = square_rows(size, state.squares);
    let text = state_text(state);
    let rest = seq!['\n', '\n'] + joined_lines(lower);
    assert forall|r: int, c: int| 0 <= r < lower.len() && 0 <= c < lower[r].len() implies is_space(
        #[trigger] lower[r][c],
    ) by {
        lemma_place_of_square(n, r, c);
    }
    lemma_joined_lines_spaces(lower);
    assert forall|k: int| 0 <= k < rest.len() implies is_space(#[trigger] rest[k]) by {
        if k >= 2 {
            assert(rest[k] == joined_lines(lower)[k - 2]);
        }
    }
    assert forall|k: int| 0 <= k < upper.len() implies is_plain_line(#[trigger] upper[k]) by {}
    lemma_joined_lines_ends(upper);
    assert(text =~= board_text(state.board) + rest);
    assert(text[0] == board_text(state.board)[0]);
    lemma_trim_end_spaces(board_text(state.board), rest);
    lemma_trimmed_same(board_text(state.board));
    assert(trimmed(text) == board_text(state.board));
    lemma_lines_of_joined(upper);
    let lines = lines_of(trimmed(text));
    assert(lines == upper);
    assert(lines.subrange(0, n) =~= upper);
    lemma_board_text_read_back(state.board);
}

} // verus!
