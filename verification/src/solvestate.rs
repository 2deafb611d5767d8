use vstd::prelude::*;

use owo_colors::{AnsiColors, OwoColorize};

use crate::board::{
    board_text, lemma_place_of_square, lemma_square_count_bound, lemma_square_of_place, Board,
    BoardView,
};
use crate::datastructure::{Coord, CoordSet};
use crate::file::{square_rows, QueensFile};
use crate::heuristic::{Changes, ChangesView};
use crate::squarecolor::{color_foreground, color_place};
use crate::text::{chars_of, join_lines, joined_lines, line_views, push_text, text_of};

verus! {

/// What a solver knows of a square, once it knows something.
#[derive(Clone, Copy, Debug, PartialEq, Eq, Structural)]
pub enum SquareVal {
    /// The square holds a queen.
    Queen,
    /// The square cannot hold a queen.
    X,
}

/// The error of reading a character that stands for no state of a square.
#[derive(Clone, Copy, Debug, PartialEq, Eq, Structural)]
pub struct UnknownSquare {
    /// The character that was read.
    pub code: char,
}

/// How a solver picks the next rule among those that apply.
#[derive(Clone, Copy, Debug, PartialEq, Eq, Structural)]
pub enum SolveStrategy {
    /// The first rule of the catalog that applies.
    Fast,
    /// The rule that changes the most squares, so that the solution has few
    /// steps.
    Short,
    /// The rule that looks at the fewest squares, so that each step is easy
    /// to follow.
    Simple,
}

impl SolveStrategy {
    /// The name of the strategy.
    pub fn to_string(&self) -> (name: String)
        ensures
            name@ == match self {
                SolveStrategy::Fast => "Fast"@,
                SolveStrategy::Short => "Short"@,
                SolveStrategy::Simple => "Simple"@,
            },
    {
        let mut name = String::new();
        match self {
            SolveStrategy::Fast => push_text(&mut name, "Fast"),
            SolveStrategy::Short => push_text(&mut name, "Short"),
            SolveStrategy::Simple => push_text(&mut name, "Simple"),
        }
        assert(Seq::<char>::empty() + "Fast"@ =~= "Fast"@);
        assert(Seq::<char>::empty() + "Short"@ =~= "Short"@);
        assert(Seq::<char>::empty() + "Simple"@ =~= "Simple"@);
        name
    }
}

impl Default for SolveStrategy {
    fn default() -> (strategy: SolveStrategy)
        ensures
            strategy == SolveStrategy::Fast,
    {
        SolveStrategy::Fast
    }
}

/// The characters in which a state is drawn.
#[derive(Clone, Copy, Debug, PartialEq, Eq, Structural)]
pub enum Charset {
    /// `Q` for a queen and `x` for a square that cannot hold one.
    Ascii,
    /// A chess queen for a queen and a small centered cross for a square
    /// that cannot hold one.
    Unicode,
}

impl Default for Charset {
    fn default() -> (charset: Charset)
        ensures
            charset == Charset::Unicode,
    {
        Charset::Unicode
    }
}

/// What a character of a saved state stands for: `Q` a queen, `x` a square
/// that cannot hold one, and a space, a dot or an underscore a square of
/// which nothing is known. Any other character stands for nothing.
pub open spec fn square_of_code(code: char) -> Option<Option<SquareVal>> {
    if code == 'Q' {
        Some(Some(SquareVal::Queen))
    } else if code == 'x' {
        Some(Some(SquareVal::X))
    } else if code == ' ' || code == '.' || code == '_' {
        Some(None)
    } else {
        None
    }
}

/// The character that draws a square. A square of which nothing is known is
/// a space, unless it is highlighted: then it is a dot, or a small ring, so
/// that the highlight can be seen.
pub open spec fn square_glyph(
    square: Option<SquareVal>,
    highlighted: bool,
    charset: Charset,
) -> char {
    match (square, charset) {
        (Some(SquareVal::Queen), Charset::Ascii) => 'Q',
        (Some(SquareVal::Queen), Charset::Unicode) => '\u{265B}',
        (Some(SquareVal::X), Charset::Ascii) => 'x',
        (Some(SquareVal::X), Charset::Unicode) => '\u{00D7}',
        (None, Charset::Ascii) => if highlighted {
            '.'
        } else {
            ' '
        },
        (None, Charset::Unicode) => if highlighted {
            '\u{2218}'
        } else {
            ' '
        },
    }
}

impl SquareVal {
    /// Reads the character of a square in a saved state.
    pub fn try_from(c: char) -> (result: Result<Option<SquareVal>, UnknownSquare>)
        ensures
            match square_of_code(c) {
                Some(square) => result == Ok::<Option<SquareVal>, UnknownSquare>(square),
                None => result == Err::<Option<SquareVal>, UnknownSquare>(
                    UnknownSquare { code: c },
                ),
            },
    {
        match c {
            'Q' => Ok(Some(SquareVal::Queen)),
            'x' => Ok(Some(SquareVal::X)),
            ' ' => Ok(None),
            '.' => Ok(None),
            '_' => Ok(None),
            _ => Err(UnknownSquare { code: c }),
        }
    }

    /// The character that draws a square.
    pub fn as_char(sv: Option<SquareVal>, highlighted: bool, charset: &Charset) -> (glyph: char)
        ensures
            glyph == square_glyph(sv, highlighted, *charset),
    {
        match (sv, highlighted, charset) {
            (Some(SquareVal::Queen), _, Charset::Ascii) => 'Q',
            (Some(SquareVal::Queen), _, Charset::Unicode) => '\u{265B}',
            (Some(SquareVal::X), _, Charset::Ascii) => 'x',
            (Some(SquareVal::X), _, Charset::Unicode) => '\u{00D7}',
            (None, true, Charset::Ascii) => '.',
            (None, true, Charset::Unicode) => '\u{2218}',
            (None, false, _) => ' ',
        }
    }
}

/// The number of queens in a list of squares.
pub open spec fn queen_count(squares: Seq<Option<SquareVal>>) -> nat
    decreases squares.len(),
{
    if squares.len() == 0 {
        0
    } else {
        queen_count(squares.drop_last()) + if squares.last() == Some(SquareVal::Queen) {
            1nat
        } else {
            0nat
        }
    }
}

/// What a state is, as mathematics: a board, and for each of its squares,
/// row after row, what is known of it.
pub struct SolveStateView {
    /// The board.
    pub board: BoardView,
    /// What is known of each square, the rows one after the other.
    pub squares: Seq<Option<SquareVal>>,
}

impl SolveStateView {
    /// The board is well formed, and the state has an entry for each of
    /// its squares.
    pub open spec fn wf(self) -> bool {
        self.board.wf() && self.squares.len() == self.board.square_count()
    }

    /// What is known of a square.
    pub open spec fn square(self, coord: Coord) -> Option<SquareVal> {
        self.squares[self.board.index(coord)]
    }

    /// Whether a square is on the board and nothing is known of it.
    pub open spec fn unknown(self, coord: Coord) -> bool {
        self.board.contains(coord) && self.square(coord) is None
    }

    /// Whether a square is on the board and holds a queen.
    pub open spec fn queen(self, coord: Coord) -> bool {
        self.board.contains(coord) && self.square(coord) == Some(SquareVal::Queen)
    }

    /// The squares of a set of which nothing is known.
    pub open spec fn unknown_of(self, coords: Set<Coord>) -> Set<Coord> {
        Set::new(|coord: Coord| coords.contains(coord) && self.unknown(coord))
    }

    /// Whether there are as many queens as the board has rows.
    pub open spec fn complete(self) -> bool {
        queen_count(self.squares) == self.board.size
    }

    /// Whether no row, no column and no color holds two queens, and no
    /// queen lies in the elimination set of another.
    pub open spec fn is_valid(self) -> bool {
        &&& forall|a: Coord, b: Coord|
            self.queen(a) && self.queen(b) && a.0 == b.0 ==> a == b
        &&& forall|a: Coord, b: Coord|
            self.queen(a) && self.queen(b) && a.1 == b.1 ==> a == b
        &&& forall|a: Coord, b: Coord|
            self.queen(a) && self.queen(b) && self.board.color(a) == self.board.color(b) ==> a
                == b
        &&& forall|a: Coord, b: Coord|
            self.queen(a) && self.queen(b) ==> !self.board.border(a).contains(b)
    }

    /// Whether every square that a queen of the state forbids is marked as
    /// unable to hold a queen. The rules of the catalog rely on this, and
    /// keep it.
    pub open spec fn consistent(self) -> bool {
        forall|queen: Coord, coord: Coord|
            self.queen(queen) && self.board.forbids(queen, coord) ==> self.square(coord) == Some(
                SquareVal::X,
            )
    }

    /// Whether a set of changes names squares of the board only.
    pub open spec fn holds(self, changes: ChangesView) -> bool {
        &&& forall|coord: Coord| changes.x.contains(coord) ==> self.board.contains(coord)
        &&& changes.queen matches Some(queen) ==> self.board.contains(queen)
    }

    /// Whether a set of changes is a step of a solution: it marks only
    /// squares of which nothing is known; if it places a queen, it marks
    /// every square that the queen forbids and of which nothing was known,
    /// and not the queen's own square; if it places none, it marks a square.
    pub open spec fn admits(self, changes: ChangesView) -> bool {
        &&& forall|coord: Coord| changes.x.contains(coord) ==> self.unknown(coord)
        &&& match changes.queen {
            Some(queen) => {
                &&& self.unknown(queen)
                &&& !changes.x.contains(queen)
                &&& forall|coord: Coord|
                    self.board.forbids(queen, coord) && self.unknown(coord) ==> changes.x.contains(
                        coord,
                    )
            },
            None => exists|coord: Coord| changes.x.contains(coord),
        }
    }

    /// The state after a set of changes: the squares to eliminate are
    /// marked, the queen is placed unless its square is among them, and
    /// every other square is as it was.
    pub open spec fn apply(self, changes: ChangesView) -> SolveStateView {
        SolveStateView {
            board: self.board,
            squares: Seq::new(
                self.squares.len(),
                |index: int|
                    if changes.x.contains(self.board.coord(index)) {
                        Some(SquareVal::X)
                    } else if changes.queen == Some(self.board.coord(index)) {
                        Some(SquareVal::Queen)
                    } else {
                        self.squares[index]
                    },
            ),
        }
    }
}

/// What `owo_colors` writes for a character in a foreground color on a
/// background color, each color given by its place.
pub uninterp spec fn painted(glyph: char, foreground: int, background: int) -> Seq<char>;

/// What `owo_colors` writes for a bold, underlined character in a
/// foreground color on a background color, each color given by its place.
pub uninterp spec fn painted_emphasized(glyph: char, foreground: int, background: int) -> Seq<
    char,
>;

/// `OwoColorize::color` and `OwoColorize::on_color` on a character, with
/// the ANSI colors at two places, written out: the character in the first
/// color on the second.
#[verifier::external_body]
fn paint(glyph: char, foreground: usize, background: usize) -> (text: String)
    requires
        foreground < 16,
        background < 16,
    ensures
        text@ == painted(glyph, foreground as int, background as int),
{
    let ansi = [
        AnsiColors::Black, AnsiColors::Red, AnsiColors::Green, AnsiColors::Yellow,
        AnsiColors::Blue, AnsiColors::Magenta, AnsiColors::Cyan, AnsiColors::White,
        AnsiColors::BrightBlack, AnsiColors::BrightRed, AnsiColors::BrightGreen,
        AnsiColors::BrightYellow, AnsiColors::BrightBlue, AnsiColors::BrightMagenta,
        AnsiColors::BrightCyan, AnsiColors::BrightWhite,
    ];
    format!("{}", glyph.color(ansi[foreground]).on_color(ansi[background]))
}

/// `OwoColorize::color`, `on_color`, `bold` and `underline` on a
/// character, with the ANSI colors at two places, written out: the
/// character, bold and underlined, in the first color on the second.
#[verifier::external_body]
fn paint_emphasized(glyph: char, foreground: usize, background: usize) -> (text: String)
    requires
        foreground < 16,
        background < 16,
    ensures
        text@ == painted_emphasized(glyph, foreground as int, background as int),
{
    let ansi = [
        AnsiColors::Black, AnsiColors::Red, AnsiColors::Green, AnsiColors::Yellow,
        AnsiColors::Blue, AnsiColors::Magenta, AnsiColors::Cyan, AnsiColors::White,
        AnsiColors::BrightBlack, AnsiColors::BrightRed, AnsiColors::BrightGreen,
        AnsiColors::BrightYellow, AnsiColors::BrightBlue, AnsiColors::BrightMagenta,
        AnsiColors::BrightCyan, AnsiColors::BrightWhite,
    ];
    format!("{}", glyph.color(ansi[foreground]).on_color(ansi[background]).bold().underline())
}

/// A square of a state as it is drawn in color: its glyph, on the color of
/// the square, in the foreground color that goes with it; bold and
/// underlined where the square is highlighted.
pub open spec fn painted_square(
    state: SolveStateView,
    highlight: Set<Coord>,
    charset: Charset,
    coord: Coord,
) -> Seq<char> {
    let highlighted = highlight.contains(coord);
    let glyph = square_glyph(state.square(coord), highlighted, charset);
    let background = state.board.color(coord);
    let foreground = color_foreground(background);
    if highlighted {
        painted_emphasized(glyph, color_place(foreground), color_place(background))
    } else {
        painted(glyph, color_place(foreground), color_place(background))
    }
}

/// The first `n` squares of a row of a state as they are drawn in color.
pub open spec fn painted_row(
    state: SolveStateView,
    highlight: Set<Coord>,
    charset: Charset,
    r: usize,
    n: nat,
) -> Seq<char>
    decreases n,
{
    if n == 0 {
        Seq::empty()
    } else {
        painted_row(state, highlight, charset, r, (n - 1) as nat) + painted_square(
            state,
            highlight,
            charset,
            (r, (n - 1) as usize),
        )
    }
}

/// A state as it is drawn in color: its rows, with a line feed between
/// them.
pub open spec fn painted_state(
    state: SolveStateView,
    highlight: Set<Coord>,
    charset: Charset,
) -> Seq<char> {
    joined_lines(
        Seq::new(
            state.board.size,
            |r: int| painted_row(state, highlight, charset, r as usize, state.board.size),
        ),
    )
}

/// The text of a state: the text of the board, an empty line, and the
/// squares in plain characters, row after row.
pub open spec fn state_text(state: SolveStateView) -> Seq<char> {
    board_text(state.board) + seq!['\n', '\n'] + joined_lines(
        square_rows(state.board.size, state.squares),
    )
}

/// What is known of the squares of a board when a saved state is taken
/// up: as saved, but every square that a saved queen forbids, and of which
/// nothing was saved, is marked as unable to hold a queen.
pub open spec fn taken_up(board: BoardView, saved: Seq<Option<SquareVal>>) -> Seq<
    Option<SquareVal>,
> {
    Seq::new(
        saved.len(),
        |index: int|
            if saved[index] is None && exists|queen: Coord|
                board.contains(queen) && saved[board.index(queen)] == Some(SquareVal::Queen)
                    && board.forbids(queen, board.coord(index)) {
                Some(SquareVal::X)
            } else {
                saved[index]
            },
    )
}

/// A board in the course of being solved: the board, and what is known of
/// each of its squares, whether it holds a queen, cannot hold one, or is
/// still open.
///
/// The rules of the catalog expect that every square that a placed queen
/// forbids is marked. A state made from a board alone, and one that the
/// rules have changed, is so. A saved state may lack such marks: taking it
/// up with [`SolveState::from_queens_file`] adds them.
#[derive(Debug)]
pub struct SolveState<'a> {
    board: &'a Board,
    squares: Vec<Option<SquareVal>>,
}

impl<'a> View for SolveState<'a> {
    type V = SolveStateView;

    closed spec fn view(&self) -> SolveStateView {
        SolveStateView { board: self.board@, squares: self.squares@ }
    }
}

impl<'a> Clone for SolveState<'a> {
    /// A copy of the state, with its own list of squares.
    fn clone(&self) -> (copy: Self)
        ensures
            copy@ == self@,
    {
        proof {
            use_type_invariant(self);
        }
        let mut squares: Vec<Option<SquareVal>> = Vec::new();
        for index in 0..self.squares.len()
            invariant
                squares@ == self.squares@.take(index as int),
        {
            squares.push(self.squares[index]);
            assert(self.squares@.take(index + 1) =~= self.squares@.take(index as int).push(
                self.squares@[index as int],
            ));
        }
        assert(self.squares@.take(self.squares@.len() as int) =~= self.squares@);
        SolveState { board: self.board, squares }
    }
}

impl<'a> SolveState<'a> {
    /// What holds of every state: its board is well formed, and it has an
    /// entry for each square of the board.
    #[verifier::type_invariant]
    pub open spec fn inv(&self) -> bool {
        self@.wf()
    }

    /// The state of a board of which nothing is known yet.
    pub fn from_board(board: &'a Board) -> (state: SolveState<'a>)
        ensures
            state@.wf(),
            state@.board == board@,
            state@.squares == Seq::new(board@.square_count(), |index: int| None::<SquareVal>),
            state@.consistent(),
    {
        let count = board.square_count();
        let mut squares: Vec<Option<SquareVal>> = Vec::new();
        for index in 0..count
            invariant
                squares@ == Seq::new(index as nat, |index: int| None::<SquareVal>),
        {
            squares.push(None);
            assert(squares@ =~= Seq::new((index + 1) as nat, |index: int| None::<SquareVal>));
        }
        let state = SolveState { board, squares };
        proof {
            lemma_blank_is_consistent(state@);
        }
        state
    }

    /// Takes up the state that a file holds: the saved state if there is
    /// one, else the state of which nothing is known.
    ///
    /// A saved state may name queens without the marks that they imply.
    /// For every saved queen, every square that it forbids and of which
    /// nothing is known is marked.
    pub fn from_queens_file(queens_file: &'a QueensFile) -> (state: SolveState<'a>)
        requires
            queens_file.squares matches Some(saved) ==> saved.0@.len()
                == queens_file.board@.square_count(),
        ensures
            state@.wf(),
            state@.board == queens_file.board@,
            state@.squares == match queens_file.squares {
                Some(saved) => taken_up(queens_file.board@, saved.0@),
                None => Seq::new(
                    queens_file.board@.square_count(),
                    |index: int| None::<SquareVal>,
                ),
            },
    {
        let board = &queens_file.board;
        let mut state = SolveState::from_board(board);
        match &queens_file.squares {
            None => { state },
            Some(saved) => {
                let size = board.size();
                let count = board.square_count();
                for index in 0..count
                    invariant
                        state@.wf(),
                        state@.board == board@,
                        saved.0@.len() == count == board@.square_count(),
                        state@.squares == Seq::new(
                            count as nat,
                            |at: int|
                                if at < index {
                                    saved.0@[at]
                                } else {
                                    None
                                },
                        ),
                {
                    state.squares[index] = saved.0[index];
                    assert(state@.squares =~= Seq::new(
                        count as nat,
                        |at: int|
                            if at < index + 1 {
                                saved.0@[at]
                            } else {
                                None
                            },
                    ));
                }
                assert(state@.squares =~= saved.0@);
                let ghost view = board@;
                for index in 0..count
                    invariant
                        view == board@,
                        view.wf(),
                        state@.wf(),
                        state@.board == board@,
                        size == view.size,
                        saved.0@.len() == count == view.square_count(),
                        forall|at: int|
                            0 <= at < count ==> #[trigger] state@.squares[at] == if saved.0@[at]
                                is None && exists|queen: Coord|
                                view.contains(queen) && view.index(queen) < index
                                    && saved.0@[view.index(queen)] == Some(SquareVal::Queen)
                                    && view.forbids(queen, view.coord(at)) {
                                Some(SquareVal::X)
                            } else {
                                saved.0@[at]
                            },
                {
                    let ghost before = state@;
                    proof {
                        lemma_square_of_place(size as int, index as int);
                    }
                    if is_queen(saved.0[index]) {
                        let queen = board.idx_to_coord(&index);
                        assert(view.contains(queen) && view.index(queen) == index);
                        let border = board.queen_borders(&queen);
                        let x = state.unknown_in(&border);
                        state.apply_changes(&Changes::AddQueen { queen, x });
                        proof {
                            assert forall|at: int| 0 <= at < count implies #[trigger] state@.squares[at]
                                == if saved.0@[at] is None && exists|other: Coord|
                                view.contains(other) && view.index(other) < index + 1
                                    && saved.0@[view.index(other)] == Some(SquareVal::Queen)
                                    && view.forbids(other, view.coord(at)) {
                                Some(SquareVal::X)
                            } else {
                                saved.0@[at]
                            } by {
                                lemma_square_of_place(size as int, at);
                                let coord = view.coord(at);
                                assert(view.contains(coord) && view.index(coord) == at);
                                let marked_before = saved.0@[at] is None && exists|other: Coord|
                                    view.contains(other) && view.index(other) < index
                                        && saved.0@[view.index(other)] == Some(SquareVal::Queen)
                                        && view.forbids(other, coord);
                                let marked_after = saved.0@[at] is None && exists|other: Coord|
                                    view.contains(other) && view.index(other) < index + 1
                                        && saved.0@[view.index(other)] == Some(SquareVal::Queen)
                                        && view.forbids(other, coord);
                                assert(before.squares[at] == if marked_before {
                                    Some(SquareVal::X)
                                } else {
                                    saved.0@[at]
                                });
                                if x@.contains(coord) {
                                    assert(view.forbids(queen, coord));
                                    assert(before.squares[at] is None);
                                    assert(marked_after);
                                } else if at == index {
                                    assert(coord == queen);
                                    assert(!marked_after);
                                } else if marked_after {
                                    let other = choose|other: Coord|
                                        view.contains(other) && view.index(other) < index + 1
                                            && saved.0@[view.index(other)] == Some(
                                            SquareVal::Queen,
                                        ) && view.forbids(other, coord);
                                    if view.index(other) == index {
                                        lemma_place_of_square(
                                            size as int,
                                            other.0 as int,
                                            other.1 as int,
                                        );
                                        assert(other == queen);
                                        assert(before.unknown(coord) ==> x@.contains(coord));
                                    }
                                }
                            }
                        }
                    } else {
                        proof {
                            assert forall|at: int| 0 <= at < count implies #[trigger] state@.squares[at]
                                == if saved.0@[at] is None && exists|other: Coord|
                                view.contains(other) && view.index(other) < index + 1
                                    && saved.0@[view.index(other)] == Some(SquareVal::Queen)
                                    && view.forbids(other, view.coord(at)) {
                                Some(SquareVal::X)
                            } else {
                                saved.0@[at]
                            } by {
                                let coord = view.coord(at);
                                let marked_before = saved.0@[at] is None && exists|other: Coord|
                                    view.contains(other) && view.index(other) < index
                                        && saved.0@[view.index(other)] == Some(SquareVal::Queen)
                                        && view.forbids(other, coord);
                                let marked_after = saved.0@[at] is None && exists|other: Coord|
                                    view.contains(other) && view.index(other) < index + 1
                                        && saved.0@[view.index(other)] == Some(SquareVal::Queen)
                                        && view.forbids(other, coord);
                                if marked_after && !marked_before {
                                    let other = choose|other: Coord|
                                        view.contains(other) && view.index(other) < index + 1
                                            && saved.0@[view.index(other)] == Some(
                                            SquareVal::Queen,
                                        ) && view.forbids(other, coord);
                                    assert(view.index(other) == index);
                                }
                            }
                        }
                    }
                }
                proof {
                    assert forall|at: int| 0 <= at < count implies state@.squares[at] == taken_up(
                        view,
                        saved.0@,
                    )[at] by {
                        let coord = view.coord(at);
                        if saved.0@[at] is None {
                            if exists|queen: Coord|
                                view.contains(queen) && saved.0@[view.index(queen)] == Some(
                                    SquareVal::Queen,
                                ) && view.forbids(queen, coord) {
                                let queen = choose|queen: Coord|
                                    view.contains(queen) && saved.0@[view.index(queen)] == Some(
                                        SquareVal::Queen,
                                    ) && view.forbids(queen, coord);
                                lemma_place_of_square(size as int, queen.0 as int, queen.1 as int);
                                assert(view.index(queen) < count);
                            }
                        }
                    }
                    assert(state@.squares =~= taken_up(view, saved.0@));
                }
                state
            },
        }
    }

    /// The state as it is drawn in color for a terminal: each square is
    /// its glyph on the color of the square, and the highlighted squares
    /// are bold and underlined.
    pub fn ansi_string(&self, highlight: CoordSet, charset: Charset) -> (text: String)
        ensures
            text@ == painted_state(self@, highlight@, charset),
    {
        proof {
            use_type_invariant(self);
        }
        let board = self.board;
        let size = board.size();
        let ghost target = Seq::new(
            size as nat,
            |r: int| painted_row(self@, highlight@, charset, r as usize, size as nat),
        );
        let mut rows: Vec<Vec<char>> = Vec::new();
        for r in 0..size
            invariant
                self@.wf(),
                board@ == self@.board,
                size == self@.board.size,
                target == Seq::new(
                    size as nat,
                    |r: int| painted_row(self@, highlight@, charset, r as usize, size as nat),
                ),
                line_views(rows@) == target.take(r as int),
        {
            let mut row = String::new();
            for c in 0..size
                invariant
                    self@.wf(),
                    board@ == self@.board,
                    size == self@.board.size,
                    r < size,
                    row@ == painted_row(self@, highlight@, charset, r, c as nat),
            {
                proof {
                    lemma_place_of_square(size as int, r as int, c as int);
                }
                let coord = (r, c);
                let highlighted = highlight.contains(&coord);
                let background = board.color(&coord);
                let foreground = background.fg_color();
                let glyph = SquareVal::as_char(self.square(&coord), highlighted, &charset);
                let square = if highlighted {
                    paint_emphasized(glyph, foreground.place(), background.place())
                } else {
                    paint(glyph, foreground.place(), background.place())
                };
                push_text(&mut row, square.as_str());
            }
            let chars = chars_of(row.as_str());
            let ghost before = rows@;
            rows.push(chars);
            assert(line_views(rows@) =~= line_views(before).push(target[r as int]));
            assert(target.take(r + 1) =~= target.take(r as int).push(target[r as int]));
        }
        assert(target.take(size as int) =~= target);
        assert(line_views(rows@).subrange(0, size as int) =~= line_views(rows@));
        let chars = join_lines(&rows, 0, size);
        text_of(&chars)
    }

    /// The text of the state: the text of the board, an empty line, and
    /// the squares in plain characters, row after row.
    pub fn to_string(&self) -> (text: String)
        ensures
            text@ == state_text(self@),
    {
        proof {
            use_type_invariant(self);
        }
        let size = self.board.size();
        let mut text = self.board.to_string();
        text.push('\n');
        text.push('\n');
        let mut rows: Vec<Vec<char>> = Vec::new();
        for r in 0..size
            invariant
                self@.wf(),
                size == self@.board.size,
                line_views(rows@) == square_rows(size as nat, self@.squares).take(r as int),
        {
            let mut row: Vec<char> = Vec::new();
            for c in 0..size
                invariant
                    self@.wf(),
                    size == self@.board.size,
                    r < size,
                    row@ == square_rows(size as nat, self@.squares)[r as int].take(c as int),
            {
                proof {
                    lemma_place_of_square(size as int, r as int, c as int);
                    lemma_square_count_bound(size as int);
                }
                row.push(SquareVal::as_char(self.squares[r * size + c], false, &Charset::Ascii));
                assert(row@ =~= square_rows(size as nat, self@.squares)[r as int].take(c + 1));
            }
            assert(square_rows(size as nat, self@.squares)[r as int].take(size as int)
                =~= square_rows(size as nat, self@.squares)[r as int]);
            let ghost before = rows@;
            let ghost target = square_rows(size as nat, self@.squares);
            assert(row@ == target[r as int]);
            rows.push(row);
            assert(line_views(rows@) =~= line_views(before).push(target[r as int]));
            assert(target.take(r + 1) =~= target.take(r as int).push(target[r as int]));
        }
        assert(square_rows(size as nat, self@.squares).take(size as int) =~= square_rows(
            size as nat,
            self@.squares,
        ));
        assert(line_views(rows@).subrange(0, size as int) =~= line_views(rows@));
        let chars = join_lines(&rows, 0, size);
        let squares = text_of(&chars);
        push_text(&mut text, squares.as_str());
        assert(text@ =~= state_text(self@));
        text
    }

    /// The board that the state is of.
    pub fn board(&self) -> (board: &'a Board)
        ensures
            board@ == self@.board,
            self@.wf(),
    {
        proof {
            use_type_invariant(self);
        }
        self.board
    }

    /// Whether the board is complete: whether there are as many queens as
    /// the board has rows.
    pub fn complete(&self) -> (complete: bool)
        ensures
            complete == self@.complete(),
    {
        proof {
            use_type_invariant(self);
            lemma_square_count_bound(self.board@.size as int);
        }
        let mut count: usize = 0;
        for index in 0..self.squares.len()
            invariant
                self.squares@.len() <= 256,
                count <= index,
                count == queen_count(self.squares@.take(index as int)),
        {
            assert(self.squares@.take(index + 1).drop_last() =~= self.squares@.take(index as int));
            if is_queen(self.squares[index]) {
                count += 1;
            }
        }
        assert(self.squares@.take(self.squares@.len() as int) =~= self.squares@);
        count == self.board.size()
    }

    /// Whether the state is valid: no row, no column and no color holds
    /// two queens, and no queen lies in the elimination set of another.
    pub fn is_valid(&self) -> (valid: bool)
        ensures
            valid == self@.is_valid(),
    {
        proof {
            use_type_invariant(self);
        }
        let board = self.board;
        let size = board.size();
        let queens = self.queens();
        for r in 0..size
            invariant
                self@.wf(),
                board@ == self@.board,
                size == self@.board.size,
                queens@ == Set::new(|coord: Coord| self@.queen(coord)),
                forall|a: Coord, b: Coord|
                    self@.queen(a) && a.0 < r && self@.queen(b) ==> !self@.board.forbids(a, b),
        {
            for c in 0..size
                invariant
                    self@.wf(),
                    board@ == self@.board,
                    size == self@.board.size,
                    r < size,
                    queens@ == Set::new(|coord: Coord| self@.queen(coord)),
                    forall|a: Coord, b: Coord|
                        self@.queen(a) && (a.0 < r || (a.0 == r && a.1 < c)) && self@.queen(b)
                            ==> !self@.board.forbids(a, b),
            {
                let queen = (r, c);
                proof {
                    lemma_place_of_square(size as int, r as int, c as int);
                }
                if queens.contains(&queen) {
                    let threatened = board.queen_borders(&queen).intersection(&queens);
                    if !threatened.is_empty() {
                        proof {
                            lemma_member_of_nonempty(threatened@);
                            let other = choose|other: Coord| threatened@.contains(other);
                            assert(queens@.contains(queen) && queens@.contains(other));
                            assert(self@.queen(queen) && self@.queen(other));
                            assert(self@.board.border(queen).contains(other));
                        }
                        return false;
                    }
                    proof {
                        assert forall|b: Coord| self@.queen(b) implies !self@.board.forbids(
                            queen,
                            b,
                        ) by {
                            assert(queens@.contains(b));
                            assert(!threatened@.contains(b));
                        }
                    }
                } else {
                    assert(!self@.queen(queen));
                }
            }
        }
        proof {
            lemma_valid_if_none_forbidden(self@);
        }
        true
    }

    /// What is known of a square.
    pub fn square(&self, coord: &Coord) -> (square: Option<SquareVal>)
        requires
            self@.board.index(*coord) < self@.board.square_count(),
        ensures
            square == self@.square(*coord),
    {
        proof {
            use_type_invariant(self);
            lemma_square_count_bound(self.board@.size as int);
        }
        self.squares[self.board.coord_to_idx(coord)]
    }

    /// Makes a set of changes to the state: places the queen, if the
    /// changes hold one, then marks every square to eliminate.
    ///
    /// Nothing is checked: a mark can fall on a queen, and a queen on a
    /// mark.
    pub fn apply_changes(&mut self, changes: &Changes)
        requires
            old(self)@.holds(changes@),
        ensures
            final(self)@ == old(self)@.apply(changes@),
            final(self)@.wf(),
    {
        proof {
            use_type_invariant(&*self);
            lemma_square_count_bound(self.board@.size as int);
        }
        let board = self.board;
        let size = board.size();
        let ghost start = self@;
        let x = match changes {
            Changes::AddQueen { queen, x } => {
                proof {
                    lemma_place_of_square(size as int, queen.0 as int, queen.1 as int);
                }
                let index = board.coord_to_idx(queen);
                self.squares[index] = Some(SquareVal::Queen);
                x
            },
            Changes::AddX { x } => x,
        };
        let ghost placed = self@;
        proof {
            assert forall|index: int|
                0 <= index < placed.squares.len() implies #[trigger] placed.squares[index]
                == if changes@.queen == Some(start.board.coord(index)) {
                Some(SquareVal::Queen)
            } else {
                start.squares[index]
            } by {
                lemma_square_of_place(size as int, index);
                match changes@.queen {
                    Some(queen) => {
                        lemma_place_of_square(size as int, queen.0 as int, queen.1 as int);
                    },
                    None => {},
                }
            }
        }
        for r in 0..size
            invariant
                board@ == start.board,
                size == start.board.size,
                start.wf(),
                self@.wf(),
                self@.board == start.board,
                x@ == changes@.x,
                forall|index: int|
                    0 <= index < self@.squares.len() ==> #[trigger] self@.squares[index] == if x@.contains(
                        start.board.coord(index),
                    ) && start.board.coord(index).0 < r {
                        Some(SquareVal::X)
                    } else if changes@.queen == Some(start.board.coord(index)) {
                        Some(SquareVal::Queen)
                    } else {
                        start.squares[index]
                    },
        {
            for c in 0..size
                invariant
                    board@ == start.board,
                    size == start.board.size,
                    r < size,
                    start.wf(),
                    self@.wf(),
                    self@.board == start.board,
                    x@ == changes@.x,
                    forall|index: int|
                        0 <= index < self@.squares.len() ==> #[trigger] self@.squares[index]
                            == if x@.contains(start.board.coord(index)) && (start.board.coord(
                            index,
                        ).0 < r || (start.board.coord(index).0 == r && start.board.coord(index).1
                            < c)) {
                            Some(SquareVal::X)
                        } else if changes@.queen == Some(start.board.coord(index)) {
                            Some(SquareVal::Queen)
                        } else {
                            start.squares[index]
                        },
            {
                let ghost before = self@;
                proof {
                    lemma_place_of_square(size as int, r as int, c as int);
                    lemma_square_count_bound(size as int);
                }
                if x.contains(&(r, c)) {
                    let at = board.coord_to_idx(&(r, c));
                    self.squares[at] = Some(SquareVal::X);
                }
                proof {
                    assert forall|index: int|
                        0 <= index < self@.squares.len() implies #[trigger] self@.squares[index]
                        == if x@.contains(start.board.coord(index)) && (start.board.coord(index).0
                        < r || (start.board.coord(index).0 == r && start.board.coord(index).1 < c
                        + 1)) {
                        Some(SquareVal::X)
                    } else if changes@.queen == Some(start.board.coord(index)) {
                        Some(SquareVal::Queen)
                    } else {
                        start.squares[index]
                    } by {
                        lemma_square_of_place(size as int, index);
                        assert(before.squares[index] == if x@.contains(start.board.coord(index))
                            && (start.board.coord(index).0 < r || (start.board.coord(index).0 == r
                            && start.board.coord(index).1 < c)) {
                            Some(SquareVal::X)
                        } else if changes@.queen == Some(start.board.coord(index)) {
                            Some(SquareVal::Queen)
                        } else {
                            start.squares[index]
                        });
                    }
                }
            }
        }
        proof {
            assert forall|index: int| 0 <= index < self@.squares.len() implies self@.squares[index]
                == start.apply(changes@).squares[index] by {
                lemma_square_of_place(size as int, index);
            }
            assert(self@.squares =~= start.apply(changes@).squares);
        }
    }

    /// The squares of a set that are on the board and of which nothing is
    /// known.
    pub fn unknown_in(&self, coords: &CoordSet) -> (unknown: CoordSet)
        ensures
            unknown@ == self@.unknown_of(coords@),
    {
        proof {
            use_type_invariant(self);
        }
        let size = self.board.size();
        let mut unknown = CoordSet::default();
        for r in 0..size
            invariant
                self@.wf(),
                size == self@.board.size,
                unknown@ == Set::new(
                    |coord: Coord| self@.unknown_of(coords@).contains(coord) && coord.0 < r,
                ),
        {
            for c in 0..size
                invariant
                    self@.wf(),
                    size == self@.board.size,
                    r < size,
                    unknown@ == Set::new(
                        |coord: Coord|
                            self@.unknown_of(coords@).contains(coord) && (coord.0 < r || (coord.0
                                == r && coord.1 < c)),
                    ),
            {
                proof {
                    lemma_place_of_square(size as int, r as int, c as int);
                }
                if coords.contains(&(r, c)) && self.square(&(r, c)).is_none() {
                    unknown.add((r, c));
                }
                assert(unknown@ =~= Set::new(
                    |coord: Coord|
                        self@.unknown_of(coords@).contains(coord) && (coord.0 < r || (coord.0 == r
                            && coord.1 < c + 1)),
                ));
            }
            assert(unknown@ =~= Set::new(
                |coord: Coord| self@.unknown_of(coords@).contains(coord) && coord.0 < r + 1,
            ));
        }
        assert(unknown@ =~= self@.unknown_of(coords@));
        unknown
    }

    /// The squares that hold a queen.
    pub fn queens(&self) -> (queens: CoordSet)
        ensures
            queens@ == Set::new(|coord: Coord| self@.queen(coord)),
    {
        proof {
            use_type_invariant(self);
        }
        let size = self.board.size();
        let mut queens = CoordSet::default();
        for r in 0..size
            invariant
                self@.wf(),
                size == self@.board.size,
                queens@ == Set::new(|coord: Coord| self@.queen(coord) && coord.0 < r),
        {
            for c in 0..size
                invariant
                    self@.wf(),
                    size == self@.board.size,
                    r < size,
                    queens@ == Set::new(
                        |coord: Coord|
                            self@.queen(coord) && (coord.0 < r || (coord.0 == r && coord.1 < c)),
                    ),
            {
                proof {
                    lemma_place_of_square(size as int, r as int, c as int);
                }
                if is_queen(self.square(&(r, c))) {
                    queens.add((r, c));
                }
                assert(queens@ =~= Set::new(
                    |coord: Coord|
                        self@.queen(coord) && (coord.0 < r || (coord.0 == r && coord.1 < c + 1)),
                ));
            }
            assert(queens@ =~= Set::new(|coord: Coord| self@.queen(coord) && coord.0 < r + 1));
        }
        assert(queens@ =~= Set::new(|coord: Coord| self@.queen(coord)));
        queens
    }
}

/// A set that is not the empty set has a member.
pub proof fn lemma_member_of_nonempty<T>(set: Set<T>)
    requires
        set != Set::<T>::empty(),
    ensures
        exists|member: T| set.contains(member),
{
    if forall|member: T| !set.contains(member) {
        assert(set =~= Set::<T>::empty());
    }
}

/// Whether a square is known to hold a queen.
pub fn is_queen(square: Option<SquareVal>) -> (queen: bool)
    ensures
        queen == (square == Some(SquareVal::Queen)),
{
    match square {
        Some(SquareVal::Queen) => true,
        _ => false,
    }
}

/// A state in which no queen forbids another is valid: two queens in one
/// row, in one column or of one color would forbid each other.
pub proof fn lemma_valid_if_none_forbidden(state: SolveStateView)
    requires
        forall|a: Coord, b: Coord| state.queen(a) && state.queen(b) ==> !state.board.forbids(a, b),
    ensures
        state.is_valid(),
{
    assert forall|a: Coord, b: Coord| state.queen(a) && state.queen(b) && a.0 == b.0 implies a
        == b by {
        assert(!state.board.forbids(a, b));
    }
    assert forall|a: Coord, b: Coord| state.queen(a) && state.queen(b) && a.1 == b.1 implies a
        == b by {
        assert(!state.board.forbids(a, b));
    }
    assert forall|a: Coord, b: Coord|
        state.queen(a) && state.queen(b) && state.board.color(a) == state.board.color(
            b,
        ) implies a == b by {
        assert(!state.board.forbids(a, b));
    }
}

/// A consistent state is valid.
pub proof fn lemma_consistent_is_valid(state: SolveStateView)
    requires
        state.consistent(),
    ensures
        state.is_valid(),
{
    assert forall|a: Coord, b: Coord| state.queen(a) && state.queen(b) implies !state.board.forbids(
        a,
        b,
    ) by {
        if state.board.forbids(a, b) {
            assert(state.square(b) == Some(SquareVal::X));
        }
    }
    lemma_valid_if_none_forbidden(state);
}

/// A state of which nothing is known is consistent.
pub proof fn lemma_blank_is_consistent(state: SolveStateView)
    requires
        state.wf(),
        forall|index: int| 0 <= index < state.squares.len() ==> state.squares[index] is None,
    ensures
        state.consistent(),
{
    assert forall|queen: Coord, coord: Coord|
        state.queen(queen) && state.board.forbids(queen, coord) implies state.square(coord)
        == Some(SquareVal::X) by {
        lemma_place_of_square(state.board.size as int, queen.0 as int, queen.1 as int);
    }
}

/// The number of squares of which nothing is known.
pub open spec fn open_count(squares: Seq<Option<SquareVal>>) -> nat
    decreases squares.len(),
{
    if squares.len() == 0 {
        0
    } else {
        open_count(squares.drop_last()) + if squares.last() is None {
            1nat
        } else {
            0nat
        }
    }
}

/// Where no square that was settled is open again, no more squares are
/// open than were.
pub proof fn lemma_no_more_open(before: Seq<Option<SquareVal>>, after: Seq<Option<SquareVal>>)
    requires
        before.len() == after.len(),
        forall|index: int| 0 <= index < after.len() && after[index] is None ==> before[index] is None,
    ensures
        open_count(after) <= open_count(before),
    decreases before.len(),
{
    if before.len() > 0 {
        lemma_no_more_open(before.drop_last(), after.drop_last());
    }
}

/// Where no square that was settled is open again, and one that was open
/// is settled, fewer squares are open than were.
pub proof fn lemma_fewer_open(
    before: Seq<Option<SquareVal>>,
    after: Seq<Option<SquareVal>>,
    settled: int,
)
    requires
        before.len() == after.len(),
        forall|index: int| 0 <= index < after.len() && after[index] is None ==> before[index] is None,
        0 <= settled < before.len(),
        before[settled] is None,
        after[settled] is Some,
    ensures
        open_count(after) < open_count(before),
    decreases before.len(),
{
    if settled == before.len() - 1 {
        lemma_no_more_open(before.drop_last(), after.drop_last());
    } else {
        lemma_fewer_open(before.drop_last(), after.drop_last(), settled);
    }
}

/// A step of a solution settles a square: after it fewer squares are
/// open than before.
pub proof fn lemma_step_settles_a_square(state: SolveStateView, changes: ChangesView)
    requires
        state.wf(),
        state.admits(changes),
    ensures
        open_count(state.apply(changes).squares) < open_count(state.squares),
{
    let settled = match changes.queen {
        Some(queen) => queen,
        None => choose|coord: Coord| changes.x.contains(coord),
    };
    assert(state.unknown(settled));
    lemma_place_of_square(state.board.size as int, settled.0 as int, settled.1 as int);
    assert(state.board.coord(state.board.index(settled)) == settled);
    lemma_fewer_open(state.squares, state.apply(changes).squares, state.board.index(settled));
}

/// Taking up a saved state that is valid gives a consistent state.
pub proof fn lemma_taken_up_is_consistent(board: BoardView, saved: Seq<Option<SquareVal>>)
    requires
        board.wf(),
        saved.len() == board.square_count(),
        (SolveStateView { board, squares: saved }).is_valid(),
    ensures
        (SolveStateView { board, squares: taken_up(board, saved) }).consistent(),
{
    let before = SolveStateView { board, squares: saved };
    let after = SolveStateView { board, squares: taken_up(board, saved) };
    assert forall|queen: Coord, coord: Coord|
        after.queen(queen) && board.forbids(queen, coord) implies after.square(coord) == Some(
        SquareVal::X,
    ) by {
        lemma_place_of_square(board.size as int, queen.0 as int, queen.1 as int);
        lemma_place_of_square(board.size as int, coord.0 as int, coord.1 as int);
        assert(before.queen(queen));
        assert(board.coord(board.index(coord)) == coord);
        if saved[board.index(coord)] == Some(SquareVal::Queen) {
            assert(before.queen(coord));
            assert(board.border(queen).contains(coord));
        }
    }
}

/// Taking up a saved state in which every square that a queen forbids is
/// settled changes nothing.
pub proof fn lemma_taken_up_same(board: BoardView, saved: Seq<Option<SquareVal>>)
    requires
        board.wf(),
        saved.len() == board.square_count(),
        forall|queen: Coord, coord: Coord|
            board.contains(queen) && saved[board.index(queen)] == Some(SquareVal::Queen)
                && board.forbids(queen, coord) ==> saved[board.index(coord)] is Some,
    ensures
        taken_up(board, saved) == saved,
{
    assert forall|index: int| 0 <= index < saved.len() implies taken_up(board, saved)[index]
        == saved[index] by {
        lemma_square_of_place(board.size as int, index);
        let coord = board.coord(index);
        assert(board.index(coord) == index);
    }
    assert(taken_up(board, saved) =~= saved);
}

/// A step of a solution names squares of the board only.
pub proof fn lemma_admitted_holds(state: SolveStateView, changes: ChangesView)
    requires
        state.admits(changes),
    ensures
        state.holds(changes),
{
    assert forall|coord: Coord| changes.x.contains(coord) implies state.board.contains(coord) by {
        assert(state.unknown(coord));
    }
}

/// A step of a solution keeps a consistent state consistent.
pub proof fn lemma_apply_keeps_consistent(state: SolveStateView, changes: ChangesView)
    requires
        state.wf(),
        state.consistent(),
        state.admits(changes),
    ensures
        state.apply(changes).wf(),
        state.apply(changes).consistent(),
        state.apply(changes).is_valid(),
{
    let after = state.apply(changes);
    let size = state.board.size as int;
    assert forall|coord: Coord| state.board.contains(coord) implies after.square(coord) == if changes.x.contains(
        coord,
    ) {
        Some(SquareVal::X)
    } else if changes.queen == Some(coord) {
        Some(SquareVal::Queen)
    } else {
        state.square(coord)
    } by {
        lemma_place_of_square(size, coord.0 as int, coord.1 as int);
    }
    assert forall|queen: Coord, coord: Coord|
        after.queen(queen) && after.board.forbids(queen, coord) implies after.square(coord)
        == Some(SquareVal::X) by {
        if state.queen(queen) {
            assert(state.square(coord) == Some(SquareVal::X));
        } else {
            assert(changes.queen == Some(queen));
            if state.queen(coord) {
                assert(state.board.forbids(coord, queen));
                assert(state.square(queen) == Some(SquareVal::X));
            }
            if state.unknown(coord) {
                assert(changes.x.contains(coord));
            }
        }
    }
    lemma_consistent_is_valid(after);
}

} // verus!
