use vstd::prelude::*;

use crate::datastructure::{lemma_push_to_set, Coord, CoordSet, SquareColorSet};
use crate::file::{board_from_chars, parse_board, ParseError};
use crate::squarecolor::{color_code, SquareColor};
use crate::text::{chars_of, join_lines, joined_lines, line_views, text_of};

verus! {

/// What a board is, as mathematics: its size and the colors of its squares,
/// row after row.
pub struct BoardView {
    /// The number of rows, which is also the number of columns.
    pub size: nat,
    /// The color of every square, the rows one after the other.
    pub colors: Seq<SquareColor>,
}

impl BoardView {
    /// A board has at most 16 rows, and a color for each of its squares.
    pub open spec fn wf(self) -> bool {
        self.size <= 16 && self.colors.len() == self.size * self.size
    }

    /// The number of squares.
    pub open spec fn square_count(self) -> nat {
        self.size * self.size
    }

    /// Whether a square lies on the board.
    pub open spec fn contains(self, coord: Coord) -> bool {
        coord.0 < self.size && coord.1 < self.size
    }

    /// The place of a square in the row-after-row order.
    pub open spec fn index(self, coord: Coord) -> int {
        coord.0 * self.size + coord.1
    }

    /// The square at a place in the row-after-row order.
    pub open spec fn coord(self, index: int) -> Coord {
        ((index / self.size as int) as usize, (index % self.size as int) as usize)
    }

    /// The color of a square.
    pub open spec fn color(self, coord: Coord) -> SquareColor {
        self.colors[self.index(coord)]
    }

    /// Whether a queen on `queen` forbids a queen on `coord`: `coord` is
    /// another square of the board, and it is in the same row, in the same
    /// column, of the same color, or diagonally next to `queen`.
    pub open spec fn forbids(self, queen: Coord, coord: Coord) -> bool {
        &&& self.contains(coord)
        &&& coord != queen
        &&& {
            ||| coord.0 == queen.0
            ||| coord.1 == queen.1
            ||| self.color(coord) == self.color(queen)
            ||| ((coord.0 + 1 == queen.0 || queen.0 + 1 == coord.0) && (coord.1 + 1 == queen.1
                || queen.1 + 1 == coord.1))
        }
    }

    /// The elimination set of a square: every square that a queen on it
    /// forbids.
    pub open spec fn border(self, queen: Coord) -> Set<Coord> {
        Set::new(|coord: Coord| self.forbids(queen, coord))
    }

    /// All the squares of the board.
    pub open spec fn all_coords(self) -> Set<Coord> {
        Set::new(|coord: Coord| self.contains(coord))
    }

    /// The squares at the first `size` columns of row `r`.
    pub open spec fn row(self, r: usize) -> Set<Coord> {
        Set::new(|coord: Coord| coord.0 == r && coord.1 < self.size)
    }

    /// The squares at the first `size` rows of column `c`.
    pub open spec fn col(self, c: usize) -> Set<Coord> {
        Set::new(|coord: Coord| coord.1 == c && coord.0 < self.size)
    }

    /// The colors of the squares of a set that lie on the board.
    pub open spec fn colors_of(self, coords: Set<Coord>) -> Set<SquareColor> {
        Set::new(
            |color: SquareColor|
                exists|coord: Coord|
                    coords.contains(coord) && self.contains(coord) && self.color(coord) == color,
        )
    }

    /// The squares of the board whose color is in a set.
    pub open spec fn with_colors(self, colors: Set<SquareColor>) -> Set<Coord> {
        Set::new(|coord: Coord| self.contains(coord) && colors.contains(self.color(coord)))
    }

    /// The squares of the board that have a color.
    pub open spec fn color_group(self, color: SquareColor) -> Set<Coord> {
        Set::new(|coord: Coord| self.contains(coord) && self.color(coord) == color)
    }
}

/// The rows in which a board is written: in each row the codes of the
/// colors of its squares.
pub open spec fn board_rows(board: BoardView) -> Seq<Seq<char>> {
    Seq::new(
        board.size,
        |r: int| Seq::new(board.size, |c: int| color_code(board.colors[r * board.size + c])),
    )
}

/// The text of a board: its rows, with a line feed between them.
pub open spec fn board_text(board: BoardView) -> Seq<char> {
    joined_lines(board_rows(board))
}

/// The items of a list, each once, in the order in which they first occur.
pub open spec fn first_occurrences<T>(items: Seq<T>) -> Seq<T>
    decreases items.len(),
{
    if items.len() == 0 {
        Seq::empty()
    } else {
        let earlier = first_occurrences(items.drop_last());
        if earlier.contains(items.last()) {
            earlier
        } else {
            earlier.push(items.last())
        }
    }
}

/// A square of a board has a place below the number of squares, and the
/// place gives back the row and the column.
pub proof fn lemma_place_of_square(size: int, r: int, c: int)
    requires
        0 <= r < size,
        0 <= c < size,
    ensures
        0 <= r * size <= r * size + c < size * size,
        (r * size + c) / size == r,
        (r * size + c) % size == c,
{
    assert(r * size + c < size * size && 0 <= r * size) by (nonlinear_arith)
        requires
            0 <= r < size,
            0 <= c < size,
    ;
    vstd::arithmetic::div_mod::lemma_fundamental_div_mod_converse(r * size + c, size, r, c);
}

/// A place below the number of squares is the place of a square of the
/// board.
pub proof fn lemma_square_of_place(size: int, index: int)
    requires
        0 <= size,
        0 <= index < size * size,
    ensures
        0 <= index / size < size,
        0 <= index % size < size,
        (index / size) * size + index % size == index,
{
    assert(size > 0) by (nonlinear_arith)
        requires
            0 <= size,
            0 <= index < size * size,
    ;
    vstd::arithmetic::div_mod::lemma_fundamental_div_mod(index, size);
    vstd::arithmetic::div_mod::lemma_mod_bound(index, size);
    let q = index / size;
    let m = index % size;
    assert(0 <= q < size) by (nonlinear_arith)
        requires
            index == size * q + m,
            0 <= m < size,
            0 <= index < size * size,
    ;
    assert(q * size == size * q) by (nonlinear_arith);
}

/// A board of at most 16 rows has at most 256 squares.
pub proof fn lemma_square_count_bound(size: int)
    requires
        0 <= size <= 16,
    ensures
        0 <= size * size <= 256,
{
    assert(0 <= size * size <= 256) by (nonlinear_arith)
        requires
            0 <= size <= 16,
    ;
}

/// What forbids is mutual: if a queen on one square forbids a queen on a
/// second, a queen on the second forbids one on the first.
pub proof fn lemma_forbids_symmetric(board: BoardView, a: Coord, b: Coord)
    requires
        board.contains(a),
        board.forbids(a, b),
    ensures
        board.forbids(b, a),
{
}

/// Why a board could not be made.
#[derive(Clone, Copy, Debug, PartialEq, Eq, Structural)]
pub enum BoardError {
    /// The board would have more than 16 rows.
    TooLarge {
        /// The size that was asked for.
        size: usize,
    },
    /// The number of colors is not the square of the size.
    ColorCount {
        /// The size that was asked for.
        size: usize,
        /// The number of colors that were given.
        colors: usize,
    },
}

/// A Queens board: a square grid of colored squares.
///
/// A board says nothing of how far a player has come in solving it. It is
/// made once and never changes. What a queen on each square forbids is
/// worked out when the board is made.
#[derive(Debug)]
pub struct Board {
    size: usize,
    colors: Vec<SquareColor>,
    coords: CoordSet,
    queen_borders: Vec<CoordSet>,
}

impl View for Board {
    type V = BoardView;

    closed spec fn view(&self) -> BoardView {
        BoardView { size: self.size as nat, colors: self.colors@ }
    }
}

impl Board {
    #[verifier::type_invariant]
    spec fn inv(&self) -> bool {
        &&& self@.wf()
        &&& self.coords@ == self@.all_coords()
        &&& self.queen_borders@.len() == self@.square_count()
        &&& forall|index: int|
            0 <= index < self.queen_borders@.len() ==> (#[trigger] self.queen_borders@[index])@
                == self@.border(self@.coord(index))
    }

    /// Makes the board of the given size whose squares have the given
    /// colors, row after row.
    ///
    /// A board of more than 16 rows is refused, and so is a list that does
    /// not hold one color for each square.
    pub fn new(size: usize, colors: Vec<SquareColor>) -> (result: Result<Board, BoardError>)
        ensures
            match result {
                Ok(board) => {
                    &&& size <= 16
                    &&& colors@.len() == size * size
                    &&& board@ == (BoardView { size: size as nat, colors: colors@ })
                    &&& board@.wf()
                },
                Err(error) => if size > 16 {
                    error == (BoardError::TooLarge { size })
                } else {
                    &&& colors@.len() != size * size
                    &&& error == (BoardError::ColorCount { size, colors: colors.len() })
                },
            },
    {
        if size > 16 {
            return Err(BoardError::TooLarge { size });
        }
        proof {
            lemma_square_count_bound(size as int);
        }
        if colors.len() != size * size {
            return Err(BoardError::ColorCount { size, colors: colors.len() });
        }
        let ghost view = BoardView { size: size as nat, colors: colors@ };
        let mut coords = CoordSet::default();
        for r in 0..size
            invariant
                size <= 16,
                view.size == size,
                coords@ == Set::new(|coord: Coord| view.contains(coord) && coord.0 < r),
        {
            for c in 0..size
                invariant
                    r < size <= 16,
                    view.size == size,
                    coords@ == Set::new(
                        |coord: Coord|
                            view.contains(coord) && (coord.0 < r || (coord.0 == r && coord.1 < c)),
                    ),
            {
                coords.add((r, c));
                assert(coords@ =~= Set::new(
                    |coord: Coord|
                        view.contains(coord) && (coord.0 < r || (coord.0 == r && coord.1 < c + 1)),
                ));
            }
            assert(coords@ =~= Set::new(|coord: Coord| view.contains(coord) && coord.0 < r + 1));
        }
        assert(coords@ =~= view.all_coords());
        let queen_borders = Board::compute_queen_borders(size, &colors);
        Ok(Board { size, colors, coords, queen_borders })
    }

    /// The board that a text describes.
    ///
    /// The text has as many lines as the board has rows. Each line has a
    /// character for each square of the row: the code of its color.
    pub fn from_str(s: &str) -> (result: Result<Board, ParseError>)
        ensures
            match (result, parse_board(s@)) {
                (Ok(board), Ok(view)) => board@ == view,
                (Err(error), Err(expected)) => error == expected,
                _ => false,
            },
    {
        let chars = chars_of(s);
        board_from_chars(&chars)
    }

    /// The rows of the board as they are written.
    pub fn rows_text(&self) -> (rows: Vec<Vec<char>>)
        ensures
            line_views(rows@) == board_rows(self@),
            rows@.len() == self@.size,
    {
        proof {
            use_type_invariant(self);
        }
        let size = self.size;
        let mut rows: Vec<Vec<char>> = Vec::new();
        for r in 0..size
            invariant
                self@.wf(),
                size == self@.size,
                rows@.len() == r,
                line_views(rows@) == board_rows(self@).take(r as int),
        {
            let mut row: Vec<char> = Vec::new();
            for c in 0..size
                invariant
                    self@.wf(),
                    size == self@.size,
                    r < size,
                    row@ == board_rows(self@)[r as int].take(c as int),
            {
                proof {
                    lemma_place_of_square(size as int, r as int, c as int);
                    lemma_square_count_bound(size as int);
                }
                row.push(self.colors[r * size + c].to_char());
                assert(row@ =~= board_rows(self@)[r as int].take(c + 1));
            }
            assert(board_rows(self@)[r as int].take(size as int) =~= board_rows(self@)[r as int]);
            rows.push(row);
            assert(line_views(rows@) =~= board_rows(self@).take(r + 1));
        }
        assert(board_rows(self@).take(size as int) =~= board_rows(self@));
        rows
    }

    /// The text of the board: a line for each row, with the codes of the
    /// colors of its squares.
    pub fn to_string(&self) -> (text: String)
        ensures
            text@ == board_text(self@),
    {
        let rows = self.rows_text();
        assert(line_views(rows@).subrange(0, rows@.len() as int) =~= line_views(rows@));
        let chars = join_lines(&rows, 0, rows.len());
        text_of(&chars)
    }

    /// The number of rows of the board, which is also its number of columns.
    pub fn size(&self) -> (size: usize)
        ensures
            size == self@.size,
            self@.wf(),
    {
        proof {
            use_type_invariant(self);
        }
        self.size
    }

    /// The number of squares of the board.
    pub fn square_count(&self) -> (count: usize)
        ensures
            count == self@.square_count(),
            self@.wf(),
    {
        proof {
            use_type_invariant(self);
            lemma_square_count_bound(self.size as int);
        }
        self.size * self.size
    }

    /// The place of a square in the row-after-row order.
    pub fn coord_to_idx(&self, coord: &Coord) -> (index: usize)
        requires
            self@.index(*coord) <= usize::MAX,
        ensures
            index == self@.index(*coord),
    {
        proof {
            use_type_invariant(self);
            assert(0 <= coord.0 * self.size <= coord.0 * self.size + coord.1) by (nonlinear_arith);
        }
        coord.0 * self.size + coord.1
    }

    /// The square at a place in the row-after-row order.
    pub fn idx_to_coord(&self, idx: &usize) -> (coord: Coord)
        requires
            self@.size > 0,
        ensures
            coord == self@.coord(*idx as int),
    {
        (*idx / self.size, *idx % self.size)
    }

    /// The color of a square.
    pub fn color(&self, coord: &Coord) -> (color: SquareColor)
        requires
            self@.index(*coord) < self@.square_count(),
        ensures
            color == self@.color(*coord),
    {
        proof {
            use_type_invariant(self);
            lemma_square_count_bound(self.size as int);
        }
        self.colors[self.coord_to_idx(coord)]
    }

    /// Every color of the board once, in the order in which the colors
    /// first occur, row after row.
    pub fn all_colors(&self) -> (colors: Vec<SquareColor>)
        ensures
            colors@ == first_occurrences(self@.colors),
    {
        let mut found: Vec<SquareColor> = Vec::new();
        let mut seen = SquareColorSet::default();
        for k in 0..self.colors.len()
            invariant
                found@ == first_occurrences(self.colors@.take(k as int)),
                seen@ == found@.to_set(),
        {
            let color = self.colors[k];
            assert(self.colors@.take(k + 1).drop_last() =~= self.colors@.take(k as int));
            if !seen.contains(&color) {
                seen.add(color);
                found.push(color);
                proof {
                    let before = first_occurrences(self.colors@.take(k as int));
                    lemma_push_to_set(before, color);
                }
            }
        }
        assert(self.colors@.take(self.colors@.len() as int) =~= self.colors@);
        found
    }

    /// The squares of the board that have a color.
    pub fn coords_for_color(&self, color: &SquareColor) -> (coords: CoordSet)
        ensures
            coords@ == self@.color_group(*color),
    {
        proof {
            use_type_invariant(self);
        }
        let mut coords = CoordSet::default();
        for r in 0..self.size
            invariant
                self@.wf(),
                coords@ == Set::new(|coord: Coord| self@.color_group(*color).contains(coord) && coord.0 < r),
        {
            for c in 0..self.size
                invariant
                    self@.wf(),
                    r < self.size,
                    coords@ == Set::new(
                        |coord: Coord|
                            self@.color_group(*color).contains(coord) && (coord.0 < r || (coord.0
                                == r && coord.1 < c)),
                    ),
            {
                proof {
                    lemma_place_of_square(self.size as int, r as int, c as int);
                }
                if self.color(&(r, c)) == *color {
                    coords.add((r, c));
                }
                assert(coords@ =~= Set::new(
                    |coord: Coord|
                        self@.color_group(*color).contains(coord) && (coord.0 < r || (coord.0 == r
                            && coord.1 < c + 1)),
                ));
            }
            assert(coords@ =~= Set::new(
                |coord: Coord| self@.color_group(*color).contains(coord) && coord.0 < r + 1,
            ));
        }
        assert(coords@ =~= self@.color_group(*color));
        coords
    }

    /// The colors of the squares of a set that lie on the board.
    pub fn colors_of(&self, coords: &CoordSet) -> (colors: SquareColorSet)
        ensures
            colors@ == self@.colors_of(coords@),
    {
        proof {
            use_type_invariant(self);
        }
        let mut colors = SquareColorSet::default();
        let ghost mut passed: Set<Coord> = Set::empty();
        assert(colors@ =~= self@.colors_of(passed));
        for r in 0..self.size
            invariant
                self@.wf(),
                passed == Set::new(
                    |coord: Coord| coords@.contains(coord) && self@.contains(coord) && coord.0 < r,
                ),
                colors@ == self@.colors_of(passed),
        {
            assert(passed =~= Set::new(
                |coord: Coord|
                    coords@.contains(coord) && self@.contains(coord) && (coord.0 < r || (coord.0
                        == r && coord.1 < 0)),
            ));
            for c in 0..self.size
                invariant
                    self@.wf(),
                    r < self.size,
                    passed == Set::new(
                        |coord: Coord|
                            coords@.contains(coord) && self@.contains(coord) && (coord.0 < r || (
                            coord.0 == r && coord.1 < c)),
                    ),
                    colors@ == self@.colors_of(passed),
            {
                let ghost before = passed;
                proof {
                    lemma_place_of_square(self.size as int, r as int, c as int);
                    passed = Set::new(
                        |coord: Coord|
                            coords@.contains(coord) && self@.contains(coord) && (coord.0 < r || (
                            coord.0 == r && coord.1 < c + 1)),
                    );
                }
                if coords.contains(&(r, c)) {
                    let color = self.color(&(r, c));
                    colors.add(color);
                    proof {
                        assert(passed.contains((r, c)));
                        assert forall|other: SquareColor|
                            self@.colors_of(passed).contains(other) implies self@.colors_of(
                            before,
                        ).insert(color).contains(other) by {
                            let coord = choose|coord: Coord|
                                passed.contains(coord) && self@.contains(coord) && self@.color(
                                    coord,
                                ) == other;
                            if coord != (r, c) {
                                assert(before.contains(coord));
                            }
                        }
                        assert forall|other: SquareColor|
                            self@.colors_of(before).insert(color).contains(
                                other,
                            ) implies self@.colors_of(passed).contains(other) by {
                            if other != color {
                                let coord = choose|coord: Coord|
                                    before.contains(coord) && self@.contains(coord) && self@.color(
                                        coord,
                                    ) == other;
                                assert(passed.contains(coord));
                            }
                        }
                        assert(colors@ =~= self@.colors_of(passed));
                    }
                } else {
                    proof {
                        assert(before =~= passed);
                    }
                }
            }
            assert(passed =~= Set::new(
                |coord: Coord| coords@.contains(coord) && self@.contains(coord) && coord.0 < r + 1,
            ));
        }
        proof {
            assert forall|color: SquareColor|
                self@.colors_of(passed).contains(color) == self@.colors_of(coords@).contains(
                    color,
                ) by {
                if self@.colors_of(coords@).contains(color) {
                    let coord = choose|coord: Coord|
                        coords@.contains(coord) && self@.contains(coord) && self@.color(coord)
                            == color;
                    assert(passed.contains(coord));
                }
            }
            assert(colors@ =~= self@.colors_of(coords@));
        }
        colors
    }

    /// The squares of the board whose color is in a set.
    pub fn coords_with_colors(&self, colors: &SquareColorSet) -> (coords: CoordSet)
        ensures
            coords@ == self@.with_colors(colors@),
    {
        proof {
            use_type_invariant(self);
        }
        let mut coords = CoordSet::default();
        for r in 0..self.size
            invariant
                self@.wf(),
                coords@ == Set::new(
                    |coord: Coord| self@.with_colors(colors@).contains(coord) && coord.0 < r,
                ),
        {
            for c in 0..self.size
                invariant
                    self@.wf(),
                    r < self.size,
                    coords@ == Set::new(
                        |coord: Coord|
                            self@.with_colors(colors@).contains(coord) && (coord.0 < r || (coord.0
                                == r && coord.1 < c)),
                    ),
            {
                proof {
                    lemma_place_of_square(self.size as int, r as int, c as int);
                }
                let color = self.color(&(r, c));
                if colors.contains(&color) {
                    coords.add((r, c));
                }
                assert(coords@ =~= Set::new(
                    |coord: Coord|
                        self@.with_colors(colors@).contains(coord) && (coord.0 < r || (coord.0 == r
                            && coord.1 < c + 1)),
                ));
            }
            assert(coords@ =~= Set::new(
                |coord: Coord| self@.with_colors(colors@).contains(coord) && coord.0 < r + 1,
            ));
        }
        assert(coords@ =~= self@.with_colors(colors@));
        coords
    }

    /// All the squares of the board.
    pub fn all_coords(&self) -> (coords: &CoordSet)
        ensures
            coords@ == self@.all_coords(),
    {
        proof {
            use_type_invariant(self);
        }
        &self.coords
    }

    /// The squares of row `r`.
    pub fn row_coords(&self, r: usize) -> (coords: CoordSet)
        requires
            r < 16,
        ensures
            coords@ == self@.row(r),
    {
        proof {
            use_type_invariant(self);
        }
        let mut coords = CoordSet::default();
        for c in 0..self.size
            invariant
                r < 16,
                self.size <= 16,
                coords@ == Set::new(|coord: Coord| coord.0 == r && coord.1 < c),
        {
            coords.add((r, c));
            assert(coords@ =~= Set::new(|coord: Coord| coord.0 == r && coord.1 < c + 1));
        }
        assert(coords@ =~= self@.row(r));
        coords
    }

    /// The squares of column `c`.
    pub fn col_coords(&self, c: usize) -> (coords: CoordSet)
        requires
            c < 16,
        ensures
            coords@ == self@.col(c),
    {
        proof {
            use_type_invariant(self);
        }
        let mut coords = CoordSet::default();
        for r in 0..self.size
            invariant
                c < 16,
                self.size <= 16,
                coords@ == Set::new(|coord: Coord| coord.1 == c && coord.0 < r),
        {
            coords.add((r, c));
            assert(coords@ =~= Set::new(|coord: Coord| coord.1 == c && coord.0 < r + 1));
        }
        assert(coords@ =~= self@.col(c));
        coords
    }

    /// The elimination set of a square: every square that a queen on it
    /// forbids, by row, by column, by color or by touching it.
    ///
    /// The sets are worked out when the board is made; this looks one up.
    pub fn queen_borders(&self, queen: &Coord) -> (border: CoordSet)
        requires
            self@.index(*queen) < self@.square_count(),
        ensures
            border@ == self@.border(self@.coord(self@.index(*queen))),
            self@.contains(*queen) ==> border@ == self@.border(*queen),
    {
        proof {
            use_type_invariant(self);
            lemma_square_count_bound(self.size as int);
            if self@.contains(*queen) {
                lemma_place_of_square(self.size as int, queen.0 as int, queen.1 as int);
            }
        }
        self.queen_borders[self.coord_to_idx(queen)]
    }

    /// Works out the elimination set of every square of a board.
    fn compute_queen_borders(size: usize, colors: &Vec<SquareColor>) -> (borders: Vec<CoordSet>)
        requires
            size <= 16,
            colors@.len() == size * size,
        ensures
            borders@.len() == size * size,
            forall|index: int|
                0 <= index < borders@.len() ==> (#[trigger] borders@[index])@ == (BoardView {
                    size: size as nat,
                    colors: colors@,
                }).border((BoardView { size: size as nat, colors: colors@ }).coord(index)),
    {
        let ghost view = BoardView { size: size as nat, colors: colors@ };
        let mut borders: Vec<CoordSet> = Vec::new();
        proof {
            lemma_square_count_bound(size as int);
        }
        for idx in 0..size * size
            invariant
                size <= 16,
                colors@.len() == size * size,
                view == (BoardView { size: size as nat, colors: colors@ }),
                borders@.len() == idx,
                forall|index: int|
                    0 <= index < borders@.len() ==> (#[trigger] borders@[index])@ == view.border(
                        view.coord(index),
                    ),
        {
            proof {
                lemma_square_of_place(size as int, idx as int);
            }
            let queen: Coord = (idx / size, idx % size);
            let queen_color = colors[idx];
            let mut border = CoordSet::default();
            for r in 0..size
                invariant
                    size <= 16,
                    colors@.len() == size * size,
                    view == (BoardView { size: size as nat, colors: colors@ }),
                    idx < size * size,
                    queen == view.coord(idx as int),
                    view.contains(queen),
                    view.index(queen) == idx,
                    queen_color == view.color(queen),
                    border@ == Set::new(|coord: Coord| view.forbids(queen, coord) && coord.0 < r),
            {
                for c in 0..size
                    invariant
                        size <= 16,
                        r < size,
                        colors@.len() == size * size,
                        view == (BoardView { size: size as nat, colors: colors@ }),
                        idx < size * size,
                        queen == view.coord(idx as int),
                        view.contains(queen),
                        view.index(queen) == idx,
                        queen_color == view.color(queen),
                        border@ == Set::new(
                            |coord: Coord|
                                view.forbids(queen, coord) && (coord.0 < r || (coord.0 == r
                                    && coord.1 < c)),
                        ),
                {
                    proof {
                        lemma_place_of_square(size as int, r as int, c as int);
                        lemma_square_count_bound(size as int);
                    }
                    let touching = (r + 1 == queen.0 || queen.0 + 1 == r) && (c + 1 == queen.1
                        || queen.1 + 1 == c);
                    let forbidden = (r != queen.0 || c != queen.1) && (r == queen.0 || c == queen.1
                        || colors[r * size + c] == queen_color || touching);
                    if forbidden {
                        border.add((r, c));
                    }
                    assert(forbidden == view.forbids(queen, (r, c)));
                    assert(border@ =~= Set::new(
                        |coord: Coord|
                            view.forbids(queen, coord) && (coord.0 < r || (coord.0 == r && coord.1
                                < c + 1)),
                    ));
                }
                assert(border@ =~= Set::new(
                    |coord: Coord| view.forbids(queen, coord) && coord.0 < r + 1,
                ));
            }
            assert(border@ =~= view.border(queen));
            borders.push(border);
        }
        borders
    }
}

} // verus!
