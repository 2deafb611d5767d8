use vstd::prelude::*;

use crate::board::{lemma_place_of_square, Board, BoardView};
use crate::catalog::{
    all_fit, catalog, color_places, heuristics_for, line_numbers, lists, powerset, powerset_of,
    rule_views, Rule,
};
use crate::datastructure::{coord_rank, Coord, CoordSet, LineSet, SquareColorSet};
use crate::solvestate::{lemma_member_of_nonempty, SolveState, SolveStateView, SolveStrategy};
use crate::squarecolor::SquareColor;
use crate::text::{decimal, push_decimal, push_text};

verus! {

/// What a set of changes is, as mathematics: the square of the queen that
/// it places, if it places one, and the squares that it eliminates.
pub struct ChangesView {
    /// The square on which a queen is placed, if one is.
    pub queen: Option<Coord>,
    /// The squares that are marked as unable to hold a queen.
    pub x: Set<Coord>,
}

/// The changes that a rule makes to a state.
#[derive(Debug, PartialEq, Eq)]
pub enum Changes {
    /// A queen is placed, and the squares that can no longer hold one are
    /// marked.
    AddQueen {
        /// The square of the new queen.
        queen: Coord,
        /// The squares to mark.
        x: CoordSet,
    },
    /// Squares that cannot hold a queen are marked.
    AddX {
        /// The squares to mark.
        x: CoordSet,
    },
}

impl View for Changes {
    type V = ChangesView;

    open spec fn view(&self) -> ChangesView {
        match self {
            Changes::AddQueen { queen, x } => ChangesView { queen: Some(*queen), x: x@ },
            Changes::AddX { x } => ChangesView { queen: None, x: x@ },
        }
    }
}

impl ChangesView {
    /// The squares that the changes touch: those that are marked, and that
    /// of the queen.
    pub open spec fn changed_coords(self) -> Set<Coord> {
        match self.queen {
            Some(queen) => self.x.insert(queen),
            None => self.x,
        }
    }
}

impl Changes {
    /// The squares that the changes touch.
    pub fn changed_coords(&self) -> (coords: CoordSet)
        requires
            self@.queen matches Some(queen) ==> queen.0 < 16 && queen.1 < 16,
        ensures
            coords@ == self@.changed_coords(),
    {
        match self {
            Changes::AddQueen { queen, x } => {
                let mut cs = *x;
                cs.add(*queen);
                cs
            },
            Changes::AddX { x } => *x,
        }
    }
}

/// A deduction rule for a Queens board.
///
/// A rule is made for a board. It looks at a state of that board and
/// either proposes changes or proposes nothing.
pub trait Heuristic {
    /// Whether the rule can be used on a board: whether every square that
    /// it names is a square of the board.
    spec fn fits(&self, board: BoardView) -> bool;

    /// The changes that the rule proposes in a state, if it proposes any.
    spec fn spec_changes(&self, state: SolveStateView) -> Option<ChangesView>;

    /// The squares that the rule looks at in a state.
    spec fn spec_seen_coords(&self, state: SolveStateView) -> Set<Coord>;

    /// What the rule says of itself.
    spec fn spec_description(&self) -> Seq<char>;

    /// What a rule proposes is a step of a solution: the state admits it.
    proof fn lemma_changes_admitted(&self, state: SolveStateView)
        requires
            state.wf(),
            self.fits(state.board),
        ensures
            self.spec_changes(state) matches Some(changes) ==> state.admits(changes),
    ;

    /// The changes that the rule proposes in a state, or `None` where it
    /// sees nothing to change.
    fn changes(&self, solve_state: &SolveState) -> (changes: Option<Changes>)
        requires
            self.fits(solve_state@.board),
        ensures
            match changes {
                Some(found) => self.spec_changes(solve_state@) == Some(found@),
                None => self.spec_changes(solve_state@) is None,
            },
    ;

    /// The squares that the rule looks at in a state: what a display
    /// highlights, and what a solver counts when it prefers rules that look
    /// at few squares.
    fn seen_coords(&self, solve_state: &SolveState) -> (seen: CoordSet)
        requires
            self.fits(solve_state@.board),
        ensures
            seen@ == self.spec_seen_coords(solve_state@),
    ;

    /// What the rule says of itself, in two lines: first what it saw, then
    /// what it does.
    fn description(&self) -> (text: String)
        ensures
            text@ == self.spec_description(),
    ;
}

/// The only member of a set, if the set has exactly one.
pub open spec fn sole_member(set: Set<Coord>) -> Option<Coord> {
    if exists|only: Coord| is_sole_member(set, only) {
        Some(choose|only: Coord| is_sole_member(set, only))
    } else {
        None
    }
}

/// Whether a square is in a set and no other square is.
pub open spec fn is_sole_member(set: Set<Coord>, only: Coord) -> bool {
    set.contains(only) && forall|other: Coord| set.contains(other) ==> other == only
}

/// The squares that a queen on any square of a set would forbid, whichever
/// square of the set it stood on. An empty set forbids nothing.
pub open spec fn forbidden_by_all(board: BoardView, queens: Set<Coord>) -> Set<Coord> {
    Set::new(
        |coord: Coord|
            (exists|queen: Coord| queens.contains(queen)) && forall|queen: Coord|
                queens.contains(queen) ==> board.forbids(queen, coord),
    )
}

/// Whether a state has a queen on a square of a set.
pub open spec fn holds_queen(state: SolveStateView, coords: Set<Coord>) -> bool {
    exists|coord: Coord| coords.contains(coord) && state.queen(coord)
}

/// The rule of the last square: where all squares but one of a row, of a
/// column or of a color are ruled out, the one that is left holds the queen.
#[derive(Debug)]
pub struct LastSquareAvailable {
    /// The squares of the row, of the column or of the color.
    pub coords: CoordSet,
    /// The name of the row, of the column or of the color.
    pub desc: String,
}

impl Heuristic for LastSquareAvailable {
    open spec fn fits(&self, board: BoardView) -> bool {
        forall|coord: Coord| self.coords@.contains(coord) ==> board.contains(coord)
    }

    open spec fn spec_changes(&self, state: SolveStateView) -> Option<ChangesView> {
        match sole_member(state.unknown_of(self.coords@)) {
            Some(queen) => Some(
                ChangesView {
                    queen: Some(queen),
                    x: state.unknown_of(state.board.border(queen)),
                },
            ),
            None => None,
        }
    }

    open spec fn spec_seen_coords(&self, state: SolveStateView) -> Set<Coord> {
        self.coords@
    }

    open spec fn spec_description(&self) -> Seq<char> {
        "There is only one possiblity left for "@ + self.desc@
            + ".\nFill that in with a Queen (and x out new impossibilities)"@
    }

    proof fn lemma_changes_admitted(&self, state: SolveStateView) {
    }

    fn changes(&self, solve_state: &SolveState) -> (changes: Option<Changes>) {
        let open = solve_state.unknown_in(&self.coords);
        let mut walk = open.iter();
        proof {
            open.lemma_coords_in_range();
        }
        match walk.next() {
            None => {
                assert(!exists|only: Coord| is_sole_member(open@, only));
                None
            },
            Some(queen) => {
                match walk.next() {
                    Some(other) => {
                        assert(other != queen);
                        assert(!exists|only: Coord| is_sole_member(open@, only));
                        None
                    },
                    None => {
                        let board = solve_state.board();
                        proof {
                            assert forall|other: Coord| open@.contains(other) implies other
                                == queen by {
                                assert(coord_rank(other) == coord_rank(queen));
                            }
                            assert(is_sole_member(open@, queen));
                            lemma_place_of_square(
                                board@.size as int,
                                queen.0 as int,
                                queen.1 as int,
                            );
                        }
                        let border = board.queen_borders(&queen);
                        let x = solve_state.unknown_in(&border);
                        Some(Changes::AddQueen { queen, x })
                    },
                }
            },
        }
    }

    fn seen_coords(&self, _solve_state: &SolveState) -> (seen: CoordSet) {
        self.coords
    }

    fn description(&self) -> (text: String) {
        let mut text = String::new();
        push_text(&mut text, "There is only one possiblity left for ");
        push_text(&mut text, self.desc.as_str());
        push_text(&mut text, ".\nFill that in with a Queen (and x out new impossibilities)");
        assert(text@ =~= self.spec_description());
        text
    }
}

/// Where one square of a color is open and every other square of that
/// color is settled, the rule of the last square for the color places a
/// queen on the open square, and marks every open square that a queen
/// there forbids.
pub proof fn lemma_last_square_of_color(
    state: SolveStateView,
    rule: LastSquareAvailable,
    color: SquareColor,
    open: Coord,
)
    requires
        state.wf(),
        rule.coords@ == state.board.color_group(color),
        state.board.contains(open),
        state.board.color(open) == color,
        state.unknown(open),
        forall|other: Coord|
            state.board.contains(other) && state.board.color(other) == color && other != open
                ==> !state.unknown(other),
    ensures
        rule.spec_changes(state) == Some(
            ChangesView { queen: Some(open), x: state.unknown_of(state.board.border(open)) },
        ),
{
    let set = state.unknown_of(rule.coords@);
    assert(is_sole_member(set, open));
    let chosen = choose|only: Coord| is_sole_member(set, only);
    assert(chosen == open);
}

/// The rule of the shared shadow: a square that every open square of a row,
/// of a column or of a color forbids cannot hold a queen, wherever the
/// queen of that row, column or color will stand.
#[derive(Debug)]
pub struct AllPossibilitiesEliminateSquare {
    /// The squares of the row, of the column or of the color.
    pub coords: CoordSet,
    /// The name of the row, of the column or of the color.
    pub desc: String,
}

impl Heuristic for AllPossibilitiesEliminateSquare {
    open spec fn fits(&self, board: BoardView) -> bool {
        forall|coord: Coord| self.coords@.contains(coord) ==> board.contains(coord)
    }

    open spec fn spec_changes(&self, state: SolveStateView) -> Option<ChangesView> {
        let x = state.unknown_of(
            forbidden_by_all(state.board, state.unknown_of(self.coords@)),
        );
        if x == Set::<Coord>::empty() {
            None
        } else {
            Some(ChangesView { queen: None, x })
        }
    }

    open spec fn spec_seen_coords(&self, state: SolveStateView) -> Set<Coord> {
        state.unknown_of(self.coords@)
    }

    open spec fn spec_description(&self) -> Seq<char> {
        "All of the possible queens for "@ + self.desc@
            + " eliminate certain squares.\nx out those squares."@
    }

    proof fn lemma_changes_admitted(&self, state: SolveStateView) {
        let x = state.unknown_of(
            forbidden_by_all(state.board, state.unknown_of(self.coords@)),
        );
        if x != Set::<Coord>::empty() {
            lemma_member_of_nonempty(x);
            let member = choose|member: Coord| x.contains(member);
            let changes = ChangesView { queen: None, x };
            assert(changes.x.contains(member));
            assert(exists|coord: Coord| changes.x.contains(coord));
            assert forall|coord: Coord| changes.x.contains(coord) implies state.unknown(coord) by {}
            assert(state.admits(changes));
        }
    }

    fn changes(&self, solve_state: &SolveState) -> (changes: Option<Changes>) {
        let open = solve_state.unknown_in(&self.coords);
        let board = solve_state.board();
        let size = board.size();
        let mut shared = CoordSet::default();
        let mut started = false;
        for r in 0..size
            invariant
                solve_state@.wf(),
                board@ == solve_state@.board,
                size == board@.size,
                open@ == solve_state@.unknown_of(self.coords@),
                started == exists|queen: Coord| open@.contains(queen) && queen.0 < r,
                shared@ == Set::new(
                    |coord: Coord|
                        started && forall|queen: Coord|
                            open@.contains(queen) && queen.0 < r ==> board@.forbids(queen, coord),
                ),
        {
            assert(started == exists|queen: Coord|
                open@.contains(queen) && (queen.0 < r || (queen.0 == r && queen.1 < 0)));
            assert(shared@ =~= Set::new(
                |coord: Coord|
                    started && forall|queen: Coord|
                        open@.contains(queen) && (queen.0 < r || (queen.0 == r && queen.1 < 0))
                            ==> board@.forbids(queen, coord),
            ));
            for c in 0..size
                invariant
                    solve_state@.wf(),
                    board@ == solve_state@.board,
                    size == board@.size,
                    r < size,
                    open@ == solve_state@.unknown_of(self.coords@),
                    started == exists|queen: Coord|
                        open@.contains(queen) && (queen.0 < r || (queen.0 == r && queen.1 < c)),
                    shared@ == Set::new(
                        |coord: Coord|
                            started && forall|queen: Coord|
                                open@.contains(queen) && (queen.0 < r || (queen.0 == r && queen.1
                                    < c)) ==> board@.forbids(queen, coord),
                    ),
            {
                let ghost before = shared@;
                let ghost started_before = started;
                proof {
                    lemma_place_of_square(size as int, r as int, c as int);
                }
                if open.contains(&(r, c)) {
                    let border = board.queen_borders(&(r, c));
                    if started {
                        shared = shared.intersection(&border);
                    } else {
                        shared = border;
                        started = true;
                    }
                    proof {
                        assert(open@.contains((r, c)) && (r < r || (r == r && c < c + 1)));
                        assert forall|coord: Coord|
                            shared@.contains(coord) == (started && forall|queen: Coord|
                                open@.contains(queen) && (queen.0 < r || (queen.0 == r && queen.1
                                    < c + 1)) ==> board@.forbids(queen, coord)) by {
                            if shared@.contains(coord) {
                                assert forall|queen: Coord|
                                    open@.contains(queen) && (queen.0 < r || (queen.0 == r
                                        && queen.1 < c + 1)) implies board@.forbids(
                                    queen,
                                    coord,
                                ) by {
                                    if queen != (r, c) {
                                        assert(queen.0 < r || (queen.0 == r && queen.1 < c));
                                        assert(started_before);
                                        assert(before.contains(coord));
                                    }
                                }
                            }
                        }
                        assert(shared@ =~= Set::new(
                            |coord: Coord|
                                started && forall|queen: Coord|
                                    open@.contains(queen) && (queen.0 < r || (queen.0 == r
                                        && queen.1 < c + 1)) ==> board@.forbids(queen, coord),
                        ));
                    }
                } else {
                    proof {
                        assert forall|queen: Coord|
                            (open@.contains(queen) && (queen.0 < r || (queen.0 == r && queen.1 < c
                                + 1))) == (open@.contains(queen) && (queen.0 < r || (queen.0 == r
                                && queen.1 < c))) by {
                            if queen.0 == r && queen.1 == c {
                                assert(queen == (r, c));
                            }
                        }
                        assert(shared@ =~= Set::new(
                            |coord: Coord|
                                started && forall|queen: Coord|
                                    open@.contains(queen) && (queen.0 < r || (queen.0 == r
                                        && queen.1 < c + 1)) ==> board@.forbids(queen, coord),
                        ));
                    }
                }
            }
            assert(started == exists|queen: Coord| open@.contains(queen) && queen.0 < r + 1) by {
                assert forall|queen: Coord|
                    (open@.contains(queen) && (queen.0 < r || (queen.0 == r && queen.1 < size)))
                        == (open@.contains(queen) && queen.0 < r + 1) by {}
            }
            assert(shared@ =~= Set::new(
                |coord: Coord|
                    started && forall|queen: Coord|
                        open@.contains(queen) && queen.0 < r + 1 ==> board@.forbids(queen, coord),
            ));
        }
        proof {
            assert forall|queen: Coord| open@.contains(queen) implies queen.0 < size by {}
            assert(shared@ =~= forbidden_by_all(board@, open@));
        }
        let x = solve_state.unknown_in(&shared);
        if x.is_empty() {
            None
        } else {
            Some(Changes::AddX { x })
        }
    }

    fn seen_coords(&self, solve_state: &SolveState) -> (seen: CoordSet) {
        solve_state.unknown_in(&self.coords)
    }

    fn description(&self) -> (text: String) {
        let mut text = String::new();
        push_text(&mut text, "All of the possible queens for ");
        push_text(&mut text, self.desc.as_str());
        push_text(&mut text, " eliminate certain squares.\nx out those squares.");
        assert(text@ =~= self.spec_description());
        text
    }
}

/// The rule of lines that hold few colors: where the open squares of some
/// rows, or of some columns, have no more colors than there are lines, the
/// queens of those colors stand in those lines, and no square of those
/// colors elsewhere can hold a queen.
#[derive(Debug)]
pub struct NLinesContainOnlyNColors {
    /// The squares of each of the lines.
    pub lines: Vec<CoordSet>,
    /// The name of the lines.
    pub desc: String,
}

impl NLinesContainOnlyNColors {
    /// The squares of all the lines.
    pub open spec fn cells(&self) -> Set<Coord> {
        Set::new(
            |coord: Coord|
                exists|line: int|
                    0 <= line < self.lines@.len() && (#[trigger] self.lines@[line])@.contains(coord),
        )
    }

    /// The squares of all the lines.
    pub fn all_cells(&self) -> (cells: CoordSet)
        ensures
            cells@ == self.cells(),
    {
        let mut cells = CoordSet::default();
        for k in 0..self.lines.len()
            invariant
                cells@ == Set::new(
                    |coord: Coord|
                        exists|line: int|
                            0 <= line < k && (#[trigger] self.lines@[line])@.contains(coord),
                ),
        {
            let ghost before = cells@;
            cells = cells.union(&self.lines[k]);
            proof {
                assert forall|coord: Coord|
                    cells@.contains(coord) == (exists|line: int|
                        0 <= line < k + 1 && (#[trigger] self.lines@[line])@.contains(coord)) by {
                    if before.contains(coord) {
                        let line = choose|line: int|
                            0 <= line < k && (#[trigger] self.lines@[line])@.contains(coord);
                        assert(0 <= line < k + 1 && self.lines@[line]@.contains(coord));
                    }
                    if self.lines@[k as int]@.contains(coord) {
                        assert(0 <= k < k + 1 && self.lines@[k as int]@.contains(coord));
                    }
                    if exists|line: int|
                        0 <= line < k + 1 && (#[trigger] self.lines@[line])@.contains(coord) {
                        let line = choose|line: int|
                            0 <= line < k + 1 && (#[trigger] self.lines@[line])@.contains(coord);
                        if line < k {
                            assert(before.contains(coord));
                        }
                    }
                }
                assert(cells@ =~= Set::new(
                    |coord: Coord|
                        exists|line: int|
                            0 <= line < k + 1 && (#[trigger] self.lines@[line])@.contains(coord),
                ));
            }
        }
        assert(cells@ =~= self.cells());
        cells
    }
}

impl Heuristic for NLinesContainOnlyNColors {
    open spec fn fits(&self, board: BoardView) -> bool {
        forall|coord: Coord| self.cells().contains(coord) ==> board.contains(coord)
    }

    open spec fn spec_changes(&self, state: SolveStateView) -> Option<ChangesView> {
        let open = state.unknown_of(self.cells());
        let colors = state.board.colors_of(open);
        let x = state.unknown_of(state.board.with_colors(colors).difference(open));
        if holds_queen(state, self.cells()) || colors.len() > self.lines@.len() || x == Set::<
            Coord,
        >::empty() {
            None
        } else {
            Some(ChangesView { queen: None, x })
        }
    }

    open spec fn spec_seen_coords(&self, state: SolveStateView) -> Set<Coord> {
        state.unknown_of(self.cells())
    }

    open spec fn spec_description(&self) -> Seq<char> {
        "There are only "@ + decimal(self.lines@.len()) + " remaining colors on "@ + self.desc@
            + ".\nx out all other instances of those colors"@
    }

    proof fn lemma_changes_admitted(&self, state: SolveStateView) {
        let open = state.unknown_of(self.cells());
        let colors = state.board.colors_of(open);
        let x = state.unknown_of(state.board.with_colors(colors).difference(open));
        if x != Set::<Coord>::empty() {
            lemma_member_of_nonempty(x);
            let member = choose|member: Coord| x.contains(member);
            let changes = ChangesView { queen: None, x };
            assert(changes.x.contains(member));
            assert(exists|coord: Coord| changes.x.contains(coord));
            assert forall|coord: Coord| changes.x.contains(coord) implies state.unknown(coord) by {}
            assert(state.admits(changes));
        }
    }

    fn changes(&self, solve_state: &SolveState) -> (changes: Option<Changes>) {
        let board = solve_state.board();
        let cells = self.all_cells();
        let queens = solve_state.queens();
        let crowned = cells.intersection(&queens);
        if !crowned.is_empty() {
            proof {
                lemma_member_of_nonempty(crowned@);
                let coord = choose|coord: Coord| crowned@.contains(coord);
                assert(cells@.contains(coord) && solve_state@.queen(coord));
            }
            return None;
        }
        proof {
            assert(!holds_queen(solve_state@, self.cells())) by {
                if holds_queen(solve_state@, self.cells()) {
                    let coord = choose|coord: Coord|
                        self.cells().contains(coord) && solve_state@.queen(coord);
                    assert(crowned@.contains(coord));
                }
            }
        }
        let open = solve_state.unknown_in(&cells);
        let colors_set = board.colors_of(&open);
        if colors_set.len() > self.lines.len() {
            return None;
        }
        let elsewhere = board.coords_with_colors(&colors_set).difference(&open);
        let x = solve_state.unknown_in(&elsewhere);
        if x.is_empty() {
            None
        } else {
            Some(Changes::AddX { x })
        }
    }

    fn seen_coords(&self, solve_state: &SolveState) -> (seen: CoordSet) {
        let cells = self.all_cells();
        solve_state.unknown_in(&cells)
    }

    fn description(&self) -> (text: String) {
        let mut text = String::new();
        push_text(&mut text, "There are only ");
        push_decimal(&mut text, self.lines.len());
        push_text(&mut text, " remaining colors on ");
        push_text(&mut text, self.desc.as_str());
        push_text(&mut text, ".\nx out all other instances of those colors");
        assert(text@ =~= self.spec_description());
        text
    }
}

/// Which lines a rule speaks of: the rows or the columns.
#[derive(Clone, Copy, Debug, PartialEq, Eq, Structural)]
pub enum Liner {
    /// The line of a square is its row.
    Row,
    /// The line of a square is its column.
    Col,
}

impl Liner {
    /// The number of the line of a square.
    pub open spec fn spec_line(self, coord: Coord) -> usize {
        match self {
            Liner::Row => coord.0,
            Liner::Col => coord.1,
        }
    }

    /// The lines of the squares of a set.
    pub open spec fn lines_of(self, coords: Set<Coord>) -> Set<usize> {
        Set::new(
            |line: usize| exists|coord: Coord| coords.contains(coord) && self.spec_line(coord) == line,
        )
    }

    /// The number of the line of a square.
    pub fn line(&self, coord: Coord) -> (line: usize)
        ensures
            line == self.spec_line(coord),
    {
        match self {
            Liner::Row => coord.0,
            Liner::Col => coord.1,
        }
    }
}

/// The rule of colors that lie in few lines: where the open squares of some
/// colors lie in no more rows, or columns, than there are colors, the
/// queens of those lines are of those colors, and no square of another
/// color in those lines can hold a queen.
#[derive(Debug)]
pub struct NColorsOnlyAppearInNLines {
    /// The colors.
    pub colors: SquareColorSet,
    /// Whether the rule speaks of rows or of columns.
    pub liner: Liner,
    /// The names of the colors.
    pub color_desc: String,
    /// The word for the lines: rows, or columns.
    pub liner_desc: String,
}

impl Heuristic for NColorsOnlyAppearInNLines {
    open spec fn fits(&self, board: BoardView) -> bool {
        true
    }

    open spec fn spec_changes(&self, state: SolveStateView) -> Option<ChangesView> {
        let cells = state.board.with_colors(self.colors@);
        let lines = self.liner.lines_of(state.unknown_of(cells));
        let x = Set::new(
            |coord: Coord|
                state.unknown(coord) && lines.contains(self.liner.spec_line(coord))
                    && !self.colors@.contains(state.board.color(coord)),
        );
        if holds_queen(state, cells) || lines.len() > self.colors@.len() || x == Set::<
            Coord,
        >::empty() {
            None
        } else {
            Some(ChangesView { queen: None, x })
        }
    }

    open spec fn spec_seen_coords(&self, state: SolveStateView) -> Set<Coord> {
        state.unknown_of(state.board.with_colors(self.colors@))
    }

    open spec fn spec_description(&self) -> Seq<char> {
        self.color_desc@ + " appear on only "@ + decimal(self.colors@.len()) + " "@
            + self.liner_desc@ + ".\nx out all other colors that appear on those "@
            + self.liner_desc@
    }

    proof fn lemma_changes_admitted(&self, state: SolveStateView) {
        let cells = state.board.with_colors(self.colors@);
        let lines = self.liner.lines_of(state.unknown_of(cells));
        let x = Set::new(
            |coord: Coord|
                state.unknown(coord) && lines.contains(self.liner.spec_line(coord))
                    && !self.colors@.contains(state.board.color(coord)),
        );
        if x != Set::<Coord>::empty() {
            lemma_member_of_nonempty(x);
            let member = choose|member: Coord| x.contains(member);
            let changes = ChangesView { queen: None, x };
            assert(changes.x.contains(member));
            assert(exists|coord: Coord| changes.x.contains(coord));
            assert forall|coord: Coord| changes.x.contains(coord) implies state.unknown(coord) by {}
            assert(state.admits(changes));
        }
    }

    fn changes(&self, solve_state: &SolveState) -> (changes: Option<Changes>) {
        let board = solve_state.board();
        let size = board.size();
        let cells = board.coords_with_colors(&self.colors);
        let queens = solve_state.queens();
        let crowned = cells.intersection(&queens);
        if !crowned.is_empty() {
            proof {
                lemma_member_of_nonempty(crowned@);
                let coord = choose|coord: Coord| crowned@.contains(coord);
                assert(cells@.contains(coord) && solve_state@.queen(coord));
            }
            return None;
        }
        proof {
            assert(!holds_queen(solve_state@, cells@)) by {
                if holds_queen(solve_state@, cells@) {
                    let coord = choose|coord: Coord|
                        cells@.contains(coord) && solve_state@.queen(coord);
                    assert(crowned@.contains(coord));
                }
            }
        }
        let open = solve_state.unknown_in(&cells);
        let mut lines_set = LineSet::default();
        let ghost mut passed: Set<Coord> = Set::empty();
        assert(lines_set@ =~= self.liner.lines_of(passed));
        for r in 0..size
            invariant
                solve_state@.wf(),
                board@ == solve_state@.board,
                size == board@.size,
                open@ == solve_state@.unknown_of(cells@),
                passed == Set::new(|coord: Coord| open@.contains(coord) && coord.0 < r),
                lines_set@ == self.liner.lines_of(passed),
        {
            assert(passed =~= Set::new(
                |coord: Coord| open@.contains(coord) && (coord.0 < r || (coord.0 == r && coord.1 < 0)),
            ));
            for c in 0..size
                invariant
                    solve_state@.wf(),
                    board@ == solve_state@.board,
                    size == board@.size,
                    r < size,
                    open@ == solve_state@.unknown_of(cells@),
                    passed == Set::new(
                        |coord: Coord|
                            open@.contains(coord) && (coord.0 < r || (coord.0 == r && coord.1 < c)),
                    ),
                    lines_set@ == self.liner.lines_of(passed),
            {
                let ghost before = passed;
                proof {
                    passed = Set::new(
                        |coord: Coord|
                            open@.contains(coord) && (coord.0 < r || (coord.0 == r && coord.1 < c
                                + 1)),
                    );
                }
                if open.contains(&(r, c)) {
                    let line = self.liner.line((r, c));
                    lines_set.add(line);
                    proof {
                        assert(passed.contains((r, c)));
                        assert forall|other: usize|
                            self.liner.lines_of(passed).contains(other) implies self.liner.lines_of(
                            before,
                        ).insert(line).contains(other) by {
                            let coord = choose|coord: Coord|
                                passed.contains(coord) && self.liner.spec_line(coord) == other;
                            if coord != (r, c) {
                                assert(before.contains(coord));
                            }
                        }
                        assert forall|other: usize|
                            self.liner.lines_of(before).insert(line).contains(
                                other,
                            ) implies self.liner.lines_of(passed).contains(other) by {
                            if other != line {
                                let coord = choose|coord: Coord|
                                    before.contains(coord) && self.liner.spec_line(coord) == other;
                                assert(passed.contains(coord));
                            }
                        }
                        assert(lines_set@ =~= self.liner.lines_of(passed));
                    }
                } else {
                    proof {
                        assert(before =~= passed);
                    }
                }
            }
            assert(passed =~= Set::new(|coord: Coord| open@.contains(coord) && coord.0 < r + 1));
        }
        assert(passed =~= open@);
        if lines_set.len() > self.colors.len() {
            return None;
        }
        let ghost lines = self.liner.lines_of(open@);
        let ghost wanted = Set::new(
            |coord: Coord|
                solve_state@.unknown(coord) && lines.contains(self.liner.spec_line(coord))
                    && !self.colors@.contains(solve_state@.board.color(coord)),
        );
        let mut x = CoordSet::default();
        for r in 0..size
            invariant
                solve_state@.wf(),
                board@ == solve_state@.board,
                size == board@.size,
                lines_set@ == lines,
                wanted == Set::new(
                    |coord: Coord|
                        solve_state@.unknown(coord) && lines.contains(self.liner.spec_line(coord))
                            && !self.colors@.contains(solve_state@.board.color(coord)),
                ),
                x@ == Set::new(|coord: Coord| wanted.contains(coord) && coord.0 < r),
        {
            for c in 0..size
                invariant
                    solve_state@.wf(),
                    board@ == solve_state@.board,
                    size == board@.size,
                    r < size,
                    lines_set@ == lines,
                    wanted == Set::new(
                        |coord: Coord|
                            solve_state@.unknown(coord) && lines.contains(
                                self.liner.spec_line(coord),
                            ) && !self.colors@.contains(solve_state@.board.color(coord)),
                    ),
                    x@ == Set::new(
                        |coord: Coord|
                            wanted.contains(coord) && (coord.0 < r || (coord.0 == r && coord.1 < c)),
                    ),
            {
                proof {
                    lemma_place_of_square(size as int, r as int, c as int);
                }
                let coord = (r, c);
                if lines_set.contains(&self.liner.line(coord)) && !self.colors.contains(
                    &board.color(&coord),
                ) && solve_state.square(&coord).is_none() {
                    x.add(coord);
                }
                assert(x@ =~= Set::new(
                    |coord: Coord|
                        wanted.contains(coord) && (coord.0 < r || (coord.0 == r && coord.1 < c + 1)),
                ));
            }
            assert(x@ =~= Set::new(|coord: Coord| wanted.contains(coord) && coord.0 < r + 1));
        }
        assert(x@ =~= wanted);
        if x.is_empty() {
            None
        } else {
            Some(Changes::AddX { x })
        }
    }

    fn seen_coords(&self, solve_state: &SolveState) -> (seen: CoordSet) {
        let cells = solve_state.board().coords_with_colors(&self.colors);
        solve_state.unknown_in(&cells)
    }

    fn description(&self) -> (text: String) {
        let mut text = String::new();
        push_text(&mut text, self.color_desc.as_str());
        push_text(&mut text, " appear on only ");
        push_decimal(&mut text, self.colors.len());
        push_text(&mut text, " ");
        push_text(&mut text, self.liner_desc.as_str());
        push_text(&mut text, ".\nx out all other colors that appear on those ");
        push_text(&mut text, self.liner_desc.as_str());
        assert(text@ =~= self.spec_description());
        text
    }
}

/// What a solver weighs a rule by, among the rules that propose changes in
/// a state: first whether the rule places a queen, then, for the simple
/// strategy, how many squares of the board, and one more, the rule did not
/// look at, then how many squares it marks. A greater weight is better.
pub open spec fn rule_weight<H: Heuristic>(
    state: SolveStateView,
    strategy: SolveStrategy,
    rule: H,
) -> (int, int, int) {
    let changes = rule.spec_changes(state).unwrap();
    let placing = if changes.queen is Some {
        1int
    } else {
        0int
    };
    match strategy {
        SolveStrategy::Fast => (0, 0, 0),
        SolveStrategy::Short => (placing, changes.x.len() as int, 0),
        SolveStrategy::Simple => (
            placing,
            1 + state.board.square_count() - rule.spec_seen_coords(state).len(),
            changes.x.len() as int,
        ),
    }
}

/// Whether a weight is at most another: the first parts decide, then the
/// second, then the third.
pub open spec fn weight_le(a: (int, int, int), b: (int, int, int)) -> bool {
    a.0 < b.0 || (a.0 == b.0 && (a.1 < b.1 || (a.1 == b.1 && a.2 <= b.2)))
}

/// Whether rule `chosen` of a list is the one to use next in a state: it
/// proposes changes, and among the rules that do, it is the first of the
/// list for the fast strategy, and for the others the last of those whose
/// weight is greatest.
pub open spec fn is_next<H: Heuristic>(
    state: SolveStateView,
    strategy: SolveStrategy,
    rules: Seq<H>,
    chosen: int,
) -> bool {
    &&& 0 <= chosen < rules.len()
    &&& rules[chosen].spec_changes(state) is Some
    &&& forall|other: int|
        0 <= other < rules.len() && (#[trigger] rules[other]).spec_changes(state) is Some ==> if strategy
            == SolveStrategy::Fast {
            chosen <= other
        } else if other <= chosen {
            weight_le(
                rule_weight(state, strategy, rules[other]),
                rule_weight(state, strategy, rules[chosen]),
            )
        } else {
            !weight_le(
                rule_weight(state, strategy, rules[chosen]),
                rule_weight(state, strategy, rules[other]),
            )
        }
}

/// Whether no rule of a list proposes changes in a state.
pub open spec fn none_fires<H: Heuristic>(state: SolveStateView, rules: Seq<H>) -> bool {
    forall|other: int| 0 <= other < rules.len() ==> (#[trigger] rules[other]).spec_changes(state) is None
}

/// Whether every rule of a list can be used on a board.
pub open spec fn rules_fit<H: Heuristic>(rules: Seq<H>, board: BoardView) -> bool {
    forall|k: int| 0 <= k < rules.len() ==> (#[trigger] rules[k]).fits(board)
}

fn weight_at_most(a: (usize, usize, usize), b: (usize, usize, usize)) -> (le: bool)
    ensures
        le == weight_le((a.0 as int, a.1 as int, a.2 as int), (b.0 as int, b.1 as int, b.2 as int)),
{
    a.0 < b.0 || (a.0 == b.0 && (a.1 < b.1 || (a.1 == b.1 && a.2 <= b.2)))
}

/// The place in a list of the rule to use next in a state, or `None`
/// where no rule of the list proposes changes.
pub fn next_heuristic_index<H: Heuristic>(
    solve_state: &SolveState,
    solve_strategy: SolveStrategy,
    heuristics: &[H],
) -> (chosen: Option<usize>)
    requires
        rules_fit(heuristics@, solve_state@.board),
    ensures
        match chosen {
            Some(index) => is_next(solve_state@, solve_strategy, heuristics@, index as int),
            None => none_fires(solve_state@, heuristics@),
        },
{
    let mut best: Option<(usize, (usize, usize, usize))> = None;
    let ghost state = solve_state@;
    let ghost board_count = state.board.square_count() as int;
    for k in 0..heuristics.len()
        invariant
            state == solve_state@,
            board_count == state.board.square_count(),
            rules_fit(heuristics@, state.board),
            match best {
                None => forall|other: int|
                    0 <= other < k ==> (#[trigger] heuristics@[other]).spec_changes(state) is None,
                Some((index, weight)) => {
                    &&& index < k
                    &&& heuristics@[index as int].spec_changes(state) is Some
                    &&& solve_strategy != SolveStrategy::Fast
                    &&& weight.1 <= 256
                    &&& rule_weight(state, solve_strategy, heuristics@[index as int]) == (
                        weight.0 as int,
                        if solve_strategy == SolveStrategy::Simple {
                            weight.1 + 1 + board_count - 256
                        } else {
                            weight.1 as int
                        },
                        weight.2 as int,
                    )
                    &&& forall|other: int|
                        0 <= other < k && (#[trigger] heuristics@[other]).spec_changes(state)
                            is Some ==> if other <= index {
                            weight_le(
                                rule_weight(state, solve_strategy, heuristics@[other]),
                                rule_weight(state, solve_strategy, heuristics@[index as int]),
                            )
                        } else {
                            !weight_le(
                                rule_weight(state, solve_strategy, heuristics@[index as int]),
                                rule_weight(state, solve_strategy, heuristics@[other]),
                            )
                        }
                },
            },
    {
        let rule = &heuristics[k];
        match rule.changes(solve_state) {
            None => {},
            Some(changes) => {
                let (placing, marked) = match &changes {
                    Changes::AddQueen { queen: _, x } => (1usize, x.len()),
                    Changes::AddX { x } => (0usize, x.len()),
                };
                let weight = match solve_strategy {
                    SolveStrategy::Fast => {
                        return Some(k);
                    },
                    SolveStrategy::Short => (placing, marked, 0usize),
                    SolveStrategy::Simple => {
                        let seen = rule.seen_coords(solve_state);
                        (placing, 256 - seen.len(), marked)
                    },
                };
                let better = match best {
                    None => true,
                    Some((_, best_weight)) => weight_at_most(best_weight, weight),
                };
                if better {
                    best = Some((k, weight));
                }
            },
        }
    }
    match best {
        None => None,
        Some((index, _)) => Some(index),
    }
}

/// The rule to use next in a state, or `None` where no rule of the list
/// proposes changes.
///
/// A rule that is returned proposes changes in the state.
pub fn next_heuristic<'h, H: Heuristic>(
    solve_state: &SolveState,
    solve_strategy: SolveStrategy,
    heuristics: &'h [H],
) -> (next: Option<&'h H>)
    requires
        rules_fit(heuristics@, solve_state@.board),
    ensures
        match next {
            Some(rule) => {
                &&& rule.spec_changes(solve_state@) is Some
                &&& exists|index: int|
                    is_next(solve_state@, solve_strategy, heuristics@, index) && heuristics@[index]
                        == *rule
            },
            None => none_fires(solve_state@, heuristics@),
        },
{
    match next_heuristic_index(solve_state, solve_strategy, heuristics) {
        None => None,
        Some(index) => Some(&heuristics[index]),
    }
}

/// The catalog of a board: every rule that a solver can use on it.
///
/// There is a rule of the last square for each color, each row and each
/// column; a rule of the shared shadow for each row, each column and each
/// color; two rules of lines that hold few colors, one for columns and one
/// for rows, for each group of at most half the line numbers of the board;
/// and two rules of colors that lie in few lines, one for rows and one for
/// columns, for each group of colors of the board.
pub fn all_heuristics(board: &Board) -> (rules: Vec<Rule>)
    ensures
        rule_views(rules@) == catalog(
            board@,
            powerset_of(line_numbers(board@.size)),
            powerset_of(color_places(board@)),
        ),
        all_fit(rules@, board@),
        rules_fit(rules@, board@),
{
    let size = board.size();
    let mut lines: Vec<usize> = Vec::new();
    for line in 0..size
        invariant
            lines@ == line_numbers(line as nat),
    {
        lines.push(line);
        assert(lines@ =~= line_numbers((line + 1) as nat));
    }
    let colors = board.all_colors();
    let mut places: Vec<usize> = Vec::new();
    for k in 0..colors.len()
        invariant
            colors@ == crate::board::first_occurrences(board@.colors),
            places@ == color_places(board@).take(k as int),
    {
        places.push(colors[k].place());
        assert(places@ =~= color_places(board@).take(k + 1));
    }
    assert(color_places(board@).take(colors@.len() as int) =~= color_places(board@));
    let line_subsets = powerset(&lines);
    let color_subsets = powerset(&places);
    proof {
        assert(lists(line_subsets@) =~= powerset_of(lines@));
        assert(lists(color_subsets@) =~= powerset_of(places@));
        assert forall|i: int, j: int|
            0 <= i < line_subsets@.len() && 0 <= j < line_subsets@[i]@.len() implies #[trigger] line_subsets@[i]@[j]
            < board@.size by {
            assert(lines@.contains(line_subsets@[i]@[j]));
        }
        assert forall|i: int, j: int|
            0 <= i < color_subsets@.len() && 0 <= j < color_subsets@[i]@.len() implies #[trigger] color_subsets@[i]@[j]
            < 16 by {
            assert(places@.contains(color_subsets@[i]@[j]));
        }
    }
    heuristics_for(board, &line_subsets, &color_subsets)
}

} // verus!
