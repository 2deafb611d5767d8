use vstd::prelude::*;

use itertools::Itertools;

use crate::board::{first_occurrences, Board, BoardView};
use crate::datastructure::{lemma_take_next_to_set, Coord, CoordSet, SquareColorSet};
use crate::heuristic::{
    AllPossibilitiesEliminateSquare, Changes, ChangesView, Heuristic, LastSquareAvailable, Liner,
    NColorsOnlyAppearInNLines, NLinesContainOnlyNColors,
};
use crate::solvestate::{SolveState, SolveStateView};
use crate::squarecolor::{color_at_place, color_name, color_place, SquareColor};
use crate::text::{bracketed, decimal, joined, lemma_joined_next, push_decimal, push_text};

verus! {

/// A rule of the catalog: one of the four kinds of rule.
#[derive(Debug)]
pub enum Rule {
    /// A rule of the last square.
    LastSquareAvailable(LastSquareAvailable),
    /// A rule of the shared shadow.
    AllPossibilitiesEliminateSquare(AllPossibilitiesEliminateSquare),
    /// A rule of lines that hold few colors.
    NLinesContainOnlyNColors(NLinesContainOnlyNColors),
    /// A rule of colors that lie in few lines.
    NColorsOnlyAppearInNLines(NColorsOnlyAppearInNLines),
}

/// What a rule of the catalog is, as mathematics: its kind, the squares,
/// lines or colors that it is about, and its names for them.
pub enum RuleView {
    /// A rule of the last square, about a set of squares.
    LastSquareAvailable { coords: Set<Coord>, desc: Seq<char> },
    /// A rule of the shared shadow, about a set of squares.
    AllPossibilitiesEliminateSquare { coords: Set<Coord>, desc: Seq<char> },
    /// A rule of lines that hold few colors, about some lines.
    NLinesContainOnlyNColors { lines: Seq<Set<Coord>>, desc: Seq<char> },
    /// A rule of colors that lie in few lines, about some colors.
    NColorsOnlyAppearInNLines {
        colors: Set<SquareColor>,
        liner: Liner,
        color_desc: Seq<char>,
        liner_desc: Seq<char>,
    },
}

impl View for Rule {
    type V = RuleView;

    open spec fn view(&self) -> RuleView {
        match self {
            Rule::LastSquareAvailable(rule) => RuleView::LastSquareAvailable {
                coords: rule.coords@,
                desc: rule.desc@,
            },
            Rule::AllPossibilitiesEliminateSquare(
                rule,
            ) => RuleView::AllPossibilitiesEliminateSquare { coords: rule.coords@, desc: rule.desc@ },
            Rule::NLinesContainOnlyNColors(rule) => RuleView::NLinesContainOnlyNColors {
                lines: rule.lines@.map_values(|line: CoordSet| line@),
                desc: rule.desc@,
            },
            Rule::NColorsOnlyAppearInNLines(rule) => RuleView::NColorsOnlyAppearInNLines {
                colors: rule.colors@,
                liner: rule.liner,
                color_desc: rule.color_desc@,
                liner_desc: rule.liner_desc@,
            },
        }
    }
}

impl Heuristic for Rule {
    open spec fn fits(&self, board: BoardView) -> bool {
        match self {
            Rule::LastSquareAvailable(rule) => rule.fits(board),
            Rule::AllPossibilitiesEliminateSquare(rule) => rule.fits(board),
            Rule::NLinesContainOnlyNColors(rule) => rule.fits(board),
            Rule::NColorsOnlyAppearInNLines(rule) => rule.fits(board),
        }
    }

    open spec fn spec_changes(&self, state: SolveStateView) -> Option<ChangesView> {
        match self {
            Rule::LastSquareAvailable(rule) => rule.spec_changes(state),
            Rule::AllPossibilitiesEliminateSquare(rule) => rule.spec_changes(state),
            Rule::NLinesContainOnlyNColors(rule) => rule.spec_changes(state),
            Rule::NColorsOnlyAppearInNLines(rule) => rule.spec_changes(state),
        }
    }

    open spec fn spec_seen_coords(&self, state: SolveStateView) -> Set<Coord> {
        match self {
            Rule::LastSquareAvailable(rule) => rule.spec_seen_coords(state),
            Rule::AllPossibilitiesEliminateSquare(rule) => rule.spec_seen_coords(state),
            Rule::NLinesContainOnlyNColors(rule) => rule.spec_seen_coords(state),
            Rule::NColorsOnlyAppearInNLines(rule) => rule.spec_seen_coords(state),
        }
    }

    open spec fn spec_description(&self) -> Seq<char> {
        match self {
            Rule::LastSquareAvailable(rule) => rule.spec_description(),
            Rule::AllPossibilitiesEliminateSquare(rule) => rule.spec_description(),
            Rule::NLinesContainOnlyNColors(rule) => rule.spec_description(),
            Rule::NColorsOnlyAppearInNLines(rule) => rule.spec_description(),
        }
    }

    proof fn lemma_changes_admitted(&self, state: SolveStateView) {
        match self {
            Rule::LastSquareAvailable(rule) => rule.lemma_changes_admitted(state),
            Rule::AllPossibilitiesEliminateSquare(rule) => rule.lemma_changes_admitted(state),
            Rule::NLinesContainOnlyNColors(rule) => rule.lemma_changes_admitted(state),
            Rule::NColorsOnlyAppearInNLines(rule) => rule.lemma_changes_admitted(state),
        }
    }

    fn changes(&self, solve_state: &SolveState) -> (changes: Option<Changes>) {
        match self {
            Rule::LastSquareAvailable(rule) => rule.changes(solve_state),
            Rule::AllPossibilitiesEliminateSquare(rule) => rule.changes(solve_state),
            Rule::NLinesContainOnlyNColors(rule) => rule.changes(solve_state),
            Rule::NColorsOnlyAppearInNLines(rule) => rule.changes(solve_state),
        }
    }

    fn seen_coords(&self, solve_state: &SolveState) -> (seen: CoordSet) {
        match self {
            Rule::LastSquareAvailable(rule) => rule.seen_coords(solve_state),
            Rule::AllPossibilitiesEliminateSquare(rule) => rule.seen_coords(solve_state),
            Rule::NLinesContainOnlyNColors(rule) => rule.seen_coords(solve_state),
            Rule::NColorsOnlyAppearInNLines(rule) => rule.seen_coords(solve_state),
        }
    }

    fn description(&self) -> (text: String) {
        match self {
            Rule::LastSquareAvailable(rule) => rule.description(),
            Rule::AllPossibilitiesEliminateSquare(rule) => rule.description(),
            Rule::NLinesContainOnlyNColors(rule) => rule.description(),
            Rule::NColorsOnlyAppearInNLines(rule) => rule.description(),
        }
    }
}

/// What each rule of a list is.
pub open spec fn rule_views(rules: Seq<Rule>) -> Seq<RuleView> {
    rules.map_values(|rule: Rule| rule@)
}

/// Every subset of a list of numbers, as `Itertools::powerset` gives them.
pub uninterp spec fn powerset_of(items: Seq<usize>) -> Seq<Seq<usize>>;

/// `Itertools::powerset` on the numbers of a list, collected: every subset
/// of the list, each as a list of its own, and each of them made of items
/// of the list.
#[verifier::external_body]
pub(crate) fn powerset(items: &Vec<usize>) -> (subsets: Vec<Vec<usize>>)
    ensures
        subsets@.len() == powerset_of(items@).len(),
        forall|i: int|
            0 <= i < subsets@.len() ==> (#[trigger] subsets@[i])@ == powerset_of(items@)[i],
        forall|i: int, j: int|
            0 <= i < subsets@.len() && 0 <= j < subsets@[i]@.len() ==> items@.contains(
                #[trigger] subsets@[i]@[j],
            ),
{
    items.iter().copied().powerset().collect()
}

/// The name of a color in the catalog: the color's name in quotes, and the
/// word `Color`.
pub open spec fn color_label(color: SquareColor) -> Seq<char> {
    "'"@ + color_name(color) + "' Color"@
}

/// The name of a line in the catalog: a word for the kind of line, and the
/// line's number, counted from one.
pub open spec fn line_label(word: Seq<char>, line: int) -> Seq<char> {
    word + decimal((line + 1) as nat)
}

/// The name of some lines in the catalog: a word for the kind of line, and
/// the list of their numbers, counted from one.
pub open spec fn lines_label(word: Seq<char>, lines: Seq<usize>) -> Seq<char> {
    word + bracketed(lines.map_values(|line: usize| decimal((line + 1) as nat)))
}

/// The name of some colors in the catalog: the list of their names.
pub open spec fn colors_label(colors: Seq<SquareColor>) -> Seq<char> {
    bracketed(colors.map_values(|color: SquareColor| color_name(color)))
}

/// The word for the lines of a kind.
pub open spec fn liner_word(liner: Liner) -> Seq<char> {
    match liner {
        Liner::Row => "rows"@,
        Liner::Col => "cols"@,
    }
}

/// The colors at the places of a list.
pub open spec fn colors_at(places: Seq<usize>) -> Seq<SquareColor> {
    places.map_values(|place: usize| color_at_place(place as int))
}

/// The rules about groups of lines: for each group of lines of a list that
/// is not empty and holds at most half as many lines as the board has, a
/// rule of lines that hold few colors for the columns of those numbers, and
/// one for the rows.
pub open spec fn line_rules(board: BoardView, subsets: Seq<Seq<usize>>) -> Seq<RuleView>
    decreases subsets.len(),
{
    if subsets.len() == 0 {
        Seq::empty()
    } else {
        let earlier = line_rules(board, subsets.drop_last());
        let lines = subsets.last();
        if lines.len() == 0 || lines.len() > board.size / 2 {
            earlier
        } else {
            earlier.push(
                RuleView::NLinesContainOnlyNColors {
                    lines: lines.map_values(|line: usize| board.col(line)),
                    desc: lines_label("Cols "@, lines),
                },
            ).push(
                RuleView::NLinesContainOnlyNColors {
                    lines: lines.map_values(|line: usize| board.row(line)),
                    desc: lines_label("Rows "@, lines),
                },
            )
        }
    }
}

/// The rules about groups of colors: for each group of colors of a list
/// that is not empty, a rule of colors that lie in few lines.
pub open spec fn color_rules(liner: Liner, subsets: Seq<Seq<usize>>) -> Seq<RuleView>
    decreases subsets.len(),
{
    if subsets.len() == 0 {
        Seq::empty()
    } else {
        let earlier = color_rules(liner, subsets.drop_last());
        let places = subsets.last();
        if places.len() == 0 {
            earlier
        } else {
            earlier.push(
                RuleView::NColorsOnlyAppearInNLines {
                    colors: colors_at(places).to_set(),
                    liner,
                    color_desc: colors_label(colors_at(places)),
                    liner_desc: liner_word(liner),
                },
            )
        }
    }
}

/// A rule about a set of squares: a rule of the last square, or else a
/// rule of the shared shadow.
pub open spec fn squares_rule(last_square: bool, coords: Set<Coord>, desc: Seq<char>) -> RuleView {
    if last_square {
        RuleView::LastSquareAvailable { coords, desc }
    } else {
        RuleView::AllPossibilitiesEliminateSquare { coords, desc }
    }
}

/// A rule for each color of a board, in the order in which the colors
/// first occur.
pub open spec fn rules_of_colors(board: BoardView, last_square: bool) -> Seq<RuleView> {
    first_occurrences(board.colors).map_values(
        |color: SquareColor|
            squares_rule(last_square, board.color_group(color), color_label(color)),
    )
}

/// A rule for each row, or for each column, of a board.
pub open spec fn rules_of_lines(board: BoardView, liner: Liner, last_square: bool) -> Seq<
    RuleView,
> {
    Seq::new(
        board.size,
        |line: int|
            squares_rule(
                last_square,
                line_squares(board, liner, line as usize),
                line_label(line_word(liner), line),
            ),
    )
}

/// The squares of a row, or of a column.
pub open spec fn line_squares(board: BoardView, liner: Liner, line: usize) -> Set<Coord> {
    match liner {
        Liner::Row => board.row(line),
        Liner::Col => board.col(line),
    }
}

/// The word before the number of a line.
pub open spec fn line_word(liner: Liner) -> Seq<char> {
    match liner {
        Liner::Row => "Row "@,
        Liner::Col => "Col "@,
    }
}

/// The catalog of a board, given the groups of lines and the groups of
/// colors to make rules about: the rules of the last square for each color,
/// each row and each column; the rules of the shared shadow for each row,
/// each column and each color; the rules about the groups of lines; the
/// rules about the groups of colors and rows, then about the groups of
/// colors and columns.
pub open spec fn catalog(
    board: BoardView,
    line_subsets: Seq<Seq<usize>>,
    color_subsets: Seq<Seq<usize>>,
) -> Seq<RuleView> {
    rules_of_colors(board, true) + rules_of_lines(board, Liner::Row, true) + rules_of_lines(
        board,
        Liner::Col,
        true,
    ) + rules_of_lines(board, Liner::Row, false) + rules_of_lines(board, Liner::Col, false)
        + rules_of_colors(board, false) + line_rules(board, line_subsets) + color_rules(
        Liner::Row,
        color_subsets,
    ) + color_rules(Liner::Col, color_subsets)
}

/// The numbers of the lines of a board, from zero up.
pub open spec fn line_numbers(size: nat) -> Seq<usize> {
    Seq::new(size, |line: int| line as usize)
}

/// The places of the colors of a board, in the order in which the colors
/// first occur.
pub open spec fn color_places(board: BoardView) -> Seq<usize> {
    first_occurrences(board.colors).map_values(|color: SquareColor| color_place(color) as usize)
}

/// The name of a color in the catalog.
pub fn color_label_text(color: SquareColor) -> (text: String)
    ensures
        text@ == color_label(color),
{
    let mut text = String::new();
    push_text(&mut text, "'");
    push_text(&mut text, color.name());
    push_text(&mut text, "' Color");
    assert(text@ =~= color_label(color));
    text
}

/// The name of a line in the catalog.
pub fn line_label_text(liner: Liner, line: usize) -> (text: String)
    requires
        line < usize::MAX,
    ensures
        text@ == line_label(line_word(liner), line as int),
{
    let mut text = String::new();
    match liner {
        Liner::Row => push_text(&mut text, "Row "),
        Liner::Col => push_text(&mut text, "Col "),
    }
    push_decimal(&mut text, line + 1);
    assert(text@ =~= line_label(line_word(liner), line as int));
    text
}

/// The name of some lines in the catalog.
pub fn lines_label_text(word: &str, lines: &Vec<usize>) -> (text: String)
    requires
        forall|k: int| 0 <= k < lines@.len() ==> lines@[k] < usize::MAX,
    ensures
        text@ == lines_label(word@, lines@),
{
    let mut text = String::new();
    push_text(&mut text, word);
    push_text(&mut text, "[");
    let ghost items = lines@.map_values(|line: usize| decimal((line + 1) as nat));
    proof {
        reveal_strlit("[");
        reveal_strlit(", ");
        reveal_strlit("]");
        assert(text@ =~= word@ + seq!['['] + joined(items.take(0)));
    }
    for k in 0..lines.len()
        invariant
            forall|k: int| 0 <= k < lines@.len() ==> lines@[k] < usize::MAX,
            items == lines@.map_values(|line: usize| decimal((line + 1) as nat)),
            ", "@ == seq![',', ' '],
            text@ == word@ + seq!['['] + joined(items.take(k as int)),
    {
        proof {
            lemma_joined_next(items, k as int);
        }
        if k > 0 {
            push_text(&mut text, ", ");
        }
        push_decimal(&mut text, lines[k] + 1);
        assert(text@ =~= word@ + seq!['['] + joined(items.take(k + 1)));
    }
    push_text(&mut text, "]");
    assert(items.take(lines@.len() as int) =~= items);
    assert(text@ =~= lines_label(word@, lines@));
    text
}

/// The name of some colors in the catalog.
pub fn colors_label_text(places: &Vec<usize>) -> (text: String)
    requires
        forall|k: int| 0 <= k < places@.len() ==> places@[k] < 16,
    ensures
        text@ == colors_label(colors_at(places@)),
{
    let mut text = String::new();
    push_text(&mut text, "[");
    let ghost items = colors_at(places@).map_values(|color: SquareColor| color_name(color));
    proof {
        reveal_strlit("[");
        reveal_strlit(", ");
        reveal_strlit("]");
        assert(text@ =~= seq!['['] + joined(items.take(0)));
    }
    for k in 0..places.len()
        invariant
            forall|k: int| 0 <= k < places@.len() ==> places@[k] < 16,
            items == colors_at(places@).map_values(|color: SquareColor| color_name(color)),
            ", "@ == seq![',', ' '],
            text@ == seq!['['] + joined(items.take(k as int)),
    {
        proof {
            lemma_joined_next(items, k as int);
        }
        if k > 0 {
            push_text(&mut text, ", ");
        }
        push_text(&mut text, SquareColor::at_place(places[k]).name());
        assert(text@ =~= seq!['['] + joined(items.take(k + 1)));
    }
    push_text(&mut text, "]");
    assert(items.take(places@.len() as int) =~= items);
    assert(text@ =~= colors_label(colors_at(places@)));
    text
}

/// The lists that a list of lists holds.
pub open spec fn lists(subsets: Seq<Vec<usize>>) -> Seq<Seq<usize>> {
    subsets.map_values(|subset: Vec<usize>| subset@)
}

/// Whether every rule of a list can be used on a board.
pub open spec fn all_fit(rules: Seq<Rule>, board: BoardView) -> bool {
    forall|k: int| 0 <= k < rules.len() ==> (#[trigger] rules[k]).fits(board)
}

/// A list that holds the first `k` items of a target, with item `k` of the
/// target put after them, holds the first `k + 1` items of the target.
proof fn lemma_push_next<T>(built: Seq<T>, target: Seq<T>, k: int, item: T)
    requires
        0 <= k < target.len(),
        built == target.take(k),
        item == target[k],
    ensures
        built.push(item) == target.take(k + 1),
{
    assert(built.push(item) =~= target.take(k + 1));
}

/// What the rules of a list are when one more rule is put after them.
proof fn lemma_views_push(rules: Seq<Rule>, rule: Rule)
    ensures
        rule_views(rules.push(rule)) == rule_views(rules).push(rule@),
{
    assert(rule_views(rules.push(rule)) =~= rule_views(rules).push(rule@));
}

/// A rule about a set of squares.
fn squares_rule_for(last_square: bool, coords: CoordSet, desc: String) -> (rule: Rule)
    ensures
        rule@ == squares_rule(last_square, coords@, desc@),
{
    if last_square {
        Rule::LastSquareAvailable(LastSquareAvailable { coords, desc })
    } else {
        Rule::AllPossibilitiesEliminateSquare(AllPossibilitiesEliminateSquare { coords, desc })
    }
}

/// A rule for each color of a board.
fn rules_for_colors(board: &Board, colors: &Vec<SquareColor>, last_square: bool) -> (rules: Vec<
    Rule,
>)
    requires
        colors@ == first_occurrences(board@.colors),
    ensures
        rule_views(rules@) == rules_of_colors(board@, last_square),
        all_fit(rules@, board@),
{
    let mut rules: Vec<Rule> = Vec::new();
    for k in 0..colors.len()
        invariant
            colors@ == first_occurrences(board@.colors),
            rule_views(rules@) == rules_of_colors(board@, last_square).take(k as int),
            all_fit(rules@, board@),
    {
        let coords = board.coords_for_color(&colors[k]);
        let rule = squares_rule_for(last_square, coords, color_label_text(colors[k]));
        proof {
            lemma_views_push(rules@, rule);
            lemma_push_next(
                rule_views(rules@),
                rules_of_colors(board@, last_square),
                k as int,
                rule@,
            );
        }
        rules.push(rule);
    }
    assert(rules_of_colors(board@, last_square).take(colors@.len() as int) =~= rules_of_colors(
        board@,
        last_square,
    ));
    rules
}

/// A rule for each row, or for each column, of a board.
fn rules_for_lines(board: &Board, liner: Liner, last_square: bool) -> (rules: Vec<Rule>)
    ensures
        rule_views(rules@) == rules_of_lines(board@, liner, last_square),
        all_fit(rules@, board@),
{
    let size = board.size();
    let mut rules: Vec<Rule> = Vec::new();
    for line in 0..size
        invariant
            size == board@.size,
            size <= 16,
            rule_views(rules@) == rules_of_lines(board@, liner, last_square).take(line as int),
            all_fit(rules@, board@),
    {
        let coords = match liner {
            Liner::Row => board.row_coords(line),
            Liner::Col => board.col_coords(line),
        };
        let rule = squares_rule_for(last_square, coords, line_label_text(liner, line));
        proof {
            lemma_views_push(rules@, rule);
            lemma_push_next(
                rule_views(rules@),
                rules_of_lines(board@, liner, last_square),
                line as int,
                rule@,
            );
        }
        rules.push(rule);
    }
    assert(rules_of_lines(board@, liner, last_square).take(size as int) =~= rules_of_lines(
        board@,
        liner,
        last_square,
    ));
    rules
}

/// The squares of each of the rows, or of the columns, of some numbers.
fn squares_of_lines(board: &Board, liner: Liner, lines: &Vec<usize>) -> (squares: Vec<CoordSet>)
    requires
        forall|k: int| 0 <= k < lines@.len() ==> lines@[k] < 16,
    ensures
        squares@.map_values(|line: CoordSet| line@) == lines@.map_values(
            |line: usize| line_squares(board@, liner, line),
        ),
{
    let mut squares: Vec<CoordSet> = Vec::new();
    for k in 0..lines.len()
        invariant
            forall|k: int| 0 <= k < lines@.len() ==> lines@[k] < 16,
            squares@.map_values(|line: CoordSet| line@) == lines@.map_values(
                |line: usize| line_squares(board@, liner, line),
            ).take(k as int),
    {
        let coords = match liner {
            Liner::Row => board.row_coords(lines[k]),
            Liner::Col => board.col_coords(lines[k]),
        };
        proof {
            let target = lines@.map_values(|line: usize| line_squares(board@, liner, line));
            assert(squares@.push(coords).map_values(|line: CoordSet| line@) =~= squares@.map_values(
                |line: CoordSet| line@,
            ).push(coords@));
            lemma_push_next(
                squares@.map_values(|line: CoordSet| line@),
                target,
                k as int,
                coords@,
            );
        }
        squares.push(coords);
    }
    assert(lines@.map_values(|line: usize| line_squares(board@, liner, line)).take(
        lines@.len() as int,
    ) =~= lines@.map_values(|line: usize| line_squares(board@, liner, line)));
    squares
}

/// The rules about groups of lines.
fn rules_for_line_groups(board: &Board, subsets: &Vec<Vec<usize>>) -> (rules: Vec<Rule>)
    requires
        forall|i: int, j: int|
            0 <= i < subsets@.len() && 0 <= j < subsets@[i]@.len() ==> #[trigger] subsets@[i]@[j]
                < 16,
    ensures
        rule_views(rules@) == line_rules(board@, lists(subsets@)),
        (forall|i: int, j: int|
            0 <= i < subsets@.len() && 0 <= j < subsets@[i]@.len() ==> #[trigger] subsets@[i]@[j]
                < board@.size) ==> all_fit(rules@, board@),
{
    let size = board.size();
    let mut rules: Vec<Rule> = Vec::new();
    for k in 0..subsets.len()
        invariant
            size == board@.size,
            forall|i: int, j: int|
                0 <= i < subsets@.len() && 0 <= j < subsets@[i]@.len()
                    ==> #[trigger] subsets@[i]@[j] < 16,
            rule_views(rules@) == line_rules(board@, lists(subsets@).take(k as int)),
            (forall|i: int, j: int|
                0 <= i < subsets@.len() && 0 <= j < subsets@[i]@.len()
                    ==> #[trigger] subsets@[i]@[j] < board@.size) ==> all_fit(rules@, board@),
    {
        let lines = &subsets[k];
        proof {
            assert(lists(subsets@).take(k + 1).drop_last() =~= lists(subsets@).take(k as int));
            assert(lists(subsets@).take(k + 1).last() == lines@);
            assert forall|j: int| 0 <= j < lines@.len() implies lines@[j] < 16 by {
                assert(subsets@[k as int]@[j] < 16);
            }
        }
        if !(lines.len() == 0 || lines.len() > size / 2) {
            let cols = NLinesContainOnlyNColors {
                lines: squares_of_lines(board, Liner::Col, lines),
                desc: lines_label_text("Cols ", lines),
            };
            let rows = NLinesContainOnlyNColors {
                lines: squares_of_lines(board, Liner::Row, lines),
                desc: lines_label_text("Rows ", lines),
            };
            proof {
                assert(cols.lines@.map_values(|line: CoordSet| line@) =~= lines@.map_values(
                    |line: usize| board@.col(line),
                ));
                assert(rows.lines@.map_values(|line: CoordSet| line@) =~= lines@.map_values(
                    |line: usize| board@.row(line),
                ));
                if forall|i: int, j: int|
                    0 <= i < subsets@.len() && 0 <= j < subsets@[i]@.len()
                        ==> #[trigger] subsets@[i]@[j] < board@.size {
                    assert forall|coord: Coord| cols.cells().contains(coord) implies board@.contains(
                        coord,
                    ) by {
                        let line = choose|line: int|
                            0 <= line < cols.lines@.len() && (#[trigger] cols.lines@[line])@.contains(
                                coord,
                            );
                        assert(cols.lines@.map_values(|line: CoordSet| line@)[line]
                            == board@.col(lines@[line]));
                        assert(subsets@[k as int]@[line] < board@.size);
                    }
                    assert forall|coord: Coord| rows.cells().contains(coord) implies board@.contains(
                        coord,
                    ) by {
                        let line = choose|line: int|
                            0 <= line < rows.lines@.len() && (#[trigger] rows.lines@[line])@.contains(
                                coord,
                            );
                        assert(rows.lines@.map_values(|line: CoordSet| line@)[line]
                            == board@.row(lines@[line]));
                        assert(subsets@[k as int]@[line] < board@.size);
                    }
                }
            }
            rules.push(Rule::NLinesContainOnlyNColors(cols));
            rules.push(Rule::NLinesContainOnlyNColors(rows));
        }
        assert(rule_views(rules@) =~= line_rules(board@, lists(subsets@).take(k + 1)));
    }
    assert(lists(subsets@).take(subsets@.len() as int) =~= lists(subsets@));
    rules
}

/// The rules about groups of colors, each group given by the places of its
/// colors.
fn rules_for_color_groups(liner: Liner, subsets: &Vec<Vec<usize>>) -> (rules: Vec<Rule>)
    requires
        forall|i: int, j: int|
            0 <= i < subsets@.len() && 0 <= j < subsets@[i]@.len() ==> #[trigger] subsets@[i]@[j]
                < 16,
    ensures
        rule_views(rules@) == color_rules(liner, lists(subsets@)),
        forall|k: int| 0 <= k < rules@.len() ==> #[trigger] rules@[k] is NColorsOnlyAppearInNLines,
{
    let mut rules: Vec<Rule> = Vec::new();
    for k in 0..subsets.len()
        invariant
            forall|i: int, j: int|
                0 <= i < subsets@.len() && 0 <= j < subsets@[i]@.len()
                    ==> #[trigger] subsets@[i]@[j] < 16,
            rule_views(rules@) == color_rules(liner, lists(subsets@).take(k as int)),
            forall|k: int|
                0 <= k < rules@.len() ==> #[trigger] rules@[k] is NColorsOnlyAppearInNLines,
    {
        let places = &subsets[k];
        proof {
            assert(lists(subsets@).take(k + 1).drop_last() =~= lists(subsets@).take(k as int));
            assert(lists(subsets@).take(k + 1).last() == places@);
            assert forall|j: int| 0 <= j < places@.len() implies places@[j] < 16 by {
                assert(subsets@[k as int]@[j] < 16);
            }
        }
        if places.len() != 0 {
            let mut colors = SquareColorSet::default();
            for j in 0..places.len()
                invariant
                    forall|j: int| 0 <= j < places@.len() ==> places@[j] < 16,
                    colors@ == colors_at(places@).take(j as int).to_set(),
            {
                colors.add(SquareColor::at_place(places[j]));
                proof {
                    lemma_take_next_to_set(colors_at(places@), j as int);
                }
            }
            assert(colors_at(places@).take(places@.len() as int) =~= colors_at(places@));
            let mut liner_desc = String::new();
            match liner {
                Liner::Row => push_text(&mut liner_desc, "rows"),
                Liner::Col => push_text(&mut liner_desc, "cols"),
            }
            assert(liner_desc@ =~= liner_word(liner));
            let rule = NColorsOnlyAppearInNLines {
                colors,
                liner,
                color_desc: colors_label_text(places),
                liner_desc,
            };
            rules.push(Rule::NColorsOnlyAppearInNLines(rule));
        }
        assert(rule_views(rules@) =~= color_rules(liner, lists(subsets@).take(k + 1)));
    }
    assert(lists(subsets@).take(subsets@.len() as int) =~= lists(subsets@));
    rules
}

/// Puts the rules of a second list after those of a first.
fn add_rules(rules: &mut Vec<Rule>, more: Vec<Rule>)
    ensures
        rule_views(final(rules)@) == rule_views(old(rules)@) + rule_views(more@),
        final(rules)@ == old(rules)@ + more@,
{
    let mut rest = more;
    rules.append(&mut rest);
    assert(rule_views(rules@) =~= rule_views(old(rules)@) + rule_views(more@));
}


/// Puts the rules of a second list after those of a first.
fn add_fitting_rules(rules: &mut Vec<Rule>, more: Vec<Rule>, board: &Board)
    requires
        all_fit(old(rules)@, board@),
        all_fit(more@, board@),
    ensures
        rule_views(final(rules)@) == rule_views(old(rules)@) + rule_views(more@),
        all_fit(final(rules)@, board@),
{
    add_rules(rules, more);
}

/// The catalog of a board, given the groups of lines and the groups of
/// colors to make rules about, each group of colors as the places of its
/// colors.
///
/// Where every line of every group is a line of the board, every rule of
/// the catalog can be used on the board.
pub fn heuristics_for(
    board: &Board,
    line_subsets: &Vec<Vec<usize>>,
    color_subsets: &Vec<Vec<usize>>,
) -> (rules: Vec<Rule>)
    requires
        forall|i: int, j: int|
            0 <= i < line_subsets@.len() && 0 <= j < line_subsets@[i]@.len()
                ==> #[trigger] line_subsets@[i]@[j] < 16,
        forall|i: int, j: int|
            0 <= i < color_subsets@.len() && 0 <= j < color_subsets@[i]@.len()
                ==> #[trigger] color_subsets@[i]@[j] < 16,
    ensures
        rule_views(rules@) == catalog(board@, lists(line_subsets@), lists(color_subsets@)),
        (forall|i: int, j: int|
            0 <= i < line_subsets@.len() && 0 <= j < line_subsets@[i]@.len()
                ==> #[trigger] line_subsets@[i]@[j] < board@.size) ==> all_fit(rules@, board@),
{
    let colors = board.all_colors();
    let mut rules = rules_for_colors(board, &colors, true);
    add_fitting_rules(&mut rules, rules_for_lines(board, Liner::Row, true), board);
    add_fitting_rules(&mut rules, rules_for_lines(board, Liner::Col, true), board);
    add_fitting_rules(&mut rules, rules_for_lines(board, Liner::Row, false), board);
    add_fitting_rules(&mut rules, rules_for_lines(board, Liner::Col, false), board);
    add_fitting_rules(&mut rules, rules_for_colors(board, &colors, false), board);
    let ghost squares = rules@;
    let of_lines = rules_for_line_groups(board, line_subsets);
    let of_rows = rules_for_color_groups(Liner::Row, color_subsets);
    let of_cols = rules_for_color_groups(Liner::Col, color_subsets);
    let ghost groups = of_lines@;
    let ghost rows = of_rows@;
    let ghost cols = of_cols@;
    add_rules(&mut rules, of_lines);
    add_rules(&mut rules, of_rows);
    add_rules(&mut rules, of_cols);
    proof {
        assert(rules@ == squares + groups + rows + cols);
        if forall|i: int, j: int|
            0 <= i < line_subsets@.len() && 0 <= j < line_subsets@[i]@.len()
                ==> #[trigger] line_subsets@[i]@[j] < board@.size {
            assert forall|k: int| 0 <= k < rules@.len() implies (#[trigger] rules@[k]).fits(
                board@,
            ) by {
                if k < squares.len() {
                    assert(rules@[k] == squares[k]);
                } else if k < squares.len() + groups.len() {
                    assert(rules@[k] == groups[k - squares.len()]);
                } else if k < squares.len() + groups.len() + rows.len() {
                    assert(rules@[k] == rows[k - squares.len() - groups.len()]);
                } else {
                    assert(rules@[k] == cols[k - squares.len() - groups.len() - rows.len()]);
                }
            }
        }
    }
    rules
}

} // verus!
