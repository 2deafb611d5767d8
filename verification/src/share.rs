use vstd::prelude::*;

use crate::board::lemma_place_of_square;
use crate::heuristic::{Changes, Heuristic};
use crate::solveiter::SolveIterItem;
use crate::squarecolor::{color_block, SquareColor};
use crate::text::{chars_of, push_text};

verus! {

/// Whether a character is a number, as `char::is_numeric` tells.
pub uninterp spec fn is_numeric(ch: char) -> bool;

/// `char::is_numeric`: whether a character is a number.
#[verifier::external_body]
fn is_numeric_char(ch: char) -> (numeric: bool)
    ensures
        numeric == is_numeric(ch),
{
    ch.is_numeric()
}

/// Whether every rule of the stages of a solution can be used on the board
/// of its stage.
pub open spec fn stages_fit<H: Heuristic>(stages: Seq<SolveIterItem<H>>) -> bool {
    forall|k: int|
        0 <= k < stages.len() ==> ((#[trigger] stages[k]).next_heuristic matches Some(rule)
            ==> rule.fits(stages[k].solve_state@.board))
}

/// The colors of the squares on which the stages of a solution place
/// their queens, in the order of the stages.
pub open spec fn queen_colors<H: Heuristic>(stages: Seq<SolveIterItem<H>>) -> Seq<SquareColor>
    decreases stages.len(),
{
    if stages.len() == 0 {
        Seq::empty()
    } else {
        let earlier = queen_colors(stages.drop_last());
        let stage = stages.last();
        match stage.next_heuristic {
            Some(rule) => match rule.spec_changes(stage.solve_state@) {
                Some(changes) => match changes.queen {
                    Some(queen) => earlier.push(stage.solve_state@.board.color(queen)),
                    None => earlier,
                },
                None => earlier,
            },
            None => earlier,
        }
    }
}

/// The name of a puzzle as a share text gives it: a name made of numbers
/// only gets a number sign before it.
pub open spec fn shared_name(name: Seq<char>) -> Seq<char> {
    if forall|k: int| 0 <= k < name.len() ==> is_numeric(#[trigger] name[k]) {
        seq!['#'] + name
    } else {
        name
    }
}

/// The share text of a solution: a line with the name of the puzzle and
/// the time it took, a line with the colors of the first three queens, and
/// a line with the address of the solver.
pub open spec fn share_text(colors: Seq<SquareColor>, name: Seq<char>, elapsed: Seq<char>) -> Seq<
    char,
> {
    "QSolve "@ + shared_name(name) + " | "@ + elapsed + " and flawless\n"@
        + "First \u{1f451}s: "@ + seq![color_block(colors[0]), ' ', color_block(colors[1]), ' ',
        color_block(colors[2]),
    ] + "\n"@ + "github.com/dschafer/qsolve"@
}

/// The colors of the squares on which the stages of a solution place
/// their queens, in the order of the stages.
pub fn queens_order<H: Heuristic>(state_iter_items: &[SolveIterItem<H>]) -> (colors: Vec<
    SquareColor,
>)
    requires
        stages_fit(state_iter_items@),
    ensures
        colors@ == queen_colors(state_iter_items@),
{
    let mut colors: Vec<SquareColor> = Vec::new();
    for k in 0..state_iter_items.len()
        invariant
            stages_fit(state_iter_items@),
            colors@ == queen_colors(state_iter_items@.take(k as int)),
    {
        let stage = &state_iter_items[k];
        proof {
            assert(state_iter_items@.take(k + 1).drop_last() =~= state_iter_items@.take(k as int));
            assert(state_iter_items@.take(k + 1).last() == *stage);
        }
        match stage.next_heuristic {
            Some(rule) => {
                let board = stage.solve_state.board();
                match rule.changes(&stage.solve_state) {
                    Some(Changes::AddQueen { queen, x: _ }) => {
                        proof {
                            rule.lemma_changes_admitted(stage.solve_state@);
                            lemma_place_of_square(
                                board@.size as int,
                                queen.0 as int,
                                queen.1 as int,
                            );
                        }
                        colors.push(board.color(&queen));
                    },
                    _ => {},
                }
            },
            None => {},
        }
    }
    assert(state_iter_items@.take(state_iter_items@.len() as int) =~= state_iter_items@);
    colors
}

/// The share text of a solved puzzle, in three lines.
///
/// The time that the solution took is given as a text. The solution
/// places three queens or more.
pub fn generate_share_content<H: Heuristic>(
    state_iter_items: &[SolveIterItem<H>],
    puzzle_name: &str,
    elapsed: &str,
) -> (text: String)
    requires
        stages_fit(state_iter_items@),
        queen_colors(state_iter_items@).len() >= 3,
    ensures
        text@ == share_text(queen_colors(state_iter_items@), puzzle_name@, elapsed@),
{
    let colors = queens_order(state_iter_items);
    let name = chars_of(puzzle_name);
    let mut numbers = true;
    for k in 0..name.len()
        invariant
            numbers == (forall|j: int| 0 <= j < k ==> is_numeric(#[trigger] name@[j])),
    {
        if !is_numeric_char(name[k]) {
            numbers = false;
        }
    }
    let mut output = String::new();
    push_text(&mut output, "QSolve ");
    if numbers {
        output.push('#');
    }
    push_text(&mut output, puzzle_name);
    push_text(&mut output, " | ");
    push_text(&mut output, elapsed);
    push_text(&mut output, " and flawless\n");
    push_text(&mut output, "First \u{1f451}s: ");
    output.push(colors[0].to_unicode_block());
    output.push(' ');
    output.push(colors[1].to_unicode_block());
    output.push(' ');
    output.push(colors[2].to_unicode_block());
    push_text(&mut output, "\n");
    push_text(&mut output, "github.com/dschafer/qsolve");
    assert(output@ =~= share_text(queen_colors(state_iter_items@), puzzle_name@, elapsed@));
    output
}

} // verus!
