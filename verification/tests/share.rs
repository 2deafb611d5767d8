use qsolve::board::Board;
use qsolve::heuristic::all_heuristics;
use qsolve::share::{generate_share_content, queens_order};
use qsolve::solveiter::solve_iter;
use qsolve::solvestate::{SolveState, SolveStrategy};

#[test]
fn generate_share_content_works() {
    let board = Board::from_str("kkrrrg\nbbrrrg\nbbbygg\nbbbyyg\nbbbbmm\nbbbbmm").unwrap();
    let solve_state = SolveState::from_board(&board);
    let heuristics = all_heuristics(&board);
    let mut course = solve_iter(solve_state, SolveStrategy::Fast, &heuristics);
    let mut state_iter_items = Vec::new();
    while let Some(stage) = course.next() {
        state_iter_items.push(stage);
    }
    assert_eq!(queens_order(&state_iter_items).len(), 6);
    let share_text = generate_share_content(&state_iter_items, "LinkedIn #1", "1s");
    let share_lines = share_text.lines().collect::<Vec<_>>();
    assert_eq!(share_lines.len(), 3);
    assert_eq!(share_lines[0], "QSolve LinkedIn #1 | 1s and flawless");
    assert_eq!(
        share_lines[1],
        "First \u{1f451}s: \u{1F7E8} \u{1F7E9} \u{1F7E5}"
    );
    assert_eq!(share_lines[2], "github.com/dschafer/qsolve");
}

#[test]
fn generate_share_content_puzzle_number() {
    let board = Board::from_str("kkrrrg\nbbrrrg\nbbbygg\nbbbyyg\nbbbbmm\nbbbbmm").unwrap();
    let solve_state = SolveState::from_board(&board);
    let heuristics = all_heuristics(&board);
    let mut course = solve_iter(solve_state, SolveStrategy::Fast, &heuristics);
    let mut state_iter_items = Vec::new();
    while let Some(stage) = course.next() {
        state_iter_items.push(stage);
    }
    let share_text = generate_share_content(&state_iter_items, "1234", "1s");
    let share_lines = share_text.lines().collect::<Vec<_>>();
    assert_eq!(share_lines.len(), 3);
    assert_eq!(share_lines[0], "QSolve #1234 | 1s and flawless");
    let unnamed = generate_share_content(&state_iter_items, "", "2.5ms");
    assert!(unnamed.starts_with("QSolve # | 2.5ms and flawless\n"));
    let mixed = generate_share_content(&state_iter_items, "12a", "1s");
    assert!(mixed.starts_with("QSolve 12a | "));
    let other_digits = generate_share_content(&state_iter_items, "\u{0663}\u{00BD}", "1s");
    assert!(other_digits.starts_with("QSolve #\u{0663}\u{00BD} | "));
}
