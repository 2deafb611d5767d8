use qsolve::board::Board;
use qsolve::heuristic::{all_heuristics, Heuristic};
use qsolve::solveiter::solve_iter;
use qsolve::solvestate::{SolveState, SolveStrategy};

#[test]
fn solve_iter_succeeds() {
    let board_str = "wwww\nwkkk\nrrrr\nbbbb";
    let board = Board::from_str(board_str).unwrap();
    let solve_state = SolveState::from_board(&board);
    let heuristics = all_heuristics(&board);
    let mut solve_iter = solve_iter(solve_state, SolveStrategy::Fast, &heuristics);
    assert!(solve_iter.next().is_some());
}

#[test]
fn solve_iter_fails_on_impossible_board() {
    let board_str = "wwww\nkkkk\nrrrr\nbbbb"; // Two solutions: no rule can tell them apart.
    let board = Board::from_str(board_str).unwrap();
    let solve_state = SolveState::from_board(&board);
    let heuristics = all_heuristics(&board);
    let mut solve_iter = solve_iter(solve_state, SolveStrategy::Fast, &heuristics);
    assert!(solve_iter.next().is_none());
}

#[test]
fn no_strategy_solves_the_board_of_four_plain_rows() {
    let board = Board::from_str("wwww\nkkkk\nrrrr\nbbbb").unwrap();
    let heuristics = all_heuristics(&board);
    for strategy in [SolveStrategy::Fast, SolveStrategy::Short, SolveStrategy::Simple] {
        let mut course = solve_iter(SolveState::from_board(&board), strategy, &heuristics);
        assert!(course.next().is_none());
        assert!(course.next().is_none());
    }
}

#[test]
fn every_stage_is_valid_and_follows_from_the_last() {
    let board = Board::from_str("wwww\nwkkk\nrrrr\nbbbb").unwrap();
    let heuristics = all_heuristics(&board);
    for strategy in [SolveStrategy::Fast, SolveStrategy::Short, SolveStrategy::Simple] {
        let mut course = solve_iter(SolveState::from_board(&board), strategy, &heuristics);
        let mut expected = SolveState::from_board(&board).to_string();
        let mut steps = 0;
        while let Some(stage) = course.next() {
            assert!(stage.solve_state.is_valid());
            assert_eq!(stage.solve_state.to_string(), expected);
            match stage.next_heuristic {
                Some(rule) => {
                    let changes = rule.changes(&stage.solve_state).unwrap();
                    let mut after = stage.solve_state.clone();
                    after.apply_changes(&changes);
                    expected = after.to_string();
                },
                None => assert!(stage.solve_state.complete()),
            }
            steps += 1;
            assert!(steps <= 17);
        }
    }
}

#[test]
fn every_strategy_solves_a_puzzle_with_one_solution() {
    let board = Board::from_str("kkrrrg\nbbrrrg\nbbbygg\nbbbyyg\nbbbbmm\nbbbbmm").unwrap();
    let heuristics = all_heuristics(&board);
    let mut finals = Vec::new();
    let mut lengths = Vec::new();
    for strategy in [SolveStrategy::Fast, SolveStrategy::Short, SolveStrategy::Simple] {
        let mut course = solve_iter(SolveState::from_board(&board), strategy, &heuristics);
        let mut stages = Vec::new();
        while let Some(stage) = course.next() {
            assert!(stage.solve_state.is_valid());
            stages.push(stage);
        }
        let last = stages.last().unwrap();
        assert!(last.solve_state.complete());
        assert!(last.next_heuristic.is_none());
        assert_eq!(last.solve_state.queens().len(), 6);
        for stage in &stages[..stages.len() - 1] {
            assert!(stage.next_heuristic.is_some());
            assert!(!stage.solve_state.complete());
        }
        assert!(course.next().is_none());
        finals.push(last.solve_state.queens());
        lengths.push(stages.len());
    }
    assert_eq!(finals[0], finals[1]);
    assert_eq!(finals[0], finals[2]);
    assert_eq!(lengths, vec![15, 11, 12]);
}

#[test]
fn collect_gives_every_stage_to_the_complete_board() {
    let board = Board::from_str("kkrrrg\nbbrrrg\nbbbygg\nbbbyyg\nbbbbmm\nbbbbmm").unwrap();
    let heuristics = all_heuristics(&board);
    let mut lengths = Vec::new();
    for strategy in [SolveStrategy::Fast, SolveStrategy::Short, SolveStrategy::Simple] {
        let mut course = solve_iter(SolveState::from_board(&board), strategy, &heuristics);
        let stages = course.collect();
        assert_eq!(
            stages[0].solve_state.to_string(),
            SolveState::from_board(&board).to_string()
        );
        for pair in stages.windows(2) {
            let rule = pair[0].next_heuristic.unwrap();
            let mut after = pair[0].solve_state.clone();
            after.apply_changes(&rule.changes(&pair[0].solve_state).unwrap());
            assert_eq!(after.to_string(), pair[1].solve_state.to_string());
        }
        let last = stages.last().unwrap();
        assert!(last.solve_state.complete());
        assert!(last.next_heuristic.is_none());
        assert!(stages.len() <= 36 + 1);
        assert!(course.next().is_none());
        assert!(course.collect().is_empty());
        lengths.push(stages.len());
    }
    assert_eq!(lengths, vec![15, 11, 12]);
}

#[test]
fn collect_gives_the_rest_of_a_course() {
    let board = Board::from_str("kkrrrg\nbbrrrg\nbbbygg\nbbbyyg\nbbbbmm\nbbbbmm").unwrap();
    let heuristics = all_heuristics(&board);
    let mut course = solve_iter(SolveState::from_board(&board), SolveStrategy::Fast, &heuristics);
    assert!(course.next().is_some());
    assert!(course.next().is_some());
    assert_eq!(course.collect().len(), 13);
}

#[test]
fn collect_gives_nothing_where_the_solver_is_stuck_at_once() {
    let board = Board::from_str("wwww\nkkkk\nrrrr\nbbbb").unwrap();
    let heuristics = all_heuristics(&board);
    let mut course = solve_iter(SolveState::from_board(&board), SolveStrategy::Fast, &heuristics);
    assert!(course.collect().is_empty());
}

#[test]
fn all_strategies_solve() {
    let text = "kkrrrg\nbbrrrg\nbbbygg\nbbbyyg\nbbbbmm\nbbbbmm\n";
    let queens_file = qsolve::file::QueensFile::from_str(text).unwrap();
    for strategy in [SolveStrategy::Fast, SolveStrategy::Short, SolveStrategy::Simple] {
        let solve_state = SolveState::from_queens_file(&queens_file);
        let heuristics = all_heuristics(solve_state.board());
        let state_iter_items = solve_iter(solve_state, strategy, &heuristics).collect();
        let final_state = &state_iter_items.iter().last().unwrap().solve_state;
        assert!(final_state.complete());
    }
}
