use qsolve::catalog::{heuristics_for, Rule};
use qsolve::datastructure::{Coord, CoordSet, SquareColorSet};
use qsolve::file::QueensFile;
use qsolve::heuristic::{
    all_heuristics, next_heuristic, next_heuristic_index, AllPossibilitiesEliminateSquare,
    Changes, Heuristic, LastSquareAvailable, Liner, NColorsOnlyAppearInNLines,
    NLinesContainOnlyNColors,
};
use qsolve::solvestate::{SolveState, SolveStrategy};
use qsolve::squarecolor::SquareColor;

fn coords_of(set: &CoordSet) -> Vec<Coord> {
    let mut coords = Vec::new();
    let mut walk = set.iter();
    while let Some(coord) = walk.next() {
        coords.push(coord);
    }
    coords
}

#[test]
fn test_changed_coords() {
    let x = CoordSet::from_iter(&[(0, 0), (1, 1)]);
    assert_eq!(Changes::AddX { x }.changed_coords(), x);
    let mut all = coords_of(&x);
    all.push((0, 2));
    assert_eq!(
        Changes::AddQueen { queen: (0, 2), x }.changed_coords(),
        CoordSet::from_iter(&all)
    );
}

#[test]
fn last_square_available() {
    let input_str = "rrrr\nrkkk\nbbbb\ncccc\n\nx...\n....\nx...\nx...";
    let queens_file = QueensFile::from_str(input_str).unwrap();
    let ss = SolveState::from_queens_file(&queens_file);
    assert!(ss.is_valid());
    let heuristic = LastSquareAvailable {
        coords: ss.board().col_coords(0),
        desc: String::new(),
    };
    assert_eq!(
        heuristic.changes(&ss),
        Some(Changes::AddQueen {
            queen: (1, 0),
            x: CoordSet::from_iter(&[
                (0, 1),
                (0, 2),
                (0, 3),
                (2, 1),
                (1, 1),
                (1, 2),
                (1, 3)
            ])
        })
    );
    assert_eq!(heuristic.seen_coords(&ss), ss.board().col_coords(0));
}

#[test]
fn last_square_available_ignores_complete_cols() {
    let input_str = "rrrr\nrkkk\nbbbb\ncccc\n\nx...\nQ...\nx...\nx...";
    let queens_file = QueensFile::from_str(input_str).unwrap();
    let ss = SolveState::from_queens_file(&queens_file);
    assert!(ss.is_valid());
    let heuristic = LastSquareAvailable {
        coords: ss.board().col_coords(0),
        desc: String::new(),
    };
    assert_eq!(heuristic.changes(&ss), None);
    assert_eq!(heuristic.seen_coords(&ss), ss.board().col_coords(0));
}

#[test]
fn last_square_available_ignores_cols_with_blanks() {
    let input_str = "rrrr\nrkkk\nbbbb\ncccc\n\n....\n....\nx...\nx...";
    let queens_file = QueensFile::from_str(input_str).unwrap();
    let ss = SolveState::from_queens_file(&queens_file);
    assert!(ss.is_valid());
    let heuristic = LastSquareAvailable {
        coords: ss.board().col_coords(0),
        desc: String::new(),
    };
    assert_eq!(heuristic.changes(&ss), None);
    assert_eq!(heuristic.seen_coords(&ss), ss.board().col_coords(0));
}

#[test]
fn last_square_available_description() {
    let heuristic = LastSquareAvailable {
        coords: CoordSet::default(),
        desc: "desc".to_string(),
    };
    assert!(heuristic.description().contains("desc"));
    assert_eq!(
        heuristic.description(),
        "There is only one possiblity left for desc.\nFill that in with a Queen (and x out new impossibilities)"
    );
}

#[test]
fn last_square_of_a_color_places_the_queen() {
    let input_str = "rrrr\nrkkk\nbbbb\ncccc\n\n....\n.xx.\n....\n....";
    let queens_file = QueensFile::from_str(input_str).unwrap();
    let ss = SolveState::from_queens_file(&queens_file);
    let heuristic = LastSquareAvailable {
        coords: ss.board().coords_for_color(&SquareColor::Black),
        desc: String::new(),
    };
    assert_eq!(
        heuristic.changes(&ss),
        Some(Changes::AddQueen {
            queen: (1, 3),
            x: CoordSet::from_iter(&[(0, 2), (0, 3), (1, 0), (2, 2), (2, 3), (3, 3)])
        })
    );
}

#[test]
fn all_possibilities_eliminate_square() {
    let input_str = "rrrr\nrkkk\nbbbb\ncccc\n\n....\n....\n....\n....";
    let queens_file = QueensFile::from_str(input_str).unwrap();
    let ss = SolveState::from_queens_file(&queens_file);
    assert!(ss.is_valid());
    let heuristic = AllPossibilitiesEliminateSquare {
        coords: ss.board().coords_for_color(&SquareColor::Black),
        desc: String::new(),
    };
    assert_eq!(
        heuristic.changes(&ss),
        Some(Changes::AddX {
            x: CoordSet::from_iter(&[(1, 0), (0, 2), (2, 2)])
        })
    );
    assert_eq!(
        heuristic.seen_coords(&ss),
        ss.board().coords_for_color(&SquareColor::Black)
    );
}

#[test]
fn all_possibilities_eliminate_square_with_xs() {
    let input_str = "rrrr\nrkkk\nbbbb\ncccc\n\n....\n.x..\n....\n....";
    let queens_file = QueensFile::from_str(input_str).unwrap();
    let ss = SolveState::from_queens_file(&queens_file);
    assert!(ss.is_valid());
    let heuristic = AllPossibilitiesEliminateSquare {
        coords: ss.board().coords_for_color(&SquareColor::Black),
        desc: String::new(),
    };
    assert_eq!(
        heuristic.changes(&ss),
        Some(Changes::AddX {
            x: CoordSet::from_iter(&[(1, 0), (0, 2), (0, 3), (2, 2), (2, 3)])
        })
    );
    assert_eq!(
        heuristic.seen_coords(&ss),
        CoordSet::from_iter(&[(1, 2), (1, 3)])
    );
}

#[test]
fn all_possibilities_intersects_to_zeros() {
    let input_str = "rrrr\nrkkk\nbbbb\ncccc\n\n....\n....\n....\n....";
    let queens_file = QueensFile::from_str(input_str).unwrap();
    let ss = SolveState::from_queens_file(&queens_file);
    assert!(ss.is_valid());
    let heuristic = AllPossibilitiesEliminateSquare {
        coords: ss.board().coords_for_color(&SquareColor::Cyan),
        desc: String::new(),
    };
    assert_eq!(heuristic.changes(&ss), None);
    assert_eq!(
        heuristic.seen_coords(&ss),
        CoordSet::from_iter(&[(3, 0), (3, 1), (3, 2), (3, 3)])
    );
}

#[test]
fn all_possibilities_description() {
    let heuristic = AllPossibilitiesEliminateSquare {
        coords: CoordSet::default(),
        desc: "desc".to_string(),
    };
    assert!(heuristic.description().contains("desc"));
    assert_eq!(heuristic.description().lines().count(), 2);
}

#[test]
fn nlines_contain_only_ncolors() {
    let input_str = "rrrr\nrkkk\nbbbb\ncccc\n\n....\n....\n....\n....";
    let queens_file = QueensFile::from_str(input_str).unwrap();
    let ss = SolveState::from_queens_file(&queens_file);
    assert!(ss.is_valid());
    let heuristic = NLinesContainOnlyNColors {
        lines: vec![ss.board().row_coords(0)],
        desc: String::new(),
    };
    assert_eq!(
        heuristic.changes(&ss),
        Some(Changes::AddX {
            x: CoordSet::from_iter(&[(1, 0)])
        })
    );
    assert_eq!(heuristic.seen_coords(&ss), ss.board().row_coords(0));
}

#[test]
fn nlines_contain_only_ncolors_fails() {
    let input_str = "rrrr\nrkkk\nbbbb\ncccc\n\n....\n....\n....\n....";
    let queens_file = QueensFile::from_str(input_str).unwrap();
    let ss = SolveState::from_queens_file(&queens_file);
    assert!(ss.is_valid());
    let heuristic = NLinesContainOnlyNColors {
        lines: vec![ss.board().row_coords(1)],
        desc: String::new(),
    };
    assert_eq!(heuristic.changes(&ss), None);
    assert_eq!(heuristic.seen_coords(&ss), ss.board().row_coords(1));
}

#[test]
fn nlines_contain_only_ncolors_description() {
    let heuristic = NLinesContainOnlyNColors {
        lines: vec![],
        desc: "desc".to_string(),
    };
    assert!(heuristic.description().contains("desc"));
    assert_eq!(
        heuristic.description(),
        "There are only 0 remaining colors on desc.\nx out all other instances of those colors"
    );
}

#[test]
fn ncolors_only_appear_in_nlines() {
    let input_str = "rrrr\nrkkk\nbbbb\ncccc\n\n....\n....\n....\n....";
    let queens_file = QueensFile::from_str(input_str).unwrap();
    let ss = SolveState::from_queens_file(&queens_file);
    assert!(ss.is_valid());
    let heuristic = NColorsOnlyAppearInNLines {
        colors: SquareColorSet::from_iter(&[
            SquareColor::Black,
            SquareColor::Blue,
            SquareColor::Cyan,
        ]),
        liner: Liner::Row,
        color_desc: String::new(),
        liner_desc: String::new(),
    };
    assert_eq!(
        heuristic.changes(&ss),
        Some(Changes::AddX {
            x: CoordSet::from_iter(&[(1, 0)])
        })
    );
    let mut seen = coords_of(&ss.board().coords_for_color(&SquareColor::Black));
    seen.extend(coords_of(&ss.board().coords_for_color(&SquareColor::Blue)));
    seen.extend(coords_of(&ss.board().coords_for_color(&SquareColor::Cyan)));
    assert_eq!(heuristic.seen_coords(&ss), CoordSet::from_iter(&seen));
}

#[test]
fn ncolors_only_appear_in_nlines_fails() {
    let input_str = "rrrr\nrkkk\nbbbb\ncccc\n\n....\n....\n....\n....";
    let queens_file = QueensFile::from_str(input_str).unwrap();
    let ss = SolveState::from_queens_file(&queens_file);
    assert!(ss.is_valid());
    let heuristic = NColorsOnlyAppearInNLines {
        colors: SquareColorSet::from_iter(&[SquareColor::Blue, SquareColor::Cyan]),
        liner: Liner::Row,
        color_desc: String::new(),
        liner_desc: String::new(),
    };
    assert_eq!(heuristic.changes(&ss), None);
    let mut seen = coords_of(&ss.board().coords_for_color(&SquareColor::Blue));
    seen.extend(coords_of(&ss.board().coords_for_color(&SquareColor::Cyan)));
    assert_eq!(heuristic.seen_coords(&ss), CoordSet::from_iter(&seen));
}

#[test]
fn ncolors_only_appear_in_nlines_description() {
    let heuristic = NColorsOnlyAppearInNLines {
        colors: SquareColorSet::default(),
        liner: Liner::Row,
        color_desc: "color".to_string(),
        liner_desc: "liner".to_string(),
    };
    assert!(heuristic.description().contains("color"));
    assert!(heuristic.description().contains("liner"));
    assert_eq!(
        heuristic.description(),
        "color appear on only 0 liner.\nx out all other colors that appear on those liner"
    );
}

#[test]
fn ncolors_only_appear_in_columns() {
    let input_str = "rkbc\nrkbc\nrrbc\nrkbc";
    let queens_file = QueensFile::from_str(input_str).unwrap();
    let ss = SolveState::from_queens_file(&queens_file);
    let heuristic = NColorsOnlyAppearInNLines {
        colors: SquareColorSet::from_iter(&[SquareColor::Black]),
        liner: Liner::Col,
        color_desc: String::new(),
        liner_desc: String::new(),
    };
    assert_eq!(
        heuristic.changes(&ss),
        Some(Changes::AddX {
            x: CoordSet::from_iter(&[(2, 1)])
        })
    );
}

#[test]
fn catalog_of_a_board() {
    let board = qsolve::board::Board::from_str("wwww\nwkkk\nrrrr\nbbbb").unwrap();
    let rules = all_heuristics(&board);
    // 4 colors, 4 rows and 4 columns, twice; 10 groups of one or two lines,
    // each for columns and for rows; 15 groups of colors, for rows and for
    // columns.
    assert_eq!(rules.len(), 24 + 20 + 30);
    let descriptions: Vec<String> = rules.iter().map(|rule| rule.description()).collect();
    assert!(descriptions[0].contains("for 'White' Color."));
    assert!(descriptions[1].contains("for 'Black' Color."));
    assert!(descriptions[4].contains("for Row 1."));
    assert!(descriptions[8].contains("for Col 1."));
    assert!(descriptions[12].starts_with("All of the possible queens for Row 1 "));
    assert!(descriptions[16].starts_with("All of the possible queens for Col 1 "));
    assert!(descriptions[20].starts_with("All of the possible queens for 'White' Color "));
    assert_eq!(
        descriptions[24],
        "There are only 1 remaining colors on Cols [1].\nx out all other instances of those colors"
    );
    assert!(descriptions[25].contains(" on Rows [1]."));
    assert!(descriptions[32].contains(" on Cols [1, 2]."));
    assert!(descriptions[43].contains(" on Rows [3, 4]."));
    assert_eq!(
        descriptions[44],
        "[White] appear on only 1 rows.\nx out all other colors that appear on those rows"
    );
    assert!(descriptions[48].starts_with("[White, Black] appear on only 2 rows."));
    assert!(descriptions[58].starts_with("[White, Black, Red, Blue] appear on only 4 rows."));
    assert!(descriptions[59].starts_with("[White] appear on only 1 cols."));
    for description in &descriptions {
        assert_eq!(description.lines().count(), 2);
    }
    assert!(matches!(rules[0], Rule::LastSquareAvailable(_)));
    assert!(matches!(rules[73], Rule::NColorsOnlyAppearInNLines(_)));
}

#[test]
fn catalog_for_given_groups() {
    let board = qsolve::board::Board::from_str("wwww\nwkkk\nrrrr\nbbbb").unwrap();
    let line_groups = vec![vec![], vec![1, 2], vec![0, 1, 2]];
    let color_groups = vec![vec![], vec![7, 0]];
    let rules = heuristics_for(&board, &line_groups, &color_groups);
    assert_eq!(rules.len(), 24 + 2 + 2);
    assert!(rules[24].description().contains(" on Cols [2, 3]."));
    assert!(rules[25].description().contains(" on Rows [2, 3]."));
    assert!(rules[26].description().starts_with("[White, Black] appear on only 2 rows."));
    assert!(rules[27].description().starts_with("[White, Black] appear on only 2 cols."));
}

#[test]
fn next_heuristic_by_strategy() {
    let queens_file = QueensFile::from_str("wwww\nwkkk\nrrrr\nbbbb").unwrap();
    let ss = SolveState::from_queens_file(&queens_file);
    let rules = all_heuristics(ss.board());
    let fast = next_heuristic_index(&ss, SolveStrategy::Fast, &rules).unwrap();
    let first_firing = rules.iter().position(|rule| rule.changes(&ss).is_some()).unwrap();
    assert_eq!(fast, first_firing);
    for strategy in [SolveStrategy::Fast, SolveStrategy::Short, SolveStrategy::Simple] {
        let rule = next_heuristic(&ss, strategy, &rules).unwrap();
        assert!(rule.changes(&ss).is_some());
    }
    let short = next_heuristic_index(&ss, SolveStrategy::Short, &rules).unwrap();
    let weight = |rule: &Rule| match rule.changes(&ss) {
        Some(Changes::AddQueen { queen: _, x }) => Some((1, x.len())),
        Some(Changes::AddX { x }) => Some((0, x.len())),
        None => None,
    };
    let best = rules.iter().filter_map(|rule| weight(rule)).max().unwrap();
    assert_eq!(weight(&rules[short]), Some(best));
    let last_best = rules.iter().rposition(|rule| weight(rule) == Some(best)).unwrap();
    assert_eq!(short, last_best);
    let simple = next_heuristic_index(&ss, SolveStrategy::Simple, &rules).unwrap();
    let simple_weight = |rule: &Rule| {
        weight(rule).map(|(placing, marked)| (placing, 17 - rule.seen_coords(&ss).len(), marked))
    };
    let simple_best = rules.iter().filter_map(|rule| simple_weight(rule)).max().unwrap();
    let last_simple =
        rules.iter().rposition(|rule| simple_weight(rule) == Some(simple_best)).unwrap();
    assert_eq!(simple, last_simple);
}

#[test]
fn next_heuristic_of_no_rules() {
    let queens_file = QueensFile::from_str("wwww\nkkkk\nrrrr\nbbbb").unwrap();
    let ss = SolveState::from_queens_file(&queens_file);
    let none: Vec<Rule> = vec![];
    assert!(next_heuristic(&ss, SolveStrategy::Fast, &none).is_none());
    let rules = all_heuristics(ss.board());
    for strategy in [SolveStrategy::Fast, SolveStrategy::Short, SolveStrategy::Simple] {
        assert!(next_heuristic(&ss, strategy, &rules).is_none());
    }
}
