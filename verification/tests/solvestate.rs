use qsolve::board::Board;
use qsolve::squarecolor::{SquareColor, ALL_SQUARE_COLORS};
use regex::Regex;
use qsolve::datastructure::CoordSet;
use qsolve::file::QueensFile;
use qsolve::heuristic::Changes;
use qsolve::solvestate::{Charset, SolveState, SolveStrategy, SquareVal, UnknownSquare};

#[test]
fn squareval_as_char() {
    let vals = [None, Some(SquareVal::Queen), Some(SquareVal::X)];
    for v in vals {
        let ascii_char = SquareVal::as_char(v, false, &Charset::Ascii);
        assert!(ascii_char.is_ascii() || ascii_char.is_whitespace());
        let unicode_char = SquareVal::as_char(v, false, &Charset::Unicode);
        assert!(!unicode_char.is_ascii() || unicode_char.is_whitespace());
        let ascii_highlighted_char = SquareVal::as_char(v, true, &Charset::Ascii);
        assert!(ascii_highlighted_char.is_ascii() || ascii_highlighted_char.is_whitespace());
        let unicode_highlighted_char = SquareVal::as_char(v, true, &Charset::Unicode);
        assert!(!unicode_highlighted_char.is_ascii() || unicode_highlighted_char.is_whitespace());
    }
}

#[test]
fn squareval_glyphs() {
    assert_eq!(SquareVal::as_char(Some(SquareVal::Queen), true, &Charset::Ascii), 'Q');
    assert_eq!(SquareVal::as_char(Some(SquareVal::X), false, &Charset::Ascii), 'x');
    assert_eq!(SquareVal::as_char(None, true, &Charset::Ascii), '.');
    assert_eq!(SquareVal::as_char(None, false, &Charset::Ascii), ' ');
    assert_eq!(SquareVal::as_char(Some(SquareVal::Queen), false, &Charset::Unicode), '\u{265B}');
    assert_eq!(SquareVal::as_char(Some(SquareVal::X), true, &Charset::Unicode), '\u{00D7}');
    assert_eq!(SquareVal::as_char(None, true, &Charset::Unicode), '\u{2218}');
    assert_eq!(SquareVal::as_char(None, false, &Charset::Unicode), ' ');
}

#[test]
fn squareval_try_from() {
    assert_eq!(SquareVal::try_from('Q').unwrap(), Some(SquareVal::Queen));
    assert_eq!(SquareVal::try_from('x').unwrap(), Some(SquareVal::X));
    assert!(SquareVal::try_from('.').unwrap().is_none());
    assert!(SquareVal::try_from(' ').unwrap().is_none());
    assert!(SquareVal::try_from('_').unwrap().is_none());
    assert_eq!(SquareVal::try_from('S'), Err(UnknownSquare { code: 'S' }));
}

#[test]
fn solvestate_from_board() {
    let board = Board::from_str("wwww\nkkkk\nrrrr\nbbbb").unwrap();
    let ss = SolveState::from_board(&board);
    for r in 0..4 {
        for c in 0..4 {
            assert!(ss.square(&(r, c)).is_none());
        }
    }
    assert!(ss.is_valid());
    assert!(!ss.complete());
}

#[test]
fn solvestate_from_queens_file() {
    let board_str = "wwww\nkkkk\nrrrr\nbbbb";
    let squares_str = "Qxxx\nxx..\nx...\nx. _";
    let qf_str = format!("{}\n\n{}", board_str, squares_str);
    let qf = QueensFile::from_str(&qf_str).unwrap();
    let ss = SolveState::from_queens_file(&qf);
    assert!(ss.is_valid());

    assert_eq!(ss.to_string(), qf_str.replace(".", " ").replace("_", " "));
}

#[test]
fn solvestate_from_queens_file_adds_missing_marks() {
    let qf = QueensFile::from_str("wwww\nkkkk\nrrrr\nbbbb\n\nQ...\n....\n....\n...x").unwrap();
    let ss = SolveState::from_queens_file(&qf);
    assert!(ss.is_valid());
    assert_eq!(ss.to_string(), "wwww\nkkkk\nrrrr\nbbbb\n\nQxxx\nxx  \nx   \nx  x");
}

#[test]
fn solvestate_with_touching_queens_is_not_valid() {
    let qf = QueensFile::from_str("wwww\nkkkk\nrrrr\nbbbb\n\nQ...\n.Q..\n....\n...x").unwrap();
    let ss = SolveState::from_queens_file(&qf);
    assert!(!ss.is_valid());
    let qf = QueensFile::from_str("wkkk\nkkkw\nrrrr\nbbbb\n\nQxxx\nxx.Q\n....\n...x").unwrap();
    assert!(!SolveState::from_queens_file(&qf).is_valid());
    let qf = QueensFile::from_str("wkkk\nkkkk\nrrrr\nbbbb\n\nQxxx\nxx.x\n...Q\n...x").unwrap();
    assert!(SolveState::from_queens_file(&qf).is_valid());
}

#[test]
fn solvestate_complete_counts_queens() {
    let qf = QueensFile::from_str("wk\nrb\n\nQx\nxQ").unwrap();
    let ss = SolveState::from_queens_file(&qf);
    assert!(ss.complete());
    assert!(!ss.is_valid());
    let qf = QueensFile::from_str("wk\nrb\n\nQx\nxx").unwrap();
    assert!(!SolveState::from_queens_file(&qf).complete());
}

#[test]
fn apply_changes_marks_then_crowns() {
    let board = Board::from_str("wwww\nkkkk\nrrrr\nbbbb").unwrap();
    let mut ss = SolveState::from_board(&board);
    ss.apply_changes(&Changes::AddX { x: CoordSet::from_iter(&[(3, 3)]) });
    assert_eq!(ss.square(&(3, 3)), Some(SquareVal::X));
    let x = CoordSet::from_iter(&[(0, 1), (1, 1)]);
    ss.apply_changes(&Changes::AddQueen { queen: (0, 0), x });
    assert_eq!(ss.square(&(0, 0)), Some(SquareVal::Queen));
    assert_eq!(ss.square(&(0, 1)), Some(SquareVal::X));
    assert_eq!(ss.square(&(1, 1)), Some(SquareVal::X));
    assert_eq!(ss.square(&(0, 2)), None);
    assert_eq!(ss.to_string(), "wwww\nkkkk\nrrrr\nbbbb\n\nQx  \n x  \n    \n   x");
}

#[test]
fn applying_changes_twice_has_no_guard() {
    let board = Board::from_str("wwww\nkkkk\nrrrr\nbbbb").unwrap();
    let mut ss = SolveState::from_board(&board);
    let changes = Changes::AddQueen { queen: (0, 0), x: CoordSet::from_iter(&[(0, 1)]) };
    ss.apply_changes(&changes);
    let once = ss.to_string();
    // A second set of changes that marks the queen's own square is carried
    // out as it stands: the mark replaces the queen.
    ss.apply_changes(&Changes::AddX { x: CoordSet::from_iter(&[(0, 0)]) });
    assert_eq!(ss.square(&(0, 0)), Some(SquareVal::X));
    assert!(ss.to_string() != once);
    let mut again = SolveState::from_board(&board);
    let own = Changes::AddQueen { queen: (1, 1), x: CoordSet::from_iter(&[(1, 1)]) };
    again.apply_changes(&own);
    assert_eq!(again.square(&(1, 1)), Some(SquareVal::X));
}

#[test]
fn solvestate_clone_is_independent() {
    let board = Board::from_str("wk\nrb").unwrap();
    let mut ss = SolveState::from_board(&board);
    let copy = ss.clone();
    ss.apply_changes(&Changes::AddX { x: CoordSet::from_iter(&[(0, 0)]) });
    assert_eq!(copy.square(&(0, 0)), None);
    assert_eq!(ss.square(&(0, 0)), Some(SquareVal::X));
    assert_eq!(ss.unknown_in(board.all_coords()), CoordSet::from_iter(&[(0, 1), (1, 0), (1, 1)]));
    assert_eq!(ss.queens(), CoordSet::default());
}

#[test]
fn solvestrategy_display() {
    assert_eq!(SolveStrategy::Fast.to_string(), "Fast");
    assert_eq!(SolveStrategy::Short.to_string(), "Short");
    assert_eq!(SolveStrategy::Simple.to_string(), "Simple");
}

#[test]
fn defaults() {
    assert_eq!(SolveStrategy::default(), SolveStrategy::Fast);
    assert_eq!(Charset::default(), Charset::Unicode);
}

#[test]
fn state_text_is_read_back() {
    let qf = QueensFile::from_str("wkkk\nkkkk\nrrrr\nbbbb\n\nQxxx\nxx.x\nx..Q\nx.xx").unwrap();
    let ss = SolveState::from_queens_file(&qf);
    let text = ss.to_string();
    let read = QueensFile::from_str(&text).unwrap();
    let again = SolveState::from_queens_file(&read);
    assert_eq!(again.to_string(), text);
    for r in 0..4 {
        for c in 0..4 {
            assert_eq!(again.square(&(r, c)), ss.square(&(r, c)));
        }
    }
}

#[test]
fn solvestate_ansi_string() {
    let board_str = "wwww\nkkkk\nrrrr\nbbbb";
    let squares_str = "Qxxx\nxx..\nx...\nx. _";
    let qf_str = format!("{}\n\n{}", board_str, squares_str);
    let qf = QueensFile::from_str(&qf_str).unwrap();
    let ss = SolveState::from_queens_file(&qf);
    assert!(ss.is_valid());

    let ansi_string = ss.ansi_string(CoordSet::default(), Charset::Ascii);
    let ansi_re = Regex::new(r"\u{1b}\[[0-9;]*m").unwrap();
    let ansi_removed = ansi_re.replace_all(&ansi_string, "");
    assert_eq!(
        ansi_removed,
        squares_str.replace(".", " ").replace("_", " ")
    );
}

#[test]
fn solvestate_ansi_string_highlighted() {
    let board_str = "wwww\nkkkk\nrrrr\nbbbb";
    let squares_str = "Qxxx\nxx..\nx...\nx. _";
    let qf_str = format!("{}\n\n{}", board_str, squares_str);
    let qf = QueensFile::from_str(&qf_str).unwrap();
    let ss = SolveState::from_queens_file(&qf);
    assert!(ss.is_valid());

    let ansi_string = ss.ansi_string(CoordSet::from_iter(&[(0, 0)]), Charset::Ascii);
    let ansi_re = Regex::new(r"\u{1b}\[[0-9;]*m").unwrap();
    let ansi_removed = ansi_re.replace_all(&ansi_string, "");
    assert_eq!(
        ansi_removed,
        squares_str.replace(".", " ").replace("_", " ")
    );
}

#[test]
fn ansi_string_paints_each_square() {
    let qf = QueensFile::from_str("wk\nKr\n\nQx\nx.").unwrap();
    let ss = SolveState::from_queens_file(&qf);
    assert_eq!(
        ss.ansi_string(CoordSet::default(), Charset::Ascii),
        "\u{1b}[30;47mQ\u{1b}[0m\u{1b}[97;40mx\u{1b}[0m\n\u{1b}[97;100mx\u{1b}[0m\u{1b}[30;41mx\u{1b}[0m"
    );
    let highlighted = ss.ansi_string(CoordSet::from_iter(&[(1, 1)]), Charset::Unicode);
    assert_eq!(
        highlighted,
        "\u{1b}[30;47m\u{265B}\u{1b}[0m\u{1b}[97;40m\u{00D7}\u{1b}[0m\n\u{1b}[97;100m\u{00D7}\u{1b}[0m\u{1b}[4m\u{1b}[1m\u{1b}[30;41m\u{00D7}\u{1b}[0m\u{1b}[0m\u{1b}[0m"
    );
}

#[test]
fn squarecolor_ansicolors() {
    let fg_codes = [30, 31, 32, 33, 34, 35, 36, 37, 90, 91, 92, 93, 94, 95, 96, 97];
    for (place, sc) in ALL_SQUARE_COLORS.iter().enumerate() {
        let board = Board::new(1, vec![*sc]).unwrap();
        let ss = SolveState::from_board(&board);
        let fg = sc.fg_color();
        if *sc == SquareColor::Black || *sc == SquareColor::BrightBlack {
            assert_eq!(fg, SquareColor::BrightWhite);
        } else {
            assert_eq!(fg, SquareColor::Black);
        }
        let expected = format!(
            "\u{1b}[{};{}m \u{1b}[0m",
            fg_codes[fg.place()],
            fg_codes[place] + 10
        );
        assert_eq!(ss.ansi_string(CoordSet::default(), Charset::Unicode), expected);
    }
}
