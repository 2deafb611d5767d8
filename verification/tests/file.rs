use qsolve::file::{InputSquares, ParseError, QueensFile};
use qsolve::solvestate::SquareVal;

#[test]
fn input_squares_from_str() {
    let input_str = "Qxxx\nxx..\nx...\nx...";
    let input_squares = InputSquares::from_str(input_str).unwrap();
    assert_eq!(input_squares.0.len(), 16);
}

#[test]
fn input_squares_display() {
    let input_str = "Qxxx\nxx..\nx...\nx...";
    let input_squares = InputSquares::from_str(input_str).unwrap();
    assert_eq!(input_squares.to_string(), input_str.replace(".", " "));
}

#[test]
fn input_squares_into() {
    let input_str = "Qxxx\nxx..\nx...\nx...";
    let input_squares = InputSquares::from_str(input_str).unwrap();
    let square_vec: Vec<Option<SquareVal>> = input_squares.0;
    assert_eq!(square_vec.len(), 16);
}

#[test]
fn input_squares_from_invalid_str() {
    let input_str = "Qxxxxxxxxxx\nxx..\nx...\nx...";
    let input_result = InputSquares::from_str(input_str);
    assert!(input_result.is_err());
    assert_eq!(
        input_result.err(),
        Some(ParseError::SquaresRowLength { row: 1, len: 11, size: 4 })
    );
}

#[test]
fn input_squares_from_invalid_char_str() {
    let input_str = "ZZZZ\nxx..\nx...\nx...";
    let input_result = InputSquares::from_str(input_str);
    assert!(input_result.is_err());
    assert_eq!(input_result.err(), Some(ParseError::UnknownSquare { code: 'Z' }));
}

#[test]
fn input_squares_from_board_str() {
    let file_str = "wwww\nkkkk\nrrrr\nbbbb";
    let file = QueensFile::from_str(file_str).unwrap();
    let input_squares = InputSquares::from_board(&file.board);
    assert_eq!(input_squares.0.len(), 16);
}

#[test]
fn queens_file_from_board_str() {
    let file_str = "wwww\nkkkk\nrrrr\nbbbb";
    let file = QueensFile::from_str(file_str).unwrap();
    assert_eq!(file.board.size(), 4);
    assert!(file.squares.is_none());
}

#[test]
fn queens_file_from_empty_board_str() {
    let file_str = "";
    let file_result = QueensFile::from_str(file_str);
    assert!(file_result.is_err());
    assert_eq!(file_result.err(), Some(ParseError::NoLines));
}

#[test]
fn queens_file_from_invalid_board_str() {
    let file_str = "wwww\nkkkk\nrrrr\nbbbb\n\nQxxx\nxx..\nx...";
    let file_result = QueensFile::from_str(file_str);
    assert!(file_result.is_err());
    assert_eq!(file_result.err(), Some(ParseError::LineCount { lines: 8, size: 4 }));
}

#[test]
fn queens_file_from_board_and_squares_str() {
    let file_str = "wwww\nkkkk\nrrrr\nbbbb\n\nQxxx\nxx..\nx...\nx...";
    let file = QueensFile::from_str(file_str).unwrap();
    assert_eq!(file.board.size(), 4);
    assert!(file.squares.is_some());
    let squares = file.squares.unwrap().0;
    assert_eq!(
        squares
            .iter()
            .filter(|&&x| x == Some(SquareVal::Queen))
            .collect::<Vec<_>>()
            .len(),
        1
    );
    assert_eq!(
        squares
            .iter()
            .filter(|&&x| x == Some(SquareVal::X))
            .collect::<Vec<_>>()
            .len(),
        7
    );
}

#[test]
fn queens_file_refuses_saved_state_of_another_size() {
    let result = QueensFile::from_str("wk\nkw\n\n  \n x");
    assert_eq!(result.err(), Some(ParseError::SquaresCount { squares: 1, size: 2 }));
}

#[test]
fn queens_file_passes_on_errors_of_its_parts() {
    assert_eq!(
        QueensFile::from_str("wk\nk?").err(),
        Some(ParseError::UnknownColor { code: '?' })
    );
    assert_eq!(
        QueensFile::from_str("wk\nkw\n\nQx\nx?").err(),
        Some(ParseError::UnknownSquare { code: '?' })
    );
    assert_eq!(
        QueensFile::from_str("wk\nkwk").err(),
        Some(ParseError::BoardRowLength { row: 2, len: 3, size: 2 })
    );
}

#[test]
fn input_squares_text_of_no_squares() {
    assert_eq!(InputSquares(vec![]).to_string(), "");
    assert_eq!(InputSquares(vec![None; 5]).to_string(), "  \n  ");
    let copy = InputSquares(vec![Some(SquareVal::Queen)]).clone();
    assert_eq!(copy.to_string(), "Q");
}
