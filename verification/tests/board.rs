use qsolve::board::{Board, BoardError};
use qsolve::datastructure::CoordSet;
use qsolve::file::ParseError;
use qsolve::squarecolor::SquareColor;

#[test]
fn board_new() {
    let board = Board::new(4, vec![SquareColor::Black; 16]).unwrap();
    assert_eq!(board.size(), 4);
    assert_eq!(board.square_count(), 16);
}

#[test]
fn board_new_refuses_wrong_color_count() {
    let result = Board::new(4, vec![SquareColor::Black; 15]);
    assert_eq!(result.err(), Some(BoardError::ColorCount { size: 4, colors: 15 }));
}

#[test]
fn board_new_refuses_more_than_16_rows() {
    let result = Board::new(17, vec![SquareColor::Black; 17 * 17]);
    assert_eq!(result.err(), Some(BoardError::TooLarge { size: 17 }));
}

#[test]
fn board_new_accepts_16_rows() {
    let board = Board::new(16, vec![SquareColor::Red; 256]).unwrap();
    assert_eq!(board.all_coords().len(), 256);
    assert_eq!(board.queen_borders(&(15, 15)).len(), 255);
}

#[test]
fn board_from_str() {
    let board_str = "wwww\nkkkk\nrrrr\nbbbb";
    let board_result = Board::from_str(board_str);
    assert!(board_result.is_ok());
    let board = board_result.unwrap();
    assert_eq!(board.size(), 4);
    assert_eq!(board.square_count(), 16);
    assert_eq!(board.to_string(), board_str);
}

#[test]
fn board_from_invalid_size_str() {
    let board_str = "wwwwwwwwwww\nkkkk\nrrrr\nbbbb";
    let board_result = Board::from_str(board_str);
    assert!(board_result.is_err());
    assert_eq!(
        board_result.err(),
        Some(ParseError::BoardRowLength { row: 1, len: 11, size: 4 })
    );
}

#[test]
fn board_from_invalid_char_str() {
    let board_str = "xxxx\nkkkk\nrrrr\nbbbb";
    let board_result = Board::from_str(board_str);
    assert!(board_result.is_err());
    assert_eq!(board_result.err(), Some(ParseError::UnknownColor { code: 'x' }));
}

#[test]
fn board_from_str_trims_and_splits_lines() {
    let board = Board::from_str("  \n wk\r\nkw\n\n").unwrap();
    assert_eq!(board.size(), 2);
    assert_eq!(board.to_string(), "wk\nkw");
}

#[test]
fn board_from_str_reports_first_uneven_row() {
    let result = Board::from_str("wk\nkwk\nk");
    assert_eq!(result.err(), Some(ParseError::BoardRowLength { row: 1, len: 2, size: 3 }));
}

#[test]
fn board_from_str_refuses_17_rows() {
    let row = "k".repeat(17);
    let rows: Vec<String> = (0..17).map(|_| row.clone()).collect();
    let result = Board::from_str(&rows.join("\n"));
    assert_eq!(result.err(), Some(ParseError::BoardTooLarge { size: 17 }));
}

#[test]
fn board_coord_idx() {
    let board_str = "wwww\nkkkk\nrrrr\nbbbb";
    let board = Board::from_str(board_str).unwrap();
    assert_eq!(board.size(), 4);
    assert_eq!(board.square_count(), 16);
    assert_eq!(board.coord_to_idx(&(1, 1)), 5);
    assert_eq!(board.idx_to_coord(&5), (1, 1));
}

#[test]
fn board_colors() {
    let board_str = "wwww\nkkkk\nrrrr\nbbbb";
    let board = Board::from_str(board_str).unwrap();

    assert_eq!(board.color(&(1, 1)), SquareColor::Black);
    assert_eq!(
        board.all_colors(),
        vec![
            SquareColor::White,
            SquareColor::Black,
            SquareColor::Red,
            SquareColor::Blue
        ]
    );
    assert_eq!(
        board.coords_for_color(&SquareColor::Black),
        CoordSet::from_iter(&[(1, 0), (1, 1), (1, 2), (1, 3)])
    );
}

#[test]
fn board_all_colors_keeps_first_occurrence_order() {
    let board = Board::from_str("kwk\nrkw\nwrb").unwrap();
    assert_eq!(
        board.all_colors(),
        vec![
            SquareColor::Black,
            SquareColor::White,
            SquareColor::Red,
            SquareColor::Blue
        ]
    );
}

#[test]
fn board_rowcol() {
    let board_str = "wwww\nkkkk\nrrrr\nbbbb";
    let board = Board::from_str(board_str).unwrap();

    assert_eq!(
        board.all_coords(),
        &CoordSet::from_iter(&[
            (0, 0),
            (0, 1),
            (0, 2),
            (0, 3),
            (1, 0),
            (1, 1),
            (1, 2),
            (1, 3),
            (2, 0),
            (2, 1),
            (2, 2),
            (2, 3),
            (3, 0),
            (3, 1),
            (3, 2),
            (3, 3)
        ])
    );
    assert_eq!(
        board.row_coords(1),
        CoordSet::from_iter(&[(1, 0), (1, 1), (1, 2), (1, 3)])
    );
    assert_eq!(
        board.col_coords(1),
        CoordSet::from_iter(&[(0, 1), (1, 1), (2, 1), (3, 1)])
    );
}

#[test]
fn board_queen_borders() {
    let board_str = "wwww\nkkkk\nrrrr\nbbbb";
    let board = Board::from_str(board_str).unwrap();

    let queen_borders = board.queen_borders(&(0, 0));
    assert_eq!(
        queen_borders,
        CoordSet::from_iter(&[(0, 1), (0, 2), (0, 3), (1, 0), (1, 1), (2, 0), (3, 0)])
    );
}

#[test]
fn board_queen_borders_are_mutual() {
    let board = Board::from_str("kkkk\nkrrr\nbbbb\nwwww").unwrap();
    assert_eq!(
        board.queen_borders(&(0, 3)),
        CoordSet::from_iter(&[
            (0, 0),
            (0, 1),
            (0, 2),
            (1, 3),
            (2, 3),
            (3, 3),
            (1, 0),
            (1, 2)
        ])
    );
    for a in 0..16 {
        for b in 0..16 {
            let first = board.idx_to_coord(&a);
            let second = board.idx_to_coord(&b);
            assert_eq!(
                board.queen_borders(&first).contains(&second),
                board.queen_borders(&second).contains(&first)
            );
        }
        let own = board.idx_to_coord(&a);
        assert!(!board.queen_borders(&own).contains(&own));
    }
}
