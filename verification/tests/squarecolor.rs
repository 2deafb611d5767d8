use qsolve::squarecolor::{SquareColor, UnknownColor, ALL_SQUARE_COLORS};

#[test]
fn squarecolor_char_roundtrip() {
    for sc in ALL_SQUARE_COLORS {
        let c = sc.to_char();
        assert_eq!(SquareColor::try_from(c).unwrap(), sc)
    }
}

#[test]
fn squarecolor_invalid_char() {
    assert!(SquareColor::try_from('E').is_err());
    assert_eq!(SquareColor::try_from('E'), Err(UnknownColor { code: 'E' }));
}

#[test]
fn squarecolor_unicode() {
    for sc in ALL_SQUARE_COLORS {
        let u = sc.to_unicode_block();
        assert!(!u.is_ascii())
    }
}

#[test]
fn squarecolor_places() {
    for (place, sc) in ALL_SQUARE_COLORS.iter().enumerate() {
        assert_eq!(sc.place(), place);
        assert_eq!(SquareColor::at_place(place), *sc);
    }
}

#[test]
fn squarecolor_codes_and_names() {
    assert_eq!(SquareColor::Black.to_char(), 'k');
    assert_eq!(SquareColor::BrightBlack.to_char(), 'K');
    assert_eq!(SquareColor::Magenta.to_char(), 'm');
    assert_eq!(SquareColor::try_from('B'), Ok(SquareColor::BrightBlue));
    assert_eq!(SquareColor::Black.name(), "Black");
    assert_eq!(SquareColor::BrightMagenta.name(), "BrightMagenta");
    assert_eq!(format!("{:?}", SquareColor::BrightMagenta), SquareColor::BrightMagenta.name());
}

#[test]
fn squarecolor_blocks_and_foreground() {
    assert_eq!(SquareColor::Yellow.to_unicode_block(), '\u{1F7E8}');
    assert_eq!(SquareColor::Cyan.to_unicode_block(), '\u{1F7E6}');
    assert_eq!(SquareColor::BrightWhite.to_unicode_block(), '\u{2B1C}');
    for sc in ALL_SQUARE_COLORS {
        let fg = sc.fg_color();
        if sc == SquareColor::Black || sc == SquareColor::BrightBlack {
            assert_eq!(fg, SquareColor::BrightWhite);
        } else {
            assert_eq!(fg, SquareColor::Black);
        }
    }
}
